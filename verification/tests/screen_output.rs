use nobiscuit::terminal::{HalfBlockCell, Rgb, TerminalRenderer};
use nobiscuit::ui::{
    char_bitmap, draw_chars, push_decimal, render_centered_text, render_clear_screen,
    render_floor_indicator, render_game_over_screen, render_garagara_frame, render_garagara_screen, render_hunger_bar,
    render_message, shift_framebuffer,
};
use termray::{Color, Framebuffer};
use rand::rngs::StdRng;
use rand::SeedableRng;
use nobiscuit::minimap::minimap_color;
use nobiscuit::nobiscuit_map::NobiscuitMap;
use nobiscuit::tiles::{
    TILE_EMPTY, TILE_GOAL, TILE_STAIRS_DOWN, TILE_STAIRS_UP, TILE_VOID, TILE_WALL, TILE_WINDOW,
};

fn rgb(r: u8, g: u8, b: u8) -> Rgb {
    Rgb { r, g, b }
}

fn px(fb: &Framebuffer, x: usize, y: usize) -> (u8, u8, u8) {
    let c = fb.get_pixel(x, y);
    (c.r, c.g, c.b)
}

fn lit_pixels(fb: &Framebuffer) -> usize {
    let mut n = 0;
    for y in 0..fb.height() {
        for x in 0..fb.width() {
            if fb.get_pixel(x, y) != Color::default() {
                n += 1;
            }
        }
    }
    n
}

#[test]
fn new_terminal_is_blank() {
    let t = TerminalRenderer::new(4, 3);
    assert_eq!(t.size(), (4, 3));
    assert_eq!(HalfBlockCell::default(), HalfBlockCell { top: rgb(0, 0, 0), bottom: rgb(0, 0, 0) });
}

#[test]
fn present_redraws_changed_cells_only() {
    let mut t = TerminalRenderer::new(3, 2);
    let mut fb = Framebuffer::new(3, 4);
    fb.set_pixel(1, 0, Color::rgb(10, 20, 30));
    fb.set_pixel(2, 3, Color::rgb(1, 2, 3));
    let changed = t.present(&fb);
    assert_eq!(
        changed,
        vec![
            (1, 0, HalfBlockCell { top: rgb(10, 20, 30), bottom: rgb(0, 0, 0) }),
            (2, 1, HalfBlockCell { top: rgb(0, 0, 0), bottom: rgb(1, 2, 3) }),
        ]
    );
    // The same frame again: nothing to redraw.
    assert!(t.present(&fb).is_empty());
    // One pixel changes back.
    fb.set_pixel(1, 0, Color::rgb(0, 0, 0));
    assert_eq!(
        t.present(&fb),
        vec![(1, 0, HalfBlockCell { top: rgb(0, 0, 0), bottom: rgb(0, 0, 0) })]
    );
}

#[test]
fn present_reads_black_outside_the_framebuffer() {
    let mut t = TerminalRenderer::new(2, 2);
    let mut fb = Framebuffer::new(1, 1);
    fb.set_pixel(0, 0, Color::rgb(9, 9, 9));
    let changed = t.present(&fb);
    assert_eq!(changed, vec![(0, 0, HalfBlockCell { top: rgb(9, 9, 9), bottom: rgb(0, 0, 0) })]);
}

#[test]
fn resize_resets_buffers_only_on_change() {
    let mut t = TerminalRenderer::new(2, 1);
    let mut fb = Framebuffer::new(2, 2);
    fb.set_pixel(0, 0, Color::rgb(5, 5, 5));
    assert_eq!(t.present(&fb).len(), 1);
    t.resize(2, 1);
    assert!(t.present(&fb).is_empty());
    t.resize(3, 1);
    assert_eq!(t.size(), (3, 1));
    assert_eq!(t.present(&fb).len(), 1);
}

#[test]
fn bitmap_font_rows() {
    assert_eq!(char_bitmap('A'), [0b010, 0b101, 0b111, 0b101, 0b101]);
    assert_eq!(char_bitmap('a'), char_bitmap('A'));
    assert_eq!(char_bitmap('7'), [0b111, 0b001, 0b010, 0b010, 0b010]);
    assert_eq!(char_bitmap(' '), [0; 5]);
    assert_eq!(char_bitmap('~'), [0b111; 5]);
}

#[test]
fn decimal_digits() {
    let mut v = vec!['x'];
    push_decimal(&mut v, 0);
    push_decimal(&mut v, 907);
    assert_eq!(v, vec!['x', '0', '9', '0', '7']);
}

#[test]
fn draw_chars_lights_glyph_pixels() {
    let mut fb = Framebuffer::new(10, 6);
    draw_chars(&mut fb, &vec!['1', '.'], 1, 0, rgb(7, 7, 7));
    // '1' = 010 / 110 / 010 / 010 / 111 at x = 1..4.
    assert_eq!(px(&fb, 2, 0), (7, 7, 7));
    assert_eq!(px(&fb, 1, 0), (0, 0, 0));
    assert_eq!(px(&fb, 1, 1), (7, 7, 7));
    assert_eq!(px(&fb, 3, 4), (7, 7, 7));
    // '.' has a single lit pixel, column 1 of its last row, at x = 5 + 1.
    assert_eq!(px(&fb, 6, 4), (7, 7, 7));
    assert_eq!(lit_pixels(&fb), 8 + 1);
}

#[test]
fn centered_text_position() {
    let mut fb = Framebuffer::new(20, 8);
    render_centered_text(&mut fb, "-", rgb(1, 1, 1), 2);
    // One glyph (4 columns) centred in 20: x0 = 8; '-' is row 2 fully lit.
    assert_eq!(px(&fb, 8, 4), (1, 1, 1));
    assert_eq!(px(&fb, 10, 4), (1, 1, 1));
    assert_eq!(lit_pixels(&fb), 3);
}

#[test]
fn hunger_bar_layout() {
    let mut fb = Framebuffer::new(30, 10);
    render_hunger_bar(&mut fb, 10, rgb(80, 200, 80));
    assert_eq!(px(&fb, 4, 4), (180, 180, 180));
    assert_eq!(px(&fb, 23, 7), (180, 180, 180));
    assert_eq!(px(&fb, 5, 5), (80, 200, 80));
    assert_eq!(px(&fb, 13, 6), (80, 200, 80));
    assert_eq!(px(&fb, 14, 6), (40, 40, 40));
    assert_eq!(px(&fb, 24, 5), (0, 0, 0));
}

#[test]
fn message_strip_and_text() {
    let mut fb = Framebuffer::new(40, 30);
    render_message(&mut fb, "!", rgb(255, 255, 200));
    // x0 = (40 - 4) / 2 = 18, y0 = 30 - 14 = 16; '!' column 1 lit on row 0.
    assert_eq!(px(&fb, 19, 16), (255, 255, 200));
    // The strip is black.
    fb.set_pixel(0, 0, Color::rgb(1, 1, 1));
    let mut fb2 = Framebuffer::new(40, 30);
    for y in 0..30 {
        for x in 0..40 {
            fb2.set_pixel(x, y, Color::rgb(50, 50, 50));
        }
    }
    render_message(&mut fb2, "!", rgb(255, 255, 200));
    assert_eq!(px(&fb2, 14, 14), (0, 0, 0));
    assert_eq!(px(&fb2, 25, 22), (0, 0, 0));
    assert_eq!(px(&fb2, 13, 14), (50, 50, 50));
    assert_eq!(px(&fb2, 26, 14), (50, 50, 50));
    assert_eq!(px(&fb2, 14, 13), (50, 50, 50));
    assert_eq!(px(&fb2, 14, 23), (50, 50, 50));
}

#[test]
fn floor_indicator_dots() {
    let mut fb = Framebuffer::new(40, 30);
    render_floor_indicator(&mut fb, 2, 3);
    // Label "2F": brighter colour above the ground floor.
    assert_eq!(px(&fb, 4, 10), (200, 180, 100));
    // Dots at x = 4 + 8 + 2 = 14, rows 10 (top floor), 13, 16 (ground).
    assert_eq!(px(&fb, 14, 10), (80, 80, 80));
    assert_eq!(px(&fb, 15, 13), (255, 200, 50));
    assert_eq!(px(&fb, 14, 16), (80, 80, 80));
    assert_eq!(px(&fb, 14, 11), (0, 0, 0));
}

#[test]
fn game_over_screen_shows_prompt_after_two_seconds() {
    let mut early = Framebuffer::new(120, 40);
    render_game_over_screen(&mut early, 1500);
    let mut late = Framebuffer::new(120, 40);
    render_game_over_screen(&mut late, 2500);
    assert!(lit_pixels(&late) > lit_pixels(&early));
    assert!(lit_pixels(&early) > 0);
}

#[test]
fn clear_screen_stages() {
    let mut a = Framebuffer::new(160, 60);
    render_clear_screen(&mut a, 100, 3, 75, 2);
    let mut b = Framebuffer::new(160, 60);
    render_clear_screen(&mut b, 5000, 3, 75, 2);
    let mut c = Framebuffer::new(160, 60);
    render_clear_screen(&mut c, 7000, 3, 75, 2);
    assert!(lit_pixels(&b) > lit_pixels(&a));
    assert!(lit_pixels(&c) > lit_pixels(&b));
    // Title colour of the first stage.
    let mut found = false;
    for y in 0..60 {
        for x in 0..160 {
            if px(&a, x, y) == (200, 255, 200) {
                found = true;
            }
        }
    }
    assert!(found);
}

#[test]
fn garagara_screen_and_shake() {
    let mut fb = Framebuffer::new(60, 40);
    fb.set_pixel(0, 0, Color::rgb(9, 9, 9));
    render_garagara_frame(&mut fb, 7, None);
    // Cleared to black first.
    assert_eq!(px(&fb, 0, 0), (0, 0, 0));
    // '7' enlarged: top row fully lit, x0 = (60 - 12) / 2 = 24, y0 = (40 - 15) / 2 = 12.
    assert_eq!(px(&fb, 24, 12), (255, 200, 50));
    assert_eq!(px(&fb, 32, 14), (255, 200, 50));
    let mut shaken = Framebuffer::new(60, 40);
    render_garagara_frame(&mut shaken, 7, Some((2, 1)));
    assert_eq!(px(&shaken, 26, 13), (255, 200, 50));
    assert_eq!(px(&shaken, 0, 0), (0, 0, 0));
}

#[test]
fn garagara_screen_shakes_by_at_most_two_pixels() {
    let mut still = Framebuffer::new(60, 40);
    render_garagara_frame(&mut still, 3, None);
    let mut rng = StdRng::seed_from_u64(5);
    let mut calm = Framebuffer::new(60, 40);
    render_garagara_screen(&mut calm, 3, false, &mut rng);
    for y in 0..40 {
        for x in 0..60 {
            assert_eq!(px(&calm, x, y), px(&still, x, y));
        }
    }
    for seed in 0..10u64 {
        let mut rng = StdRng::seed_from_u64(seed);
        let mut fb = Framebuffer::new(60, 40);
        render_garagara_screen(&mut fb, 3, true, &mut rng);
        let mut matched = false;
        for dy in -2i32..=2 {
            for dx in -2i32..=2 {
                let mut expected = Framebuffer::new(60, 40);
                render_garagara_frame(&mut expected, 3, Some((dx, dy)));
                let same = (0..40).all(|y| (0..60).all(|x| px(&fb, x, y) == px(&expected, x, y)));
                matched = matched || same;
            }
        }
        assert!(matched, "seed {seed}");
    }
}

#[test]
fn shift_moves_pixels_and_fills_black() {
    let mut fb = Framebuffer::new(4, 3);
    fb.set_pixel(0, 0, Color::rgb(1, 2, 3));
    fb.set_pixel(3, 2, Color::rgb(4, 5, 6));
    shift_framebuffer(&mut fb, 1, 1);
    assert_eq!(px(&fb, 1, 1), (1, 2, 3));
    assert_eq!(px(&fb, 0, 0), (0, 0, 0));
    assert_eq!(lit_pixels(&fb), 1);
    shift_framebuffer(&mut fb, -1, -1);
    assert_eq!(px(&fb, 0, 0), (1, 2, 3));
}

#[test]
fn minimap_sits_flush_right_and_centred() {
    assert_eq!(nobiscuit::minimap::minimap_origin(10, 10, 3, 2), (4, 3));
    assert_eq!(nobiscuit::minimap::minimap_origin(4, 3, 5, 5), (0, 0));
    assert_eq!(nobiscuit::minimap::minimap_origin(80, 49, 31, 25), (18, 0));
}

#[test]
fn minimap_colours_each_tile() {
    assert_eq!(minimap_color(TILE_VOID), None);
    assert_eq!(minimap_color(TILE_WALL), Some(Rgb { r: 40, g: 60, b: 40 }));
    assert_eq!(minimap_color(TILE_WINDOW), Some(Rgb { r: 80, g: 120, b: 180 }));
    assert_eq!(minimap_color(TILE_GOAL), Some(Rgb { r: 255, g: 215, b: 0 }));
    assert_eq!(minimap_color(TILE_STAIRS_UP), Some(Rgb { r: 200, g: 150, b: 50 }));
    assert_eq!(minimap_color(TILE_STAIRS_DOWN), Some(Rgb { r: 150, g: 100, b: 30 }));
    assert_eq!(minimap_color(TILE_EMPTY), Some(Rgb { r: 100, g: 140, b: 100 }));
}

#[test]
fn minimap_pixels_skip_void_cells() {
    let mut map = NobiscuitMap::new(3, 2);
    map.set(1, 0, TILE_VOID);
    map.set(2, 1, TILE_GOAL);
    let px = nobiscuit::minimap::minimap_pixels(&map, 10, 10);
    let wall = Rgb { r: 40, g: 60, b: 40 };
    let gold = Rgb { r: 255, g: 215, b: 0 };
    let block = |x: usize, y: usize, c: Rgb| vec![(x, y, c), (x + 1, y, c), (x, y + 1, c), (x + 1, y + 1, c)];
    let mut want = Vec::new();
    want.extend(block(4, 3, wall));
    want.extend(block(8, 3, wall));
    want.extend(block(4, 5, wall));
    want.extend(block(6, 5, wall));
    want.extend(block(8, 5, gold));
    assert_eq!(px, want);
}
