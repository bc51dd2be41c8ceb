//! Opening doors between rooms and corridors, and wiring the spawn corner in.

use vstd::prelude::*;
use std::collections::VecDeque;
use crate::grid::{cell_index, count_true, lemma_count_true_bound, lemma_count_true_set, lemma_count_true_none, lemma_index_in_bounds, lemma_index_injective};
use crate::map::TileMap;
use crate::maze::{Room, room_inside, in_room, interior};
use crate::maze::mask::lemma_shuffled_from;
use crate::maze::decor::on_room_ring;
use crate::maze::bsp::listed_cell;
use crate::maze::reach::{dir4, dir_dx, dir_dy};
use crate::nobiscuit_map::NobiscuitMap;
use crate::rng::shuffle;
use crate::tiles::{TILE_EMPTY, TILE_WALL, TILE_DOOR_FUSUMA, TILE_GOAL, is_passable_tile};
use rand::rngs::StdRng;

verus! {

/// `m` differs from `m0` only by walls that became fusuma doors.
pub open spec fn doored_from(m0: &NobiscuitMap, m: &NobiscuitMap) -> bool {
    &&& m.wf()
    &&& m.spec_width() == m0.spec_width()
    &&& m.spec_height() == m0.spec_height()
    &&& forall|a: int, b: int|
        m0.in_bounds(a, b) ==> (#[trigger] m.cell(a, b) == m0.cell(a, b) || (m0.cell(a, b)
            == TILE_WALL && m.cell(a, b) == TILE_DOOR_FUSUMA))
}

/// Turn the wall at `(x, y)` into a fusuma door; any other tile is left alone.
fn open_fusuma(map: &mut NobiscuitMap, x: usize, y: usize, Ghost(m0): Ghost<NobiscuitMap>)
    requires
        doored_from(&m0, old(map)),
        m0.in_bounds(x as int, y as int),
        x <= i32::MAX,
        y <= i32::MAX,
    ensures
        doored_from(&m0, final(map)),
        final(map).cell(x as int, y as int) == if old(map).cell(x as int, y as int) == TILE_WALL {
            TILE_DOOR_FUSUMA
        } else {
            old(map).cell(x as int, y as int)
        },
        forall|a: int, b: int|
            m0.in_bounds(a, b) && (a != x || b != y) ==> #[trigger] final(map).cell(a, b) == old(map).cell(a, b),
{
    if map.get(x as i32, y as i32) == Some(TILE_WALL) {
        map.set(x, y, TILE_DOOR_FUSUMA);
    }
}

/// A union-find forest whose links always climb to a strictly higher level.
pub open spec fn uf_ok(parent: Seq<usize>, level: Seq<nat>, bound: nat) -> bool {
    &&& parent.len() == level.len()
    &&& forall|i: int|
        0 <= i < parent.len() ==> #[trigger] parent[i] < parent.len() && level[i] <= bound && (
        parent[i] != i ==> level[i] < level[parent[i] as int])
}

/// The root reached from `x` by following parent links, each of which climbs
/// to a higher level.
pub open spec fn uf_root(parent: Seq<usize>, level: Seq<nat>, bound: nat, x: int) -> int
    decreases bound - level[x],
{
    if 0 <= x < parent.len() && parent.len() == level.len() && parent[x] != x && parent[x] < parent.len() && level[x]
        < level[parent[x] as int] <= bound {
        uf_root(parent, level, bound, parent[x] as int)
    } else {
        x
    }
}

/// The root of a node is a root.
proof fn lemma_root_is_root(parent: Seq<usize>, level: Seq<nat>, bound: nat, x: int)
    requires
        uf_ok(parent, level, bound),
        0 <= x < parent.len(),
    ensures
        0 <= uf_root(parent, level, bound, x) < parent.len(),
        parent[uf_root(parent, level, bound, x)] == uf_root(parent, level, bound, x),
    decreases bound - level[x],
{
    assert(parent[x] < parent.len());
    assert(level[x] <= bound);
    if parent[x] != x {
        assert(parent[parent[x] as int] < parent.len() && level[parent[x] as int] <= bound);
        assert(level[x] < level[parent[x] as int]);
        lemma_root_is_root(parent, level, bound, parent[x] as int);
    }
}

/// Pointing `x` at its grandparent keeps every node's root.
proof fn lemma_halve_root(parent: Seq<usize>, level: Seq<nat>, bound: nat, x: int, i: int)
    requires
        uf_ok(parent, level, bound),
        0 <= x < parent.len(),
        parent[x] != x,
        uf_ok(parent.update(x, parent[parent[x] as int]), level, bound),
        0 <= i < parent.len(),
    ensures
        uf_root(parent.update(x, parent[parent[x] as int]), level, bound, i) == uf_root(parent, level, bound, i),
    decreases bound - level[i],
{
    let p2 = parent.update(x, parent[parent[x] as int]);
    let px = parent[x] as int;
    assert(parent[x] < parent.len());
    assert(level[x] <= bound);
    assert(parent[px] < parent.len());
    assert(level[px] <= bound);
    assert(parent[i] < parent.len());
    assert(level[i] <= bound);
    if i == x {
        let gp = parent[px] as int;
        assert(gp != x) by {
            if gp != px {
                assert(level[x] < level[px] < level[gp]);
            }
        }
        assert(parent[gp] < parent.len());
    assert(level[gp] <= bound);
        assert(level[x] < level[gp]);
        lemma_halve_root(parent, level, bound, x, gp);
        if parent[px] != px {
            assert(uf_root(parent, level, bound, px) == uf_root(parent, level, bound, gp));
        }
    } else if parent[i] != i {
        assert(parent[parent[i] as int] < parent.len() && level[parent[i] as int] <= bound);
        assert(p2[i] == parent[i]);
        lemma_halve_root(parent, level, bound, x, parent[i] as int);
    }
}

/// Linking root `ra` under root `rb` sends the nodes of `ra` to `rb` and
/// keeps every other root.
proof fn lemma_link_root(parent: Seq<usize>, level: Seq<nat>, bound: nat, level2: Seq<nat>, ra: int, rb: int, i: int)
    requires
        uf_ok(parent, level, bound),
        uf_ok(parent.update(ra, rb as usize), level2, bound + 1),
        0 <= ra < parent.len(),
        0 <= rb < parent.len(),
        ra != rb,
        parent[ra] == ra,
        parent[rb] == rb,
        0 <= i < parent.len(),
    ensures
        uf_root(parent.update(ra, rb as usize), level2, bound + 1, i) == if uf_root(parent, level, bound, i) == ra {
            rb
        } else {
            uf_root(parent, level, bound, i)
        },
    decreases bound - level[i],
{
    let p2 = parent.update(ra, rb as usize);
    assert(parent[i] < parent.len());
    assert(level[i] <= bound);
    if parent[i] != i {
        assert(parent[parent[i] as int] < parent.len());
        assert(level[parent[i] as int] <= bound);
        assert(level[i] < level[parent[i] as int]);
        assert(p2[i] == parent[i]);
        assert(p2[i] < p2.len());
        assert(level2[i] < level2[p2[i] as int]);
        assert(p2[p2[i] as int] < p2.len());
        assert(level2[p2[i] as int] <= bound + 1);
        lemma_link_root(parent, level, bound, level2, ra, rb, parent[i] as int);
        assert(uf_root(p2, level2, bound + 1, i) == uf_root(p2, level2, bound + 1, parent[i] as int));
        assert(uf_root(parent, level, bound, i) == uf_root(parent, level, bound, parent[i] as int));
    } else if i == ra {
        assert(p2[rb] == rb);
        assert(p2[ra] == rb);
        assert(level2[ra] < level2[rb]);
        assert(level2[rb] <= bound + 1);
        assert(uf_root(p2, level2, bound + 1, ra) == uf_root(p2, level2, bound + 1, rb));
    }
}

/// Find the root of `x`, halving the path on the way.
fn find(parent: &mut Vec<usize>, x: usize, Ghost(level): Ghost<Seq<nat>>, Ghost(bound): Ghost<nat>) -> (r: usize)
    requires
        uf_ok(old(parent)@, level, bound),
        x < old(parent)@.len(),
    ensures
        uf_ok(final(parent)@, level, bound),
        r < final(parent)@.len(),
        final(parent)@[r as int] == r,
        forall|i: int| 0 <= i < old(parent)@.len() ==> (#[trigger] final(parent)@[i] == i) == (old(parent)@[i] == i),
        old(parent)@[x as int] == x ==> r == x,
        r == uf_root(old(parent)@, level, bound, x as int),
        forall|i: int|
            0 <= i < old(parent)@.len() ==> #[trigger] uf_root(final(parent)@, level, bound, i) == uf_root(old(parent)@, level, bound, i),
{
    let ghost x0 = x;
    let mut x = x;
    while parent[x] != x
        invariant
            old(parent)@[x0 as int] == x0 ==> x == x0 && parent@ == old(parent)@,
            uf_ok(parent@, level, bound),
            x < parent@.len(),
            parent@.len() == old(parent)@.len(),
            forall|i: int| 0 <= i < old(parent)@.len() ==> (#[trigger] parent@[i] == i) == (old(parent)@[i] == i),
            uf_root(parent@, level, bound, x as int) == uf_root(old(parent)@, level, bound, x0 as int),
            forall|i: int|
                0 <= i < old(parent)@.len() ==> #[trigger] uf_root(parent@, level, bound, i) == uf_root(old(parent)@, level, bound, i),
        decreases bound - level[x as int],
    {
        let p = parent[x];
        let pp = parent[p];
        assert(parent@[x as int] < parent@.len());
        assert(parent@[p as int] < parent@.len());
        let ghost before = parent@;
        parent.set(x, pp);
        proof {
            assert forall|i: int| 0 <= i < parent@.len() implies #[trigger] parent@[i] < parent@.len() && level[i] <= bound && (parent@[i] != i ==> level[i] < level[parent@[i] as int]) by {
                assert(before[i] < before.len());
                if i != x {
                    assert(parent@[i] == before[i]);
                }
            }
            assert forall|i: int| 0 <= i < old(parent)@.len() implies (#[trigger] parent@[i] == i) == (old(parent)@[i] == i) by {
                if i == x {
                    assert(before[i] != i);
                    assert(pp != x) by {
                        if pp != p {
                            assert(level[x as int] < level[p as int] < level[pp as int]);
                        }
                    }
                }
            }
        }
        proof {
            assert forall|i: int| 0 <= i < old(parent)@.len() implies #[trigger] uf_root(parent@, level, bound, i) == uf_root(old(parent)@, level, bound, i) by {
                lemma_halve_root(before, level, bound, x as int, i);
                assert(uf_root(before, level, bound, i) == uf_root(old(parent)@, level, bound, i));
            }
        }
        let ghost old_x = x;
        x = parent[x];
        proof {
            assert(x == pp);
            assert(level[old_x as int] < level[p as int]);
            if pp != p {
                assert(level[p as int] < level[pp as int]);
            }
            assert(level[old_x as int] < level[x as int]);
            assert(parent@[x as int] < parent@.len());
            assert(level[x as int] <= bound);
            assert(parent@[old_x as int] == x);
            assert(x != old_x);
            assert(uf_root(parent@, level, bound, old_x as int) == uf_root(parent@, level, bound, x as int));
            assert(uf_root(parent@, level, bound, old_x as int) == uf_root(old(parent)@, level, bound, old_x as int));
            assert(bound - level[x as int] < bound - level[old_x as int]);
        }
    }
    x
}

/// Node of the room/corridor graph at `(x, y)`: the room holding it, else the
/// corridor component holding it (numbered after the rooms).
fn node_of(roomid: &Vec<usize>, comp: &Vec<usize>, nrooms: usize, idx: usize) -> (r: Option<usize>)
    requires
        idx < roomid@.len(),
        idx < comp@.len(),
        roomid@[idx as int] == usize::MAX || roomid@[idx as int] < nrooms,
        comp@[idx as int] != usize::MAX ==> nrooms + comp@[idx as int] <= usize::MAX,
    ensures
        match r {
            Some(v) => (roomid@[idx as int] != usize::MAX && v == roomid@[idx as int]) || (roomid@[idx as int] == usize::MAX && comp@[idx as int] != usize::MAX && v == nrooms + comp@[idx as int]),
            None => roomid@[idx as int] == usize::MAX && comp@[idx as int] == usize::MAX,
        },
{
    if roomid[idx] != usize::MAX {
        Some(roomid[idx])
    } else if comp[idx] != usize::MAX {
        Some(nrooms + comp[idx])
    } else {
        None
    }
}

/// Room-id grid: the index of the room whose interior holds each EMPTY cell,
/// or `usize::MAX`.
fn label_rooms(map: &NobiscuitMap, rooms: &Vec<Room>, width: usize, height: usize) -> (roomid: Vec<usize>)
    requires
        map.wf(),
        map.spec_width() == width,
        map.spec_height() == height,
        3 <= width <= i32::MAX,
        3 <= height <= i32::MAX,
        forall|i: int| 0 <= i < rooms@.len() ==> room_inside(#[trigger] rooms@[i], width as int, height as int),
    ensures
        roomid@.len() == width * height,
        forall|i: int| 0 <= i < roomid@.len() ==> #[trigger] roomid@[i] == usize::MAX || roomid@[i] < rooms@.len(),
        forall|a: int, b: int|
            map.in_bounds(a, b) && #[trigger] roomid@[cell_index(width as int, a, b)] != usize::MAX ==> in_room(
                rooms@[roomid@[cell_index(width as int, a, b)] as int],
                a,
                b,
            ),
        forall|j: int, a: int, b: int|
            0 <= j < rooms@.len() && #[trigger] in_room(rooms@[j], a, b) && map.in_bounds(a, b) && map.cell(a, b)
                == TILE_EMPTY ==> roomid@[cell_index(width as int, a, b)] != usize::MAX,
{
    proof {
        map.lemma_wf_size();
    }
    let n = width * height;
    let mut roomid: Vec<usize> = vec![usize::MAX; n];
    assert forall|i: int| 0 <= i < n implies roomid@[i] == usize::MAX by {
        assert(cloned(usize::MAX, roomid@[i]));
    }
    assert forall|a: int, b: int| map.in_bounds(a, b) implies #[trigger] roomid@[cell_index(width as int, a, b)] == usize::MAX by {
        lemma_index_in_bounds(a, b, width as int, height as int);
    }
    let mut i: usize = 0;
    while i < rooms.len()
        invariant
            0 <= i <= rooms@.len(),
            map.wf(),
            map.spec_width() == width,
            map.spec_height() == height,
            3 <= width <= i32::MAX,
            3 <= height <= i32::MAX,
            n == width * height,
            forall|j: int| 0 <= j < rooms@.len() ==> room_inside(#[trigger] rooms@[j], width as int, height as int),
            roomid@.len() == n,
            forall|j: int| 0 <= j < roomid@.len() ==> #[trigger] roomid@[j] == usize::MAX || roomid@[j] < rooms@.len(),
            forall|a: int, b: int|
                map.in_bounds(a, b) && #[trigger] roomid@[cell_index(width as int, a, b)] != usize::MAX ==> in_room(
                    rooms@[roomid@[cell_index(width as int, a, b)] as int],
                    a,
                    b,
                ),
            forall|j: int, a: int, b: int|
                0 <= j < rooms@.len() && #[trigger] in_room(rooms@[j], a, b) && map.in_bounds(a, b) && map.cell(a, b)
                    == TILE_EMPTY && (j < i) ==> roomid@[cell_index(width as int, a, b)] != usize::MAX,
        decreases rooms@.len() - i,
    {
        let ghost ri = rooms@[i as int];
        let rx = rooms[i].x;
        let ry = rooms[i].y;
        let rw = rooms[i].w;
        let rh = rooms[i].h;
        assert(room_inside(rooms@[i as int], width as int, height as int));
        let mut yy = ry;
        while yy < ry + rh
            invariant
                ry <= yy <= ry + rh,
                1 <= rx,
                rx + rw <= width - 1,
                ry + rh <= height - 1,
                i < rooms@.len(),
                map.wf(),
                map.spec_width() == width,
                map.spec_height() == height,
                3 <= width <= i32::MAX,
                3 <= height <= i32::MAX,
                n == width * height,
                roomid@.len() == n,
                forall|j: int| 0 <= j < roomid@.len() ==> #[trigger] roomid@[j] == usize::MAX || roomid@[j] < rooms@.len(),
                forall|a: int, b: int|
                map.in_bounds(a, b) && #[trigger] roomid@[cell_index(width as int, a, b)] != usize::MAX ==> in_room(
                    rooms@[roomid@[cell_index(width as int, a, b)] as int],
                    a,
                    b,
                ),
                forall|j: int, a: int, b: int|
                0 <= j < rooms@.len() && #[trigger] in_room(rooms@[j], a, b) && map.in_bounds(a, b) && map.cell(a, b)
                    == TILE_EMPTY && (j < i || (j == i && b < yy)) ==> roomid@[cell_index(width as int, a, b)] != usize::MAX,
                ri == rooms@[i as int] && rx == ri.x && ry == ri.y && rw == ri.w && rh == ri.h,
            decreases ry + rh - yy,
        {
            let mut xx = rx;
            while xx < rx + rw
                invariant
                    rx <= xx <= rx + rw,
                    ry <= yy < ry + rh,
                    rx + rw <= width - 1,
                    ry + rh <= height - 1,
                    i < rooms@.len(),
                    map.wf(),
                    map.spec_width() == width,
                    map.spec_height() == height,
                    3 <= width <= i32::MAX,
                    3 <= height <= i32::MAX,
                    n == width * height,
                    roomid@.len() == n,
                    forall|j: int| 0 <= j < roomid@.len() ==> #[trigger] roomid@[j] == usize::MAX || roomid@[j] < rooms@.len(),
                    forall|a: int, b: int|
                map.in_bounds(a, b) && #[trigger] roomid@[cell_index(width as int, a, b)] != usize::MAX ==> in_room(
                    rooms@[roomid@[cell_index(width as int, a, b)] as int],
                    a,
                    b,
                ),
                    forall|j: int, a: int, b: int|
                0 <= j < rooms@.len() && #[trigger] in_room(rooms@[j], a, b) && map.in_bounds(a, b) && map.cell(a, b)
                    == TILE_EMPTY && (j < i || (j == i && (b < yy || (b == yy && a < xx)))) ==> roomid@[cell_index(width as int, a, b)] != usize::MAX,
                    ri == rooms@[i as int] && rx == ri.x && ry == ri.y && rw == ri.w && rh == ri.h,
                decreases rx + rw - xx,
            {
                let ghost rb = roomid@;
                assert(forall|j: int, a: int, b: int|
                    0 <= j < rooms@.len() && #[trigger] in_room(rooms@[j], a, b) && map.in_bounds(a, b) && map.cell(a, b)
                        == TILE_EMPTY && (j < i || (j == i && (b < yy || (b == yy && a < xx)))) ==> rb[cell_index(width as int, a, b)] != usize::MAX);
                if map.get(xx as i32, yy as i32) == Some(TILE_EMPTY) {
                    proof {
                        lemma_index_in_bounds(xx as int, yy as int, width as int, height as int);
                    }
                    let ghost r0 = roomid@;
                    roomid.set(yy * width + xx, i);
                    proof {
                        assert forall|a: int, b: int| map.in_bounds(a, b) implies #[trigger] roomid@[cell_index(width as int, a, b)] == if a == xx && b == yy {
                            i
                        } else {
                            r0[cell_index(width as int, a, b)]
                        } by {
                            lemma_index_in_bounds(a, b, width as int, height as int);
                            lemma_index_injective(a, b, xx as int, yy as int, width as int);
                        }
                    }
                }
                proof {
                    assert forall|a: int, b: int| map.in_bounds(a, b) implies #[trigger] roomid@[cell_index(width as int, a, b)] == if a == xx && b == yy && map.cell(a, b) == TILE_EMPTY {
                        i
                    } else {
                        rb[cell_index(width as int, a, b)]
                    } by {}
                    assert(in_room(rooms@[i as int], xx as int, yy as int));
                    assert forall|j: int, a: int, b: int|
                        0 <= j < rooms@.len() && #[trigger] in_room(rooms@[j], a, b) && map.in_bounds(a, b) && map.cell(a, b)
                            == TILE_EMPTY && (j < i || (j == i && (b < yy || (b == yy && a < xx + 1)))) implies roomid@[cell_index(width as int, a, b)] != usize::MAX by {
                        if a == xx && b == yy {
                            assert(roomid@[cell_index(width as int, a, b)] == i);
                            assert(i < rooms.len());
                        } else {
                            assert(roomid@[cell_index(width as int, a, b)] == rb[cell_index(width as int, a, b)]);
                            assert(j < i || (j == i && (b < yy || (b == yy && a < xx))));
                            assert(rb[cell_index(width as int, a, b)] != usize::MAX);
                        }
                    }
                }
                xx = xx + 1;
            }
            yy = yy + 1;
        }
        i = i + 1;
    }
    roomid
}

/// `(c, e)` is one of the four orthogonal neighbours of `(a, b)`.
pub open spec fn next_to(a: int, b: int, c: int, e: int) -> bool {
    ||| c == a + 1 && e == b
    ||| c == a - 1 && e == b
    ||| c == a && e == b + 1
    ||| c == a && e == b - 1
}

/// Column of the neighbour of column `a` in direction `d`.
pub open spec fn step_x(a: int, d: int) -> int {
    a + dir_dx(d)
}

/// Row of the neighbour of row `b` in direction `d`.
pub open spec fn step_y(b: int, d: int) -> int {
    b + dir_dy(d)
}

/// Consecutive cells of `p` are orthogonal neighbours, all of them among
/// `cells`.
pub open spec fn corridor_walk(cells: Seq<(usize, usize)>, p: Seq<(int, int)>) -> bool {
    &&& forall|i: int| 0 <= i < p.len() ==> listed_cell(cells, #[trigger] p[i].0, p[i].1)
    &&& forall|i: int, j: int| #![trigger p[i], p[j]] 0 <= i && j == i + 1 && j < p.len() ==> next_to(p[i].0, p[i].1, p[j].0, p[j].1)
}

/// `u` and `v` are 4-connected through cells of `cells`.
pub open spec fn corridor_joined(cells: Seq<(usize, usize)>, u: (int, int), v: (int, int)) -> bool {
    exists|p: Seq<(int, int)>| #[trigger] corridor_walk(cells, p) && p.len() >= 1 && p[0] == u && p[p.len() - 1] == v
}

/// A corridor cell is joined to itself.
proof fn lemma_cj_refl(cells: Seq<(usize, usize)>, u: (int, int))
    requires
        listed_cell(cells, u.0, u.1),
    ensures
        corridor_joined(cells, u, u),
{
    let p = seq![u];
    assert(corridor_walk(cells, p));
}

/// A walk extends by a neighbouring corridor cell.
proof fn lemma_cj_extend(cells: Seq<(usize, usize)>, u: (int, int), v: (int, int), c: (int, int))
    requires
        corridor_joined(cells, u, v),
        next_to(v.0, v.1, c.0, c.1),
        listed_cell(cells, c.0, c.1),
    ensures
        corridor_joined(cells, u, c),
{
    let p = choose|p: Seq<(int, int)>| #[trigger] corridor_walk(cells, p) && p.len() >= 1 && p[0] == u && p[p.len() - 1] == v;
    let q = p.push(c);
    assert forall|i: int| 0 <= i < q.len() implies listed_cell(cells, #[trigger] q[i].0, q[i].1) by {
        if i < p.len() {
            assert(q[i] == p[i]);
        }
    }
    assert forall|i: int, j: int| #![trigger q[i], q[j]] 0 <= i && j == i + 1 && j < q.len() implies next_to(q[i].0, q[i].1, q[j].0, q[j].1) by {
        assert(q[i] == p[i]);
        if j < p.len() {
            assert(q[j] == p[j]);
        }
    }
    assert(corridor_walk(cells, q));
}

/// Corridor joining is symmetric.
proof fn lemma_cj_sym(cells: Seq<(usize, usize)>, u: (int, int), v: (int, int))
    requires
        corridor_joined(cells, u, v),
    ensures
        corridor_joined(cells, v, u),
{
    let p = choose|p: Seq<(int, int)>| #[trigger] corridor_walk(cells, p) && p.len() >= 1 && p[0] == u && p[p.len() - 1] == v;
    let n = p.len() as int;
    let q = Seq::new(p.len(), |i: int| p[n - 1 - i]);
    assert forall|i: int| 0 <= i < q.len() implies listed_cell(cells, #[trigger] q[i].0, q[i].1) by {
        assert(q[i] == p[n - 1 - i]);
    }
    assert forall|i: int, j: int| #![trigger q[i], q[j]] 0 <= i && j == i + 1 && j < q.len() implies next_to(q[i].0, q[i].1, q[j].0, q[j].1) by {
        let a = n - 2 - i;
        let b = n - 1 - i;
        assert(q[i] == p[b] && q[j] == p[a]);
        assert(next_to(p[a].0, p[a].1, p[b].0, p[b].1));
    }
    assert(corridor_walk(cells, q));
}

/// Corridor joining is transitive.
proof fn lemma_cj_trans(cells: Seq<(usize, usize)>, u: (int, int), v: (int, int), x: (int, int))
    requires
        corridor_joined(cells, u, v),
        corridor_joined(cells, v, x),
    ensures
        corridor_joined(cells, u, x),
{
    let p = choose|p: Seq<(int, int)>| #[trigger] corridor_walk(cells, p) && p.len() >= 1 && p[0] == u && p[p.len() - 1] == v;
    let q = choose|q: Seq<(int, int)>| #[trigger] corridor_walk(cells, q) && q.len() >= 1 && q[0] == v && q[q.len() - 1] == x;
    let r = p + q.drop_first();
    assert forall|i: int| 0 <= i < r.len() implies listed_cell(cells, #[trigger] r[i].0, r[i].1) by {
        if i < p.len() {
            assert(r[i] == p[i]);
        } else {
            assert(r[i] == q[i - p.len() + 1]);
        }
    }
    assert forall|i: int, j: int| #![trigger r[i], r[j]] 0 <= i && j == i + 1 && j < r.len() implies next_to(r[i].0, r[i].1, r[j].0, r[j].1) by {
        if j < p.len() {
            assert(r[i] == p[i] && r[j] == p[j]);
        } else if i < p.len() {
            assert(r[i] == q[0] && r[j] == q[1]);
        } else {
            let a = i - p.len() + 1;
            assert(r[i] == q[a] && r[j] == q[a + 1]);
        }
    }
    assert(corridor_walk(cells, r));
    if q.len() == 1 {
        assert(r[r.len() - 1] == p[p.len() - 1]);
    } else {
        assert(r[r.len() - 1] == q[q.len() - 1]);
    }
}

/// Every corridor neighbour of `(a, b)` carries the label of `(a, b)`.
pub open spec fn closed_at(comp: Seq<usize>, is_corr: Seq<bool>, w: int, a: int, b: int) -> bool {
    forall|c: int, e: int|
        #[trigger] next_to(a, b, c, e) && is_corr[cell_index(w, c, e)] ==> comp[cell_index(w, c, e)] == comp[cell_index(w, a, b)]
}

/// `is_corr` marks exactly the cells of `cells`, all inside the outer ring.
pub open spec fn corr_marks(is_corr: Seq<bool>, cells: Seq<(usize, usize)>, w: int, h: int) -> bool {
    &&& is_corr.len() == w * h
    &&& forall|k: int| 0 <= k < cells.len() ==> interior(w, h, #[trigger] cells[k].0 as int, cells[k].1 as int)
    &&& forall|a: int, b: int|
        0 <= a < w && 0 <= b < h ==> (#[trigger] is_corr[cell_index(w, a, b)] <==> listed_cell(cells, a, b))
}

/// Labels sit only on corridor cells, and every labelled cell is joined
/// through corridor cells to the start of its label.
pub open spec fn labels_sound(cells: Seq<(usize, usize)>, is_corr: Seq<bool>, comp: Seq<usize>, starts: Seq<(int, int)>, w: int, h: int) -> bool {
    &&& comp.len() == w * h
    &&& forall|a: int, b: int|
        0 <= a < w && 0 <= b < h && #[trigger] comp[cell_index(w, a, b)] != usize::MAX ==> is_corr[cell_index(w, a, b)]
            && comp[cell_index(w, a, b)] < starts.len() && corridor_joined(cells, starts[comp[cell_index(w, a, b)] as int], (a, b))
}

/// Every labelled cell is closed, except the cells of label `cid` waiting in
/// `q` and the cell `x` being looked at.
pub open spec fn labels_closed(is_corr: Seq<bool>, comp: Seq<usize>, w: int, h: int, q: Seq<(usize, usize)>, cid: int, x: (int, int)) -> bool {
    forall|a: int, b: int|
        0 <= a < w && 0 <= b < h && #[trigger] comp[cell_index(w, a, b)] != usize::MAX && !(comp[cell_index(w, a, b)] == cid
            && q.contains((a as usize, b as usize))) && (a, b) != x ==> closed_at(comp, is_corr, w, a, b)
}

/// Giving a fresh corridor cell the label `cid` and queueing it keeps the
/// other labelled cells closed.
proof fn lemma_label_fresh(
    cells: Seq<(usize, usize)>,
    is_corr: Seq<bool>,
    comp: Seq<usize>,
    w: int,
    h: int,
    q: Seq<(usize, usize)>,
    cid: int,
    x: (int, int),
    a: int,
    b: int,
)
    requires
        corr_marks(is_corr, cells, w, h),
        comp.len() == w * h,
        0 <= a < w,
        0 <= b < h,
        comp[cell_index(w, a, b)] == usize::MAX,
        0 <= cid < usize::MAX,
        forall|c: int, e: int| 0 <= c < w && 0 <= e < h && #[trigger] comp[cell_index(w, c, e)] != usize::MAX ==> is_corr[cell_index(w, c, e)],
        labels_closed(is_corr, comp, w, h, q, cid, x),
    ensures
        labels_closed(is_corr, comp.update(cell_index(w, a, b), cid as usize), w, h, q.push((a as usize, b as usize)), cid, x),
{
    let i0 = cell_index(w, a, b);
    let c2 = comp.update(i0, cid as usize);
    let q2 = q.push((a as usize, b as usize));
    lemma_index_in_bounds(a, b, w, h);
    assert(q2[q.len() as int] == (a as usize, b as usize));
    assert forall|c: int, e: int|
        0 <= c < w && 0 <= e < h && #[trigger] c2[cell_index(w, c, e)] != usize::MAX && !(c2[cell_index(w, c, e)] == cid
            && q2.contains((c as usize, e as usize))) && (c, e) != x implies closed_at(c2, is_corr, w, c, e) by {
        lemma_index_in_bounds(c, e, w, h);
        lemma_index_injective(c, e, a, b, w);
        if c == a && e == b {
            assert(q2.contains((a as usize, b as usize)));
        } else {
            assert(c2[cell_index(w, c, e)] == comp[cell_index(w, c, e)]);
            if q.contains((c as usize, e as usize)) {
                let j = choose|j: int| 0 <= j < q.len() && q[j] == (c as usize, e as usize);
                assert(q2[j] == q[j]);
            }
            assert(closed_at(comp, is_corr, w, c, e));
            assert(is_corr[cell_index(w, c, e)]);
            assert(listed_cell(cells, c, e));
            let k = choose|k: int| 0 <= k < cells.len() && #[trigger] cells[k].0 == c && cells[k].1 == e;
            assert(interior(w, h, cells[k].0 as int, cells[k].1 as int));
            assert forall|f: int, g: int|
                #[trigger] next_to(c, e, f, g) && is_corr[cell_index(w, f, g)] implies c2[cell_index(w, f, g)] == c2[cell_index(w, c, e)] by {
                lemma_index_in_bounds(f, g, w, h);
                lemma_index_injective(f, g, a, b, w);
                if f == a && g == b {
                    assert(comp[cell_index(w, f, g)] == comp[cell_index(w, c, e)]);
                }
            }
        }
    }
}

/// When every labelled cell is closed and every corridor cell labelled, a
/// corridor walk stays within one label.
proof fn lemma_walk_label(cells: Seq<(usize, usize)>, is_corr: Seq<bool>, comp: Seq<usize>, w: int, h: int, p: Seq<(int, int)>)
    requires
        corr_marks(is_corr, cells, w, h),
        comp.len() == w * h,
        forall|a: int, b: int| 0 <= a < w && 0 <= b < h && #[trigger] is_corr[cell_index(w, a, b)] ==> comp[cell_index(w, a, b)] != usize::MAX,
        labels_closed(is_corr, comp, w, h, Seq::empty(), -1, (-1, -1)),
        corridor_walk(cells, p),
        p.len() >= 1,
    ensures
        comp[cell_index(w, p[p.len() - 1].0, p[p.len() - 1].1)] == comp[cell_index(w, p[0].0, p[0].1)],
    decreases p.len(),
{
    if p.len() > 1 {
        let q = p.drop_last();
        assert forall|i: int| 0 <= i < q.len() implies listed_cell(cells, #[trigger] q[i].0, q[i].1) by {
            assert(q[i] == p[i]);
        }
        assert forall|i: int, j: int| #![trigger q[i], q[j]] 0 <= i && j == i + 1 && j < q.len() implies next_to(q[i].0, q[i].1, q[j].0, q[j].1) by {
            assert(q[i] == p[i] && q[j] == p[j]);
        }
        lemma_walk_label(cells, is_corr, comp, w, h, q);
        let u = p[p.len() - 2];
        let v = p[p.len() - 1];
        assert(next_to(u.0, u.1, v.0, v.1));
        assert(listed_cell(cells, u.0, u.1));
        assert(listed_cell(cells, v.0, v.1));
        let ku = choose|k: int| 0 <= k < cells.len() && #[trigger] cells[k].0 == u.0 && cells[k].1 == u.1;
        let kv = choose|k: int| 0 <= k < cells.len() && #[trigger] cells[k].0 == v.0 && cells[k].1 == v.1;
        assert(interior(w, h, cells[ku].0 as int, cells[ku].1 as int));
        assert(interior(w, h, cells[kv].0 as int, cells[kv].1 as int));
        assert(is_corr[cell_index(w, u.0, u.1)]);
        assert(is_corr[cell_index(w, v.0, v.1)]);
        assert(!Seq::<(usize, usize)>::empty().contains((u.0 as usize, u.1 as usize)));
        assert(closed_at(comp, is_corr, w, u.0, u.1));
        assert(q[q.len() - 1] == u);
    }
}

/// Corridor connected components: the component number of each corridor cell
/// (`usize::MAX` elsewhere) and the number of components.
#[verifier::spinoff_prover]
#[verifier::rlimit(60)]
fn label_corridors(corridor_cells: &Vec<(usize, usize)>, width: usize, height: usize) -> (res: (Vec<usize>, usize))
    requires
        3 <= width <= i32::MAX,
        3 <= height <= i32::MAX,
        width * height <= usize::MAX,
        forall|k: int| 0 <= k < corridor_cells@.len() ==> interior(width as int, height as int, #[trigger] corridor_cells@[k].0 as int, corridor_cells@[k].1 as int),
    ensures
        res.0@.len() == width * height,
        res.1 <= corridor_cells@.len(),
        forall|i: int| 0 <= i < res.0@.len() ==> #[trigger] res.0@[i] == usize::MAX || res.0@[i] < res.1,
        forall|k: int|
            0 <= k < corridor_cells@.len() ==> res.0@[cell_index(width as int, #[trigger] corridor_cells@[k].0 as int, corridor_cells@[k].1 as int)]
                != usize::MAX,
        forall|k1: int, k2: int|
            0 <= k1 < corridor_cells@.len() && 0 <= k2 < corridor_cells@.len() ==> ((res.0@[cell_index(
                width as int,
                #[trigger] corridor_cells@[k1].0 as int,
                corridor_cells@[k1].1 as int,
            )] == res.0@[cell_index(width as int, #[trigger] corridor_cells@[k2].0 as int, corridor_cells@[k2].1 as int)])
                <==> corridor_joined(
                corridor_cells@,
                (corridor_cells@[k1].0 as int, corridor_cells@[k1].1 as int),
                (corridor_cells@[k2].0 as int, corridor_cells@[k2].1 as int),
            )),
{
    let ghost w = width as int;
    let ghost h = height as int;
    let ghost cells = corridor_cells@;
    let n = width * height;
    let mut is_corr: Vec<bool> = vec![false; n];
    assert forall|a: int, b: int| 0 <= a < w && 0 <= b < h implies !#[trigger] is_corr@[cell_index(w, a, b)] by {
        lemma_index_in_bounds(a, b, w, h);
        assert(cloned(false, is_corr@[cell_index(w, a, b)]));
    }
    let mut k: usize = 0;
    while k < corridor_cells.len()
        invariant
            0 <= k <= corridor_cells@.len(),
            cells == corridor_cells@,
            n == width * height,
            is_corr@.len() == n,
            forall|j: int| 0 <= j < corridor_cells@.len() ==> interior(w, h, #[trigger] corridor_cells@[j].0 as int, corridor_cells@[j].1 as int),
            w == width,
            h == height,
            forall|a: int, b: int|
                0 <= a < w && 0 <= b < h ==> (#[trigger] is_corr@[cell_index(w, a, b)] <==> exists|j: int|
                    0 <= j < k && #[trigger] cells[j].0 == a && cells[j].1 == b),
        decreases corridor_cells@.len() - k,
    {
        let (cx, cy) = corridor_cells[k];
        assert(interior(w, h, corridor_cells@[k as int].0 as int, corridor_cells@[k as int].1 as int));
        proof {
            lemma_index_in_bounds(cx as int, cy as int, w, h);
        }
        let ghost ic0 = is_corr@;
        is_corr.set(cy * width + cx, true);
        proof {
            assert forall|a: int, b: int| 0 <= a < w && 0 <= b < h implies (#[trigger] is_corr@[cell_index(w, a, b)] <==> exists|j: int|
                0 <= j < k + 1 && #[trigger] cells[j].0 == a && cells[j].1 == b) by {
                lemma_index_in_bounds(a, b, w, h);
                lemma_index_injective(a, b, cx as int, cy as int, w);
                if a == cx && b == cy {
                    assert(cells[k as int].0 == a && cells[k as int].1 == b);
                } else {
                    assert(is_corr@[cell_index(w, a, b)] == ic0[cell_index(w, a, b)]);
                    if exists|j: int| 0 <= j < k + 1 && #[trigger] cells[j].0 == a && cells[j].1 == b {
                        let j = choose|j: int| 0 <= j < k + 1 && #[trigger] cells[j].0 == a && cells[j].1 == b;
                        assert(j < k);
                    }
                }
            }
        }
        k = k + 1;
    }
    proof {
        assert forall|a: int, b: int| 0 <= a < w && 0 <= b < h implies (#[trigger] is_corr@[cell_index(w, a, b)] <==> listed_cell(cells, a, b)) by {
            if listed_cell(cells, a, b) {
                let j = choose|j: int| 0 <= j < cells.len() && #[trigger] cells[j].0 == a && cells[j].1 == b;
                assert(cells[j].0 == a && cells[j].1 == b);
            }
        }
        assert(corr_marks(is_corr@, cells, w, h));
    }
    let mut comp: Vec<usize> = vec![usize::MAX; n];
    assert forall|i: int| 0 <= i < n implies comp@[i] == usize::MAX by {
        assert(cloned(usize::MAX, comp@[i]));
    }
    assert forall|a: int, b: int| 0 <= a < w && 0 <= b < h implies #[trigger] comp@[cell_index(w, a, b)] == usize::MAX by {
        lemma_index_in_bounds(a, b, w, h);
    }
    let ghost mut starts: Seq<(int, int)> = Seq::empty();
    let ghost mut assigned: Seq<bool> = Seq::new(n as nat, |i: int| false);
    proof {
        lemma_count_true_none(assigned);
    }
    let mut cnt: usize = 0;
    let mut ncomp: usize = 0;
    let mut k: usize = 0;
    while k < corridor_cells.len()
        invariant
            0 <= k <= corridor_cells@.len(),
            cells == corridor_cells@,
            ncomp <= k,
            forall|k2: int|
                0 <= k2 < k ==> comp@[cell_index(w, #[trigger] corridor_cells@[k2].0 as int, corridor_cells@[k2].1 as int)] != usize::MAX,
            n == width * height,
            w == width,
            h == height,
            3 <= width <= i32::MAX,
            3 <= height <= i32::MAX,
            is_corr@.len() == n,
            comp@.len() == n,
            assigned.len() == n,
            forall|i: int| 0 <= i < n ==> #[trigger] assigned[i] == (comp@[i] != usize::MAX),
            cnt == count_true(assigned),
            forall|i: int| 0 <= i < comp@.len() ==> #[trigger] comp@[i] == usize::MAX || comp@[i] < ncomp,
            forall|j: int| 0 <= j < corridor_cells@.len() ==> interior(w, h, #[trigger] corridor_cells@[j].0 as int, corridor_cells@[j].1 as int),
            corr_marks(is_corr@, cells, w, h),
            starts.len() == ncomp,
            labels_sound(cells, is_corr@, comp@, starts, w, h),
            labels_closed(is_corr@, comp@, w, h, Seq::empty(), -1, (-1, -1)),
        decreases corridor_cells@.len() - k,
    {
        let (cx, cy) = corridor_cells[k];
        assert(interior(w, h, corridor_cells@[k as int].0 as int, corridor_cells@[k as int].1 as int));
        proof {
            lemma_index_in_bounds(cx as int, cy as int, w, h);
        }
        let start = cy * width + cx;
        if comp[start] == usize::MAX {
            let cid = ncomp;
            ncomp = ncomp + 1;
            let mut q: VecDeque<(usize, usize)> = VecDeque::new();
            proof {
                lemma_count_true_set(assigned, start as int);
                assigned = assigned.update(start as int, true);
                lemma_count_true_bound(assigned);
                assert(listed_cell(cells, cx as int, cy as int)) by {
                    assert(cells[k as int].0 == cx && cells[k as int].1 == cy);
                }
                lemma_label_fresh(cells, is_corr@, comp@, w, h, Seq::empty(), cid as int, (-1, -1), cx as int, cy as int);
            }
            let ghost comp0 = comp@;
            comp.set(start, cid);
            proof {
                assert forall|k2: int| 0 <= k2 < k implies comp@[cell_index(w, #[trigger] corridor_cells@[k2].0 as int, corridor_cells@[k2].1 as int)] != usize::MAX by {
                    assert(interior(w, h, corridor_cells@[k2].0 as int, corridor_cells@[k2].1 as int));
                    lemma_index_in_bounds(corridor_cells@[k2].0 as int, corridor_cells@[k2].1 as int, w, h);
                }
                let s0 = starts;
                starts = starts.push((cx as int, cy as int));
                lemma_cj_refl(cells, (cx as int, cy as int));
                assert forall|a: int, b: int|
                    0 <= a < w && 0 <= b < h && #[trigger] comp@[cell_index(w, a, b)] != usize::MAX implies is_corr@[cell_index(w, a, b)]
                        && comp@[cell_index(w, a, b)] < starts.len() && corridor_joined(cells, starts[comp@[cell_index(w, a, b)] as int], (a, b)) by {
                    lemma_index_in_bounds(a, b, w, h);
                    lemma_index_injective(a, b, cx as int, cy as int, w);
                    if a == cx && b == cy {
                        assert(starts[cid as int] == (cx as int, cy as int));
                    } else {
                        assert(comp@[cell_index(w, a, b)] == comp0[cell_index(w, a, b)]);
                        assert(starts[comp0[cell_index(w, a, b)] as int] == s0[comp0[cell_index(w, a, b)] as int]);
                    }
                }
                assert(labels_sound(cells, is_corr@, comp@, starts, w, h));
            }
            cnt = cnt + 1;
            q.push_back((cx, cy));
            assert(q@ == Seq::<(usize, usize)>::empty().push((cx, cy)));
            while q.len() > 0
                invariant
                    n == width * height,
                    w == width,
                    h == height,
                    cells == corridor_cells@,
                    3 <= width <= i32::MAX,
                    3 <= height <= i32::MAX,
                    cid < ncomp,
                    cid + 1 == ncomp,
                    comp@[start as int] != usize::MAX,
                    start == cell_index(w, cx as int, cy as int),
                    k < corridor_cells@.len(),
                    start < n,
                    forall|j: int| 0 <= j < corridor_cells@.len() ==> interior(w, h, #[trigger] corridor_cells@[j].0 as int, corridor_cells@[j].1 as int),
                    forall|k2: int|
                        0 <= k2 < k ==> comp@[cell_index(w, #[trigger] corridor_cells@[k2].0 as int, corridor_cells@[k2].1 as int)] != usize::MAX,
                    comp@.len() == n,
                    is_corr@.len() == n,
                    assigned.len() == n,
                    forall|i: int| 0 <= i < n ==> #[trigger] assigned[i] == (comp@[i] != usize::MAX),
                    cnt == count_true(assigned),
                    cnt <= n,
                    forall|i: int| 0 <= i < comp@.len() ==> #[trigger] comp@[i] == usize::MAX || comp@[i] < ncomp,
                    forall|j: int| 0 <= j < q@.len() ==> #[trigger] q@[j].0 < width && q@[j].1 < height,
                    forall|j: int| 0 <= j < q@.len() ==> comp@[cell_index(w, #[trigger] q@[j].0 as int, q@[j].1 as int)] == cid,
                    corr_marks(is_corr@, cells, w, h),
                    starts.len() == ncomp,
                    labels_sound(cells, is_corr@, comp@, starts, w, h),
                    labels_closed(is_corr@, comp@, w, h, q@, cid as int, (-1, -1)),
                decreases 2 * (n - cnt) + q@.len(),
            {
                let ghost q0 = q@;
                let (x, y) = q.pop_front().unwrap();
                assert(q0[0] == (x, y));
                assert(q@ == q0.subrange(1, q0.len() as int));
                assert forall|j: int| 0 <= j < q@.len() implies #[trigger] q@[j].0 < width && q@[j].1 < height by {
                    assert(q@[j] == q0[j + 1]);
                }
                assert forall|j: int| 0 <= j < q@.len() implies comp@[cell_index(w, #[trigger] q@[j].0 as int, q@[j].1 as int)] == cid by {
                    assert(q@[j] == q0[j + 1]);
                }
                assert(comp@[cell_index(w, x as int, y as int)] == cid);
                proof {
                    assert forall|a: int, b: int|
                        0 <= a < w && 0 <= b < h && #[trigger] comp@[cell_index(w, a, b)] != usize::MAX && !(comp@[cell_index(w, a, b)] == cid
                            && q@.contains((a as usize, b as usize))) && (a, b) != (x as int, y as int) implies closed_at(comp@, is_corr@, w, a, b) by {
                        if comp@[cell_index(w, a, b)] == cid && q0.contains((a as usize, b as usize)) {
                            let j = choose|j: int| 0 <= j < q0.len() && q0[j] == (a as usize, b as usize);
                            assert(j != 0);
                            assert(q@[j - 1] == q0[j]);
                        }
                    }
                    assert(is_corr@[cell_index(w, x as int, y as int)]);
                    assert(listed_cell(cells, x as int, y as int));
                    let kx = choose|kk: int| 0 <= kk < cells.len() && #[trigger] cells[kk].0 == x && cells[kk].1 == y;
                    assert(interior(w, h, cells[kx].0 as int, cells[kx].1 as int));
                }
                let ghost m0 = 2 * (n - cnt) + q@.len();
                let mut d: usize = 0;
                while d < 4
                    invariant
                        0 <= d <= 4,
                        1 <= x < width - 1,
                        1 <= y < height - 1,
                        n == width * height,
                        w == width,
                        h == height,
                        cells == corridor_cells@,
                        3 <= width <= i32::MAX,
                        3 <= height <= i32::MAX,
                        cid < ncomp,
                        cid + 1 == ncomp,
                        comp@[start as int] != usize::MAX,
                        start == cell_index(w, cx as int, cy as int),
                        k < corridor_cells@.len(),
                        start < n,
                        forall|j: int| 0 <= j < corridor_cells@.len() ==> interior(w, h, #[trigger] corridor_cells@[j].0 as int, corridor_cells@[j].1 as int),
                        forall|k2: int|
                            0 <= k2 < k ==> comp@[cell_index(w, #[trigger] corridor_cells@[k2].0 as int, corridor_cells@[k2].1 as int)] != usize::MAX,
                        comp@.len() == n,
                        is_corr@.len() == n,
                        assigned.len() == n,
                        forall|i: int| 0 <= i < n ==> #[trigger] assigned[i] == (comp@[i] != usize::MAX),
                        cnt == count_true(assigned),
                        cnt <= n,
                        2 * (n - cnt) + q@.len() <= m0,
                        forall|i: int| 0 <= i < comp@.len() ==> #[trigger] comp@[i] == usize::MAX || comp@[i] < ncomp,
                        forall|j: int| 0 <= j < q@.len() ==> #[trigger] q@[j].0 < width && q@[j].1 < height,
                        forall|j: int| 0 <= j < q@.len() ==> comp@[cell_index(w, #[trigger] q@[j].0 as int, q@[j].1 as int)] == cid,
                        corr_marks(is_corr@, cells, w, h),
                        starts.len() == ncomp,
                        labels_sound(cells, is_corr@, comp@, starts, w, h),
                        labels_closed(is_corr@, comp@, w, h, q@, cid as int, (x as int, y as int)),
                        comp@[cell_index(w, x as int, y as int)] == cid,
                        is_corr@[cell_index(w, x as int, y as int)],
                        forall|dd: int|
                            0 <= dd < d && is_corr@[cell_index(w, step_x(x as int, dd), step_y(y as int, dd))] ==> #[trigger] comp@[cell_index(
                                w,
                                step_x(x as int, dd),
                                step_y(y as int, dd),
                            )] == cid,
                    decreases 4 - d,
                {
                    let (dx, dy) = dir4(d);
                    let nx = x as i32 + dx;
                    let ny = y as i32 + dy;
                    let ghost gx = step_x(x as int, d as int);
                    let ghost gy = step_y(y as int, d as int);
                    assert(nx == gx && ny == gy);
                    assert(next_to(x as int, y as int, gx, gy));
                    if !(nx < 0 || ny < 0 || nx >= width as i32 || ny >= height as i32) {
                        proof {
                            lemma_index_in_bounds(nx as int, ny as int, w, h);
                        }
                        let idx = ny as usize * width + nx as usize;
                        if is_corr[idx] && comp[idx] == usize::MAX {
                            proof {
                                lemma_count_true_set(assigned, idx as int);
                                assigned = assigned.update(idx as int, true);
                                lemma_count_true_bound(assigned);
                                lemma_label_fresh(cells, is_corr@, comp@, w, h, q@, cid as int, (x as int, y as int), gx, gy);
                                assert(labels_sound(cells, is_corr@, comp@, starts, w, h));
                                assert(corridor_joined(cells, starts[cid as int], (x as int, y as int)));
                                assert(listed_cell(cells, gx, gy));
                                lemma_cj_extend(cells, starts[cid as int], (x as int, y as int), (gx, gy));
                            }
                            let ghost comp0 = comp@;
                            comp.set(idx, cid);
                            cnt = cnt + 1;
                            let ghost qq = q@;
                            q.push_back((nx as usize, ny as usize));
                            proof {
                                assert forall|k2: int| 0 <= k2 < k implies comp@[cell_index(w, #[trigger] corridor_cells@[k2].0 as int, corridor_cells@[k2].1 as int)] != usize::MAX by {
                                    assert(interior(w, h, corridor_cells@[k2].0 as int, corridor_cells@[k2].1 as int));
                                    lemma_index_in_bounds(corridor_cells@[k2].0 as int, corridor_cells@[k2].1 as int, w, h);
                                }
                                assert forall|j: int| 0 <= j < q@.len() implies #[trigger] q@[j].0 < width && q@[j].1 < height by {
                                    if j < qq.len() {
                                        assert(q@[j] == qq[j]);
                                    }
                                }
                                assert forall|j: int| 0 <= j < q@.len() implies comp@[cell_index(w, #[trigger] q@[j].0 as int, q@[j].1 as int)] == cid by {
                                    if j < qq.len() {
                                        assert(q@[j] == qq[j]);
                                        lemma_index_in_bounds(qq[j].0 as int, qq[j].1 as int, w, h);
                                        lemma_index_injective(qq[j].0 as int, qq[j].1 as int, gx, gy, w);
                                    }
                                }
                                assert forall|a: int, b: int|
                                    0 <= a < w && 0 <= b < h && #[trigger] comp@[cell_index(w, a, b)] != usize::MAX implies is_corr@[cell_index(w, a, b)]
                                        && comp@[cell_index(w, a, b)] < starts.len() && corridor_joined(cells, starts[comp@[cell_index(w, a, b)] as int], (a, b)) by {
                                    lemma_index_in_bounds(a, b, w, h);
                                    lemma_index_injective(a, b, gx, gy, w);
                                    if !(a == gx && b == gy) {
                                        assert(comp@[cell_index(w, a, b)] == comp0[cell_index(w, a, b)]);
                                    }
                                }
                                assert forall|dd: int|
                                    0 <= dd < d + 1 && is_corr@[cell_index(w, step_x(x as int, dd), step_y(y as int, dd))] implies #[trigger] comp@[cell_index(
                                        w,
                                        step_x(x as int, dd),
                                        step_y(y as int, dd),
                                    )] == cid by {
                                    lemma_index_in_bounds(step_x(x as int, dd), step_y(y as int, dd), w, h);
                                    lemma_index_injective(step_x(x as int, dd), step_y(y as int, dd), gx, gy, w);
                                }
                                assert(comp@[cell_index(w, x as int, y as int)] == cid) by {
                                    lemma_index_in_bounds(x as int, y as int, w, h);
                                    lemma_index_injective(x as int, y as int, gx, gy, w);
                                }
                            }
                        } else {
                            proof {
                                if is_corr@[idx as int] && comp@[idx as int] != cid {
                                    assert(!(comp@[cell_index(w, gx, gy)] == cid));
                                    assert((gx, gy) != (x as int, y as int));
                                    assert(closed_at(comp@, is_corr@, w, gx, gy));
                                    assert(next_to(gx, gy, x as int, y as int));
                                    assert(false);
                                }
                            }
                        }
                    }
                    d = d + 1;
                }
                proof {
                    assert forall|c: int, e: int|
                        #[trigger] next_to(x as int, y as int, c, e) && is_corr@[cell_index(w, c, e)] implies comp@[cell_index(w, c, e)]
                            == comp@[cell_index(w, x as int, y as int)] by {
                        if c == x + 1 && e == y {
                            assert(c == step_x(x as int, 0) && e == step_y(y as int, 0));
                        } else if c == x - 1 && e == y {
                            assert(c == step_x(x as int, 1) && e == step_y(y as int, 1));
                        } else if c == x && e == y + 1 {
                            assert(c == step_x(x as int, 2) && e == step_y(y as int, 2));
                        } else {
                            assert(c == step_x(x as int, 3) && e == step_y(y as int, 3));
                        }
                    }
                    assert(labels_closed(is_corr@, comp@, w, h, q@, cid as int, (-1, -1)));
                }
            }
            proof {
                assert(labels_closed(is_corr@, comp@, w, h, Seq::empty(), -1, (-1, -1)));
            }
        }
        k = k + 1;
    }
    proof {
        assert forall|a: int, b: int| 0 <= a < w && 0 <= b < h && #[trigger] is_corr@[cell_index(w, a, b)] implies comp@[cell_index(w, a, b)] != usize::MAX by {
            let j = choose|j: int| 0 <= j < cells.len() && #[trigger] cells[j].0 == a && cells[j].1 == b;
            assert(comp@[cell_index(w, corridor_cells@[j].0 as int, corridor_cells@[j].1 as int)] != usize::MAX);
        }
        assert forall|k1: int, k2: int|
            0 <= k1 < corridor_cells@.len() && 0 <= k2 < corridor_cells@.len() implies ((comp@[cell_index(
                w,
                #[trigger] corridor_cells@[k1].0 as int,
                corridor_cells@[k1].1 as int,
            )] == comp@[cell_index(w, #[trigger] corridor_cells@[k2].0 as int, corridor_cells@[k2].1 as int)])
                <==> corridor_joined(
                corridor_cells@,
                (corridor_cells@[k1].0 as int, corridor_cells@[k1].1 as int),
                (corridor_cells@[k2].0 as int, corridor_cells@[k2].1 as int),
            )) by {
            let c1 = (cells[k1].0 as int, cells[k1].1 as int);
            let c2 = (cells[k2].0 as int, cells[k2].1 as int);
            assert(interior(w, h, c1.0, c1.1));
            assert(interior(w, h, c2.0, c2.1));
            assert(comp@[cell_index(w, c1.0, c1.1)] != usize::MAX);
            assert(comp@[cell_index(w, c2.0, c2.1)] != usize::MAX);
            if comp@[cell_index(w, c1.0, c1.1)] == comp@[cell_index(w, c2.0, c2.1)] {
                let st = starts[comp@[cell_index(w, c1.0, c1.1)] as int];
                lemma_cj_sym(cells, st, c1);
                lemma_cj_trans(cells, c1, st, c2);
            }
            if corridor_joined(cells, c1, c2) {
                let p = choose|p: Seq<(int, int)>| #[trigger] corridor_walk(cells, p) && p.len() >= 1 && p[0] == c1 && p[p.len() - 1] == c2;
                lemma_walk_label(cells, is_corr@, comp@, w, h, p);
            }
        }
    }
    (comp, ncomp)
}

/// An edge `(room, neighbour, wall_x, wall_y)` between graph nodes below
/// `node_count`, through an in-bounds wall cell on the ring of room `e.0`.
pub open spec fn edge_ok(e: (usize, usize, usize, usize), node_count: int, w: int, h: int, rooms: Seq<Room>) -> bool {
    &&& e.0 < node_count && e.1 < node_count && e.2 < w && e.3 < h
    &&& e.0 < rooms.len()
    &&& e.0 != e.1
    &&& on_room_ring(rooms[e.0 as int], e.2 as int, e.3 as int)
}

/// Every edge of `edges` goes through a cell that is a wall in `m`.
pub open spec fn edge_walls(m: &NobiscuitMap, edges: Seq<(usize, usize, usize, usize)>) -> bool {
    forall|k: int| 0 <= k < edges.len() ==> m.cell(#[trigger] edges[k].2 as int, edges[k].3 as int) == TILE_WALL
}

/// `(a, b)` lies on the wall ring of one of `rooms`.
pub open spec fn on_some_ring(rooms: Seq<Room>, a: int, b: int) -> bool {
    exists|i: int| 0 <= i < rooms.len() && #[trigger] on_room_ring(rooms[i], a, b)
}

/// The graph node of the cell at flat index `idx`: its room, else its
/// corridor component (numbered after the `nrooms` rooms).
pub open spec fn node_at(roomid: Seq<usize>, comp: Seq<usize>, nrooms: int, idx: int) -> Option<usize> {
    if roomid[idx] != usize::MAX {
        Some(roomid[idx])
    } else if comp[idx] != usize::MAX {
        Some((nrooms + comp[idx]) as usize)
    } else {
        None
    }
}

/// The edge from room `i` through the wall `(wx, wy)` to the node at
/// `(tx, ty)`: there is one when the wall is a wall and the cell beyond holds
/// another node.
pub open spec fn pair_edge(
    map: &NobiscuitMap,
    roomid: Seq<usize>,
    comp: Seq<usize>,
    nrooms: int,
    i: int,
    wx: int,
    wy: int,
    tx: int,
    ty: int,
) -> Option<(usize, usize, usize, usize)> {
    if map.cell(wx, wy) == TILE_WALL {
        match node_at(roomid, comp, nrooms, cell_index(map.spec_width() as int, tx, ty)) {
            Some(nb) => if nb != i {
                Some((i as usize, nb, wx as usize, wy as usize))
            } else {
                None
            },
            None => None,
        }
    } else {
        None
    }
}

/// Record an edge from room `i` through the wall `(wx, wy)` to whatever graph
/// node holds `(tx, ty)`, when the wall is still a wall and the node differs.
fn consider_pair(
    map: &NobiscuitMap,
    roomid: &Vec<usize>,
    comp: &Vec<usize>,
    nrooms: usize,
    ncomp: usize,
    i: usize,
    wx: usize,
    wy: usize,
    tx: usize,
    ty: usize,
    width: usize,
    height: usize,
    edges: &mut Vec<(usize, usize, usize, usize)>,
    Ghost(rooms): Ghost<Seq<Room>>,
)
    requires
        rooms.len() == nrooms,
        on_room_ring(rooms[i as int], wx as int, wy as int),
        map.wf(),
        map.spec_width() == width,
        map.spec_height() == height,
        width <= i32::MAX,
        height <= i32::MAX,
        wx < width,
        wy < height,
        tx < width,
        ty < height,
        i < nrooms,
        nrooms + ncomp <= usize::MAX,
        roomid@.len() == width * height,
        comp@.len() == width * height,
        forall|j: int| 0 <= j < roomid@.len() ==> #[trigger] roomid@[j] == usize::MAX || roomid@[j] < nrooms,
        forall|j: int| 0 <= j < comp@.len() ==> #[trigger] comp@[j] == usize::MAX || comp@[j] < ncomp,
        forall|k: int| 0 <= k < old(edges)@.len() ==> edge_ok(#[trigger] old(edges)@[k], nrooms + ncomp, width as int, height as int, rooms),
        edge_walls(map, old(edges)@),
    ensures
        forall|k: int| 0 <= k < final(edges)@.len() ==> edge_ok(#[trigger] final(edges)@[k], nrooms + ncomp, width as int, height as int, rooms),
        edge_walls(map, final(edges)@),
        final(edges)@ == match pair_edge(map, roomid@, comp@, nrooms as int, i as int, wx as int, wy as int, tx as int, ty as int) {
            Some(e) => old(edges)@.push(e),
            None => old(edges)@,
        },
{
    if map.get(wx as i32, wy as i32) != Some(TILE_WALL) {
        return;
    }
    proof {
        map.lemma_wf_size();
        lemma_index_in_bounds(tx as int, ty as int, width as int, height as int);
    }
    let idx = ty * width + tx;
    assert(roomid@[idx as int] == usize::MAX || roomid@[idx as int] < nrooms);
    assert(comp@[idx as int] == usize::MAX || comp@[idx as int] < ncomp);
    if let Some(nb) = node_of(roomid, comp, nrooms, idx) {
        if nb != i {
            let ghost e0 = edges@;
            edges.push((i, nb, wx, wy));
            assert forall|k: int| 0 <= k < edges@.len() implies edge_ok(#[trigger] edges@[k], nrooms + ncomp, width as int, height as int, rooms) by {
                if k < e0.len() {
                    assert(edges@[k] == e0[k]);
                }
            }
            assert forall|k: int| 0 <= k < edges@.len() implies map.cell(#[trigger] edges@[k].2 as int, edges@[k].3 as int) == TILE_WALL by {
                if k < e0.len() {
                    assert(edges@[k] == e0[k]);
                }
            }
        }
    }
}

/// The edge as a sequence of at most one element.
pub open spec fn edge_seq(o: Option<(usize, usize, usize, usize)>) -> Seq<(usize, usize, usize, usize)> {
    match o {
        Some(e) => seq![e],
        None => seq![],
    }
}

/// Wall and far cell number `t` along side `s` of room `r` (top, bottom,
/// left, right).
pub open spec fn side_geom(r: Room, s: int, t: int) -> (int, int, int, int) {
    if s == 0 {
        (r.x + t, r.y - 1, r.x + t, r.y - 2)
    } else if s == 1 {
        (r.x + t, r.y + r.h, r.x + t, r.y + r.h + 1)
    } else if s == 2 {
        (r.x - 1, r.y + t, r.x - 2, r.y + t)
    } else {
        (r.x + r.w, r.y + t, r.x + r.w + 1, r.y + t)
    }
}

/// How many walls of side `s` of room `r` are looked at: all of them when
/// the cell beyond the side lies inside the map, else none.
pub open spec fn side_len(r: Room, s: int, w: int, h: int) -> int {
    if s == 0 {
        if r.y >= 2 { r.w as int } else { 0 }
    } else if s == 1 {
        if r.y + r.h + 1 < h { r.w as int } else { 0 }
    } else if s == 2 {
        if r.x >= 2 { r.h as int } else { 0 }
    } else {
        if r.x + r.w + 1 < w { r.h as int } else { 0 }
    }
}

/// Edges through the first `n` walls of side `s` of room `i`.
pub open spec fn side_edges(
    map: &NobiscuitMap,
    roomid: Seq<usize>,
    comp: Seq<usize>,
    rooms: Seq<Room>,
    i: int,
    s: int,
    n: int,
) -> Seq<(usize, usize, usize, usize)>
    decreases n,
{
    if n <= 0 {
        seq![]
    } else {
        let g = side_geom(rooms[i], s, n - 1);
        side_edges(map, roomid, comp, rooms, i, s, n - 1) + edge_seq(
            pair_edge(map, roomid, comp, rooms.len() as int, i, g.0, g.1, g.2, g.3),
        )
    }
}

/// Edges through the first `s` sides of room `i`.
pub open spec fn room_edges(map: &NobiscuitMap, roomid: Seq<usize>, comp: Seq<usize>, rooms: Seq<Room>, i: int, s: int) -> Seq<(usize, usize, usize, usize)>
    decreases s,
{
    if s <= 0 {
        seq![]
    } else {
        room_edges(map, roomid, comp, rooms, i, s - 1) + side_edges(
            map,
            roomid,
            comp,
            rooms,
            i,
            s - 1,
            side_len(rooms[i], s - 1, map.spec_width() as int, map.spec_height() as int),
        )
    }
}

/// Edges of the first `n` rooms, each room's four sides in turn.
pub open spec fn all_edges(map: &NobiscuitMap, roomid: Seq<usize>, comp: Seq<usize>, rooms: Seq<Room>, n: int) -> Seq<(usize, usize, usize, usize)>
    decreases n,
{
    if n <= 0 {
        seq![]
    } else {
        all_edges(map, roomid, comp, rooms, n - 1) + room_edges(map, roomid, comp, rooms, n - 1, 4)
    }
}

/// One edge among the first `n` walls of a side makes the side's edge list
/// non-empty.
proof fn lemma_side_edges_grow(map: &NobiscuitMap, roomid: Seq<usize>, comp: Seq<usize>, rooms: Seq<Room>, i: int, s: int, n: int, t: int)
    requires
        0 <= t < n,
        ({
            let g = side_geom(rooms[i], s, t);
            pair_edge(map, roomid, comp, rooms.len() as int, i, g.0, g.1, g.2, g.3) is Some
        }),
    ensures
        side_edges(map, roomid, comp, rooms, i, s, n).len() > 0,
    decreases n,
{
    if t < n - 1 {
        lemma_side_edges_grow(map, roomid, comp, rooms, i, s, n - 1, t);
    }
}

/// A non-empty side makes the edge list of its room non-empty.
proof fn lemma_room_edges_grow(map: &NobiscuitMap, roomid: Seq<usize>, comp: Seq<usize>, rooms: Seq<Room>, i: int, s: int, upto: int)
    requires
        0 <= s < upto,
        side_edges(map, roomid, comp, rooms, i, s, side_len(rooms[i], s, map.spec_width() as int, map.spec_height() as int)).len() > 0,
    ensures
        room_edges(map, roomid, comp, rooms, i, upto).len() > 0,
    decreases upto,
{
    if s < upto - 1 {
        lemma_room_edges_grow(map, roomid, comp, rooms, i, s, upto - 1);
    }
}

/// A room with an edge makes the edge list of every room prefix holding it
/// non-empty.
proof fn lemma_all_edges_grow(map: &NobiscuitMap, roomid: Seq<usize>, comp: Seq<usize>, rooms: Seq<Room>, i: int, n: int)
    requires
        0 <= i < n,
        room_edges(map, roomid, comp, rooms, i, 4).len() > 0,
    ensures
        all_edges(map, roomid, comp, rooms, n).len() > 0,
    decreases n,
{
    if i < n - 1 {
        lemma_all_edges_grow(map, roomid, comp, rooms, i, n - 1);
    }
}

/// The wall cell of edge `e` lies on a `w` x `h` map.
pub open spec fn edge_in_map(e: (usize, usize, usize, usize), w: int, h: int) -> bool {
    e.2 < w && e.3 < h
}

/// Every edge through the first `n` walls of a side of a room inside the map
/// has its wall on the map.
proof fn lemma_side_edges_in_map(map: &NobiscuitMap, roomid: Seq<usize>, comp: Seq<usize>, rooms: Seq<Room>, i: int, s: int, n: int)
    requires
        0 <= i < rooms.len(),
        0 <= s < 4,
        room_inside(rooms[i], map.spec_width() as int, map.spec_height() as int),
        n <= side_len(rooms[i], s, map.spec_width() as int, map.spec_height() as int),
    ensures
        forall|k: int|
            0 <= k < side_edges(map, roomid, comp, rooms, i, s, n).len() ==> edge_in_map(
                #[trigger] side_edges(map, roomid, comp, rooms, i, s, n)[k],
                map.spec_width() as int,
                map.spec_height() as int,
            ),
    decreases n,
{
    if n > 0 {
        lemma_side_edges_in_map(map, roomid, comp, rooms, i, s, n - 1);
        let g = side_geom(rooms[i], s, n - 1);
        let prev = side_edges(map, roomid, comp, rooms, i, s, n - 1);
        let last = edge_seq(pair_edge(map, roomid, comp, rooms.len() as int, i, g.0, g.1, g.2, g.3));
        assert(0 <= g.0 < map.spec_width() && 0 <= g.1 < map.spec_height());
        assert forall|k: int| 0 <= k < (prev + last).len() implies edge_in_map(
            #[trigger] (prev + last)[k],
            map.spec_width() as int,
            map.spec_height() as int,
        ) by {
            if k >= prev.len() {
                assert((prev + last)[k] == last[k - prev.len()]);
            } else {
                assert((prev + last)[k] == prev[k]);
            }
        }
    }
}

/// Every edge of the first `s` sides of a room inside the map has its wall on
/// the map.
proof fn lemma_room_edges_in_map(map: &NobiscuitMap, roomid: Seq<usize>, comp: Seq<usize>, rooms: Seq<Room>, i: int, s: int)
    requires
        0 <= i < rooms.len(),
        s <= 4,
        room_inside(rooms[i], map.spec_width() as int, map.spec_height() as int),
    ensures
        forall|k: int|
            0 <= k < room_edges(map, roomid, comp, rooms, i, s).len() ==> edge_in_map(
                #[trigger] room_edges(map, roomid, comp, rooms, i, s)[k],
                map.spec_width() as int,
                map.spec_height() as int,
            ),
    decreases s,
{
    if s > 0 {
        lemma_room_edges_in_map(map, roomid, comp, rooms, i, s - 1);
        lemma_side_edges_in_map(map, roomid, comp, rooms, i, s - 1, side_len(rooms[i], s - 1, map.spec_width() as int, map.spec_height() as int));
        let prev = room_edges(map, roomid, comp, rooms, i, s - 1);
        let last = side_edges(map, roomid, comp, rooms, i, s - 1, side_len(rooms[i], s - 1, map.spec_width() as int, map.spec_height() as int));
        assert forall|k: int| 0 <= k < (prev + last).len() implies edge_in_map(
            #[trigger] (prev + last)[k],
            map.spec_width() as int,
            map.spec_height() as int,
        ) by {
            if k >= prev.len() {
                assert((prev + last)[k] == last[k - prev.len()]);
            } else {
                assert((prev + last)[k] == prev[k]);
            }
        }
    }
}

/// Every edge of the first `n` rooms, all inside the map, has its wall on the
/// map.
pub proof fn lemma_all_edges_in_map(map: &NobiscuitMap, roomid: Seq<usize>, comp: Seq<usize>, rooms: Seq<Room>, n: int)
    requires
        n <= rooms.len(),
        forall|i: int| 0 <= i < rooms.len() ==> room_inside(#[trigger] rooms[i], map.spec_width() as int, map.spec_height() as int),
    ensures
        forall|k: int|
            0 <= k < all_edges(map, roomid, comp, rooms, n).len() ==> edge_in_map(
                #[trigger] all_edges(map, roomid, comp, rooms, n)[k],
                map.spec_width() as int,
                map.spec_height() as int,
            ),
    decreases n,
{
    if n > 0 {
        lemma_all_edges_in_map(map, roomid, comp, rooms, n - 1);
        lemma_room_edges_in_map(map, roomid, comp, rooms, n - 1, 4);
        let prev = all_edges(map, roomid, comp, rooms, n - 1);
        let last = room_edges(map, roomid, comp, rooms, n - 1, 4);
        assert forall|k: int| 0 <= k < (prev + last).len() implies edge_in_map(
            #[trigger] (prev + last)[k],
            map.spec_width() as int,
            map.spec_height() as int,
        ) by {
            if k >= prev.len() {
                assert((prev + last)[k] == last[k - prev.len()]);
            } else {
                assert((prev + last)[k] == prev[k]);
            }
        }
    }
}

/// Room `i` faces another room or a corridor across wall `t` of its side `s`
/// (top, bottom, left, right): that wall is a wall, and the cell beyond it is
/// an empty cell inside a room or one of the corridor cells.
pub open spec fn faces_across(m: &NobiscuitMap, rooms: Seq<Room>, cells: Seq<(usize, usize)>, i: int, s: int, t: int) -> bool {
    let g = side_geom(rooms[i], s, t);
    &&& 0 <= i < rooms.len()
    &&& 0 <= s < 4
    &&& 0 <= t < side_len(rooms[i], s, m.spec_width() as int, m.spec_height() as int)
    &&& m.cell(g.0, g.1) == TILE_WALL
    &&& ((m.cell(g.2, g.3) == TILE_EMPTY && exists|j: int| 0 <= j < rooms.len() && #[trigger] in_room(rooms[j], g.2, g.3))
        || exists|k: int| 0 <= k < cells.len() && #[trigger] cells[k].0 == g.2 && cells[k].1 == g.3)
}

/// Some room faces another room or a corridor across one of its walls.
pub open spec fn some_room_faces(m: &NobiscuitMap, rooms: Seq<Room>, cells: Seq<(usize, usize)>) -> bool {
    exists|i: int, s: int, t: int| #[trigger] faces_across(m, rooms, cells, i, s, t)
}

/// Some wall of `m0` is a fusuma door in `m`.
pub open spec fn door_opened(m0: &NobiscuitMap, m: &NobiscuitMap) -> bool {
    exists|a: int, b: int| m0.in_bounds(a, b) && m0.cell(a, b) == TILE_WALL && #[trigger] m.cell(a, b) == TILE_DOOR_FUSUMA
}

/// A wall across which room `i` faces another node yields an edge.
proof fn lemma_facing_edge(
    map: &NobiscuitMap,
    rooms: Seq<Room>,
    cells: Seq<(usize, usize)>,
    roomid: Seq<usize>,
    comp: Seq<usize>,
    ncomp: int,
    i: int,
    s: int,
    t: int,
)
    requires
        map.wf(),
        3 <= map.spec_width(),
        3 <= map.spec_height(),
        forall|j: int| 0 <= j < rooms.len() ==> room_inside(#[trigger] rooms[j], map.spec_width() as int, map.spec_height() as int),
        roomid.len() == map.spec_width() * map.spec_height(),
        comp.len() == map.spec_width() * map.spec_height(),
        rooms.len() + ncomp <= usize::MAX,
        forall|j: int| 0 <= j < roomid.len() ==> #[trigger] roomid[j] == usize::MAX || roomid[j] < rooms.len(),
        forall|j: int| 0 <= j < comp.len() ==> #[trigger] comp[j] == usize::MAX || comp[j] < ncomp,
        forall|a: int, b: int|
            map.in_bounds(a, b) && #[trigger] roomid[cell_index(map.spec_width() as int, a, b)] != usize::MAX ==> in_room(
                rooms[roomid[cell_index(map.spec_width() as int, a, b)] as int],
                a,
                b,
            ),
        forall|j: int, a: int, b: int|
            0 <= j < rooms.len() && #[trigger] in_room(rooms[j], a, b) && map.in_bounds(a, b) && map.cell(a, b)
                == TILE_EMPTY ==> roomid[cell_index(map.spec_width() as int, a, b)] != usize::MAX,
        forall|k: int|
            0 <= k < cells.len() ==> comp[cell_index(map.spec_width() as int, #[trigger] cells[k].0 as int, cells[k].1 as int)] != usize::MAX,
        faces_across(map, rooms, cells, i, s, t),
    ensures
        ({
            let g = side_geom(rooms[i], s, t);
            pair_edge(map, roomid, comp, rooms.len() as int, i, g.0, g.1, g.2, g.3) is Some
        }),
{
    let w = map.spec_width() as int;
    let h = map.spec_height() as int;
    let g = side_geom(rooms[i], s, t);
    assert(room_inside(rooms[i], w, h));
    assert(map.in_bounds(g.2, g.3));
    assert(!in_room(rooms[i], g.2, g.3));
    lemma_index_in_bounds(g.2, g.3, w, h);
    let idx = cell_index(w, g.2, g.3);
    if map.cell(g.2, g.3) == TILE_EMPTY && exists|j: int| 0 <= j < rooms.len() && #[trigger] in_room(rooms[j], g.2, g.3) {
        let j = choose|j: int| 0 <= j < rooms.len() && #[trigger] in_room(rooms[j], g.2, g.3);
        assert(roomid[idx] != usize::MAX);
        assert(in_room(rooms[roomid[idx] as int], g.2, g.3));
    } else {
        let k = choose|k: int| 0 <= k < cells.len() && #[trigger] cells[k].0 == g.2 && cells[k].1 == g.3;
        assert(comp[cell_index(w, cells[k].0 as int, cells[k].1 as int)] != usize::MAX);
        assert(comp[idx] != usize::MAX);
        if roomid[idx] != usize::MAX {
            assert(in_room(rooms[roomid[idx] as int], g.2, g.3));
        }
    }
}

/// Adjacency edges between rooms and the rooms / corridor components facing
/// them across a single wall, in room order (top, bottom, left, right sides).
fn collect_edges(
    map: &NobiscuitMap,
    rooms: &Vec<Room>,
    roomid: &Vec<usize>,
    comp: &Vec<usize>,
    ncomp: usize,
    width: usize,
    height: usize,
) -> (edges: Vec<(usize, usize, usize, usize)>)
    requires
        map.wf(),
        map.spec_width() == width,
        map.spec_height() == height,
        3 <= width <= i32::MAX,
        3 <= height <= i32::MAX,
        rooms@.len() + ncomp <= usize::MAX,
        roomid@.len() == width * height,
        comp@.len() == width * height,
        forall|j: int| 0 <= j < roomid@.len() ==> #[trigger] roomid@[j] == usize::MAX || roomid@[j] < rooms@.len(),
        forall|j: int| 0 <= j < comp@.len() ==> #[trigger] comp@[j] == usize::MAX || comp@[j] < ncomp,
        forall|i: int| 0 <= i < rooms@.len() ==> room_inside(#[trigger] rooms@[i], width as int, height as int),
    ensures
        forall|k: int| 0 <= k < edges@.len() ==> edge_ok(#[trigger] edges@[k], rooms@.len() + ncomp, width as int, height as int, rooms@),
        edge_walls(map, edges@),
        edges@ == all_edges(map, roomid@, comp@, rooms@, rooms@.len() as int),
{
    let nrooms = rooms.len();
    let mut edges: Vec<(usize, usize, usize, usize)> = Vec::new();
    let mut i: usize = 0;
    while i < nrooms
        invariant
            0 <= i <= nrooms,
            nrooms == rooms@.len(),
            map.wf(),
            map.spec_width() == width,
            map.spec_height() == height,
            3 <= width <= i32::MAX,
            3 <= height <= i32::MAX,
            nrooms + ncomp <= usize::MAX,
            roomid@.len() == width * height,
            comp@.len() == width * height,
            forall|j: int| 0 <= j < roomid@.len() ==> #[trigger] roomid@[j] == usize::MAX || roomid@[j] < nrooms,
            forall|j: int| 0 <= j < comp@.len() ==> #[trigger] comp@[j] == usize::MAX || comp@[j] < ncomp,
            forall|j: int| 0 <= j < rooms@.len() ==> room_inside(#[trigger] rooms@[j], width as int, height as int),
            nrooms == rooms@.len(),
            forall|k: int| 0 <= k < edges@.len() ==> edge_ok(#[trigger] edges@[k], nrooms + ncomp, width as int, height as int, rooms@),
            edge_walls(map, edges@),
            edges@ == all_edges(map, roomid@, comp@, rooms@, i as int),
        decreases nrooms - i,
    {
        let rx = rooms[i].x;
        let ry = rooms[i].y;
        let rw = rooms[i].w;
        let rh = rooms[i].h;
        assert(room_inside(rooms@[i as int], width as int, height as int));
        assert(edges@ =~= all_edges(map, roomid@, comp@, rooms@, i as int) + room_edges(map, roomid@, comp@, rooms@, i as int, 0));
        // Top side: wall at (x, ry - 1), neighbour at (x, ry - 2).
        if ry >= 2 {
            let mut xx = rx;
            while xx < rx + rw
                invariant
                    rx <= xx <= rx + rw,
                    rx + rw <= width - 1,
                    ry + rh <= height - 1,
                    ry >= 2,
                    i < nrooms,
                    map.wf(),
                    map.spec_width() == width,
                    map.spec_height() == height,
                    3 <= width <= i32::MAX,
                    3 <= height <= i32::MAX,
                    nrooms + ncomp <= usize::MAX,
                    roomid@.len() == width * height,
                    comp@.len() == width * height,
                    forall|j: int| 0 <= j < roomid@.len() ==> #[trigger] roomid@[j] == usize::MAX || roomid@[j] < nrooms,
                    forall|j: int| 0 <= j < comp@.len() ==> #[trigger] comp@[j] == usize::MAX || comp@[j] < ncomp,
                    nrooms == rooms@.len(),
                    rx == rooms@[i as int].x && ry == rooms@[i as int].y && rw == rooms@[i as int].w && rh == rooms@[i as int].h,
                    forall|k: int| 0 <= k < edges@.len() ==> edge_ok(#[trigger] edges@[k], nrooms + ncomp, width as int, height as int, rooms@),
                    edge_walls(map, edges@),
                    edges@ == all_edges(map, roomid@, comp@, rooms@, i as int) + room_edges(map, roomid@, comp@, rooms@, i as int, 0) + side_edges(map, roomid@, comp@, rooms@, i as int, 0, xx - rx),
                decreases rx + rw - xx,
            {
                let ghost e0 = edges@;
                consider_pair(map, roomid, comp, nrooms, ncomp, i, xx, ry - 1, xx, ry - 2, width, height, &mut edges, Ghost(rooms@));
                proof {
                    let g = side_geom(rooms@[i as int], 0, xx - rx);
                    assert(side_edges(map, roomid@, comp@, rooms@, i as int, 0, xx - rx + 1) == side_edges(map, roomid@, comp@, rooms@, i as int, 0, xx - rx) + edge_seq(pair_edge(map, roomid@, comp@, nrooms as int, i as int, g.0, g.1, g.2, g.3)));
                    assert(edges@ =~= all_edges(map, roomid@, comp@, rooms@, i as int) + room_edges(map, roomid@, comp@, rooms@, i as int, 0) + side_edges(map, roomid@, comp@, rooms@, i as int, 0, xx - rx + 1));
                }
                xx = xx + 1;
            }
        }
        assert(edges@ =~= all_edges(map, roomid@, comp@, rooms@, i as int) + room_edges(map, roomid@, comp@, rooms@, i as int, 1)) by {
            assert(room_edges(map, roomid@, comp@, rooms@, i as int, 1) == room_edges(map, roomid@, comp@, rooms@, i as int, 0) + side_edges(map, roomid@, comp@, rooms@, i as int, 0, side_len(rooms@[i as int], 0, width as int, height as int)));
        }
        // Bottom side: wall at (x, ry + rh), neighbour at (x, ry + rh + 1).
        if ry + rh + 1 < height {
            let mut xx = rx;
            while xx < rx + rw
                invariant
                    rx <= xx <= rx + rw,
                    rx + rw <= width - 1,
                    ry + rh + 1 < height,
                    i < nrooms,
                    map.wf(),
                    map.spec_width() == width,
                    map.spec_height() == height,
                    3 <= width <= i32::MAX,
                    3 <= height <= i32::MAX,
                    nrooms + ncomp <= usize::MAX,
                    roomid@.len() == width * height,
                    comp@.len() == width * height,
                    forall|j: int| 0 <= j < roomid@.len() ==> #[trigger] roomid@[j] == usize::MAX || roomid@[j] < nrooms,
                    forall|j: int| 0 <= j < comp@.len() ==> #[trigger] comp@[j] == usize::MAX || comp@[j] < ncomp,
                    nrooms == rooms@.len(),
                    rx == rooms@[i as int].x && ry == rooms@[i as int].y && rw == rooms@[i as int].w && rh == rooms@[i as int].h,
                    forall|k: int| 0 <= k < edges@.len() ==> edge_ok(#[trigger] edges@[k], nrooms + ncomp, width as int, height as int, rooms@),
                    edge_walls(map, edges@),
                    edges@ == all_edges(map, roomid@, comp@, rooms@, i as int) + room_edges(map, roomid@, comp@, rooms@, i as int, 1) + side_edges(map, roomid@, comp@, rooms@, i as int, 1, xx - rx),
                decreases rx + rw - xx,
            {
                let ghost e0 = edges@;
                consider_pair(map, roomid, comp, nrooms, ncomp, i, xx, ry + rh, xx, ry + rh + 1, width, height, &mut edges, Ghost(rooms@));
                proof {
                    let g = side_geom(rooms@[i as int], 1, xx - rx);
                    assert(side_edges(map, roomid@, comp@, rooms@, i as int, 1, xx - rx + 1) == side_edges(map, roomid@, comp@, rooms@, i as int, 1, xx - rx) + edge_seq(pair_edge(map, roomid@, comp@, nrooms as int, i as int, g.0, g.1, g.2, g.3)));
                    assert(edges@ =~= all_edges(map, roomid@, comp@, rooms@, i as int) + room_edges(map, roomid@, comp@, rooms@, i as int, 1) + side_edges(map, roomid@, comp@, rooms@, i as int, 1, xx - rx + 1));
                }
                xx = xx + 1;
            }
        }
        assert(edges@ =~= all_edges(map, roomid@, comp@, rooms@, i as int) + room_edges(map, roomid@, comp@, rooms@, i as int, 2)) by {
            assert(room_edges(map, roomid@, comp@, rooms@, i as int, 2) == room_edges(map, roomid@, comp@, rooms@, i as int, 1) + side_edges(map, roomid@, comp@, rooms@, i as int, 1, side_len(rooms@[i as int], 1, width as int, height as int)));
        }
        // Left side: wall at (rx - 1, y), neighbour at (rx - 2, y).
        if rx >= 2 {
            let mut yy = ry;
            while yy < ry + rh
                invariant
                    ry <= yy <= ry + rh,
                    rx + rw <= width - 1,
                    ry + rh <= height - 1,
                    rx >= 2,
                    i < nrooms,
                    map.wf(),
                    map.spec_width() == width,
                    map.spec_height() == height,
                    3 <= width <= i32::MAX,
                    3 <= height <= i32::MAX,
                    nrooms + ncomp <= usize::MAX,
                    roomid@.len() == width * height,
                    comp@.len() == width * height,
                    forall|j: int| 0 <= j < roomid@.len() ==> #[trigger] roomid@[j] == usize::MAX || roomid@[j] < nrooms,
                    forall|j: int| 0 <= j < comp@.len() ==> #[trigger] comp@[j] == usize::MAX || comp@[j] < ncomp,
                    nrooms == rooms@.len(),
                    rx == rooms@[i as int].x && ry == rooms@[i as int].y && rw == rooms@[i as int].w && rh == rooms@[i as int].h,
                    forall|k: int| 0 <= k < edges@.len() ==> edge_ok(#[trigger] edges@[k], nrooms + ncomp, width as int, height as int, rooms@),
                    edge_walls(map, edges@),
                    edges@ == all_edges(map, roomid@, comp@, rooms@, i as int) + room_edges(map, roomid@, comp@, rooms@, i as int, 2) + side_edges(map, roomid@, comp@, rooms@, i as int, 2, yy - ry),
                decreases ry + rh - yy,
            {
                let ghost e0 = edges@;
                consider_pair(map, roomid, comp, nrooms, ncomp, i, rx - 1, yy, rx - 2, yy, width, height, &mut edges, Ghost(rooms@));
                proof {
                    let g = side_geom(rooms@[i as int], 2, yy - ry);
                    assert(side_edges(map, roomid@, comp@, rooms@, i as int, 2, yy - ry + 1) == side_edges(map, roomid@, comp@, rooms@, i as int, 2, yy - ry) + edge_seq(pair_edge(map, roomid@, comp@, nrooms as int, i as int, g.0, g.1, g.2, g.3)));
                    assert(edges@ =~= all_edges(map, roomid@, comp@, rooms@, i as int) + room_edges(map, roomid@, comp@, rooms@, i as int, 2) + side_edges(map, roomid@, comp@, rooms@, i as int, 2, yy - ry + 1));
                }
                yy = yy + 1;
            }
        }
        assert(edges@ =~= all_edges(map, roomid@, comp@, rooms@, i as int) + room_edges(map, roomid@, comp@, rooms@, i as int, 3)) by {
            assert(room_edges(map, roomid@, comp@, rooms@, i as int, 3) == room_edges(map, roomid@, comp@, rooms@, i as int, 2) + side_edges(map, roomid@, comp@, rooms@, i as int, 2, side_len(rooms@[i as int], 2, width as int, height as int)));
        }
        // Right side: wall at (rx + rw, y), neighbour at (rx + rw + 1, y).
        if rx + rw + 1 < width {
            let mut yy = ry;
            while yy < ry + rh
                invariant
                    ry <= yy <= ry + rh,
                    rx + rw + 1 < width,
                    ry + rh <= height - 1,
                    i < nrooms,
                    map.wf(),
                    map.spec_width() == width,
                    map.spec_height() == height,
                    3 <= width <= i32::MAX,
                    3 <= height <= i32::MAX,
                    nrooms + ncomp <= usize::MAX,
                    roomid@.len() == width * height,
                    comp@.len() == width * height,
                    forall|j: int| 0 <= j < roomid@.len() ==> #[trigger] roomid@[j] == usize::MAX || roomid@[j] < nrooms,
                    forall|j: int| 0 <= j < comp@.len() ==> #[trigger] comp@[j] == usize::MAX || comp@[j] < ncomp,
                    nrooms == rooms@.len(),
                    rx == rooms@[i as int].x && ry == rooms@[i as int].y && rw == rooms@[i as int].w && rh == rooms@[i as int].h,
                    forall|k: int| 0 <= k < edges@.len() ==> edge_ok(#[trigger] edges@[k], nrooms + ncomp, width as int, height as int, rooms@),
                    edge_walls(map, edges@),
                    edges@ == all_edges(map, roomid@, comp@, rooms@, i as int) + room_edges(map, roomid@, comp@, rooms@, i as int, 3) + side_edges(map, roomid@, comp@, rooms@, i as int, 3, yy - ry),
                decreases ry + rh - yy,
            {
                let ghost e0 = edges@;
                consider_pair(map, roomid, comp, nrooms, ncomp, i, rx + rw, yy, rx + rw + 1, yy, width, height, &mut edges, Ghost(rooms@));
                proof {
                    let g = side_geom(rooms@[i as int], 3, yy - ry);
                    assert(side_edges(map, roomid@, comp@, rooms@, i as int, 3, yy - ry + 1) == side_edges(map, roomid@, comp@, rooms@, i as int, 3, yy - ry) + edge_seq(pair_edge(map, roomid@, comp@, nrooms as int, i as int, g.0, g.1, g.2, g.3)));
                    assert(edges@ =~= all_edges(map, roomid@, comp@, rooms@, i as int) + room_edges(map, roomid@, comp@, rooms@, i as int, 3) + side_edges(map, roomid@, comp@, rooms@, i as int, 3, yy - ry + 1));
                }
                yy = yy + 1;
            }
        }
        assert(edges@ =~= all_edges(map, roomid@, comp@, rooms@, i as int + 1)) by {
            assert(room_edges(map, roomid@, comp@, rooms@, i as int, 4) == room_edges(map, roomid@, comp@, rooms@, i as int, 3) + side_edges(map, roomid@, comp@, rooms@, i as int, 3, side_len(rooms@[i as int], 3, width as int, height as int)));
        }
        i = i + 1;
    }
    edges
}

/// Nodes `u` and `v` are the two ends of an edge of `edges`.
pub open spec fn edge_step(edges: Seq<(usize, usize, usize, usize)>, u: int, v: int) -> bool {
    exists|k: int|
        0 <= k < edges.len() && ((#[trigger] edges[k].0 == u && edges[k].1 == v) || (edges[k].0 == v && edges[k].1 == u))
}

/// Nodes `u` and `v` are the two ends of an edge of `edges` whose wall is a
/// fusuma door in `m`.
pub open spec fn open_step(m: &NobiscuitMap, edges: Seq<(usize, usize, usize, usize)>, u: int, v: int) -> bool {
    exists|k: int|
        0 <= k < edges.len() && m.cell(edges[k].2 as int, edges[k].3 as int) == TILE_DOOR_FUSUMA && ((#[trigger] edges[k].0
            == u && edges[k].1 == v) || (edges[k].0 == v && edges[k].1 == u))
}

/// Consecutive nodes of `p` are the ends of an edge of `edges`.
pub open spec fn edge_walk(edges: Seq<(usize, usize, usize, usize)>, p: Seq<int>) -> bool {
    forall|i: int, j: int| 0 <= i && j == i + 1 && j < p.len() ==> #[trigger] edge_step(edges, p[i], p[j])
}

/// Consecutive nodes of `p` are the ends of an edge of `edges` whose wall is a
/// fusuma door in `m`.
pub open spec fn open_walk(m: &NobiscuitMap, edges: Seq<(usize, usize, usize, usize)>, p: Seq<int>) -> bool {
    forall|i: int, j: int| 0 <= i && j == i + 1 && j < p.len() ==> #[trigger] open_step(m, edges, p[i], p[j])
}

/// `u` and `v` lie in one component of the graph of `edges`.
pub open spec fn linked(edges: Seq<(usize, usize, usize, usize)>, u: int, v: int) -> bool {
    exists|p: Seq<int>| #[trigger] edge_walk(edges, p) && p.len() >= 1 && p[0] == u && p[p.len() - 1] == v
}

/// `u` and `v` are joined through edges of `edges` whose walls are fusuma
/// doors in `m`.
pub open spec fn joined(m: &NobiscuitMap, edges: Seq<(usize, usize, usize, usize)>, u: int, v: int) -> bool {
    exists|p: Seq<int>| #[trigger] open_walk(m, edges, p) && p.len() >= 1 && p[0] == u && p[p.len() - 1] == v
}

/// Nodes `u` and `v` are the two ends of an edge of `edges` whose wall is
/// passable (a door or a walkable cell) in `m`.
pub open spec fn pass_step(m: &NobiscuitMap, edges: Seq<(usize, usize, usize, usize)>, u: int, v: int) -> bool {
    exists|k: int|
        0 <= k < edges.len() && is_passable_tile(m.cell(edges[k].2 as int, edges[k].3 as int)) && ((#[trigger] edges[k].0
            == u && edges[k].1 == v) || (edges[k].0 == v && edges[k].1 == u))
}

/// Consecutive nodes of `p` are the ends of an edge of `edges` whose wall is
/// passable in `m`.
pub open spec fn pass_walk(m: &NobiscuitMap, edges: Seq<(usize, usize, usize, usize)>, p: Seq<int>) -> bool {
    forall|i: int, j: int| 0 <= i && j == i + 1 && j < p.len() ==> #[trigger] pass_step(m, edges, p[i], p[j])
}

/// `u` and `v` are joined through edges of `edges` whose walls are passable
/// in `m`.
pub open spec fn passage_joined(m: &NobiscuitMap, edges: Seq<(usize, usize, usize, usize)>, u: int, v: int) -> bool {
    exists|p: Seq<int>| #[trigger] pass_walk(m, edges, p) && p.len() >= 1 && p[0] == u && p[p.len() - 1] == v
}

/// Nodes joined through fusuma doors of `m` stay joined through passable
/// walls of `m2` when every fusuma door of `m` is passable in `m2`.
pub proof fn lemma_joined_passage(m: &NobiscuitMap, m2: &NobiscuitMap, edges: Seq<(usize, usize, usize, usize)>, u: int, v: int)
    requires
        joined(m, edges, u, v),
        forall|k: int| 0 <= k < edges.len() ==> edge_in_map(#[trigger] edges[k], m.spec_width() as int, m.spec_height() as int),
        forall|a: int, b: int| m.in_bounds(a, b) && #[trigger] m.cell(a, b) == TILE_DOOR_FUSUMA ==> is_passable_tile(m2.cell(a, b)),
    ensures
        passage_joined(m2, edges, u, v),
{
    let p = choose|p: Seq<int>| #[trigger] open_walk(m, edges, p) && p.len() >= 1 && p[0] == u && p[p.len() - 1] == v;
    assert forall|i: int, j: int| 0 <= i && j == i + 1 && j < p.len() implies #[trigger] pass_step(m2, edges, p[i], p[j]) by {
        assert(open_step(m, edges, p[i], p[j]));
        let k = choose|k: int|
            0 <= k < edges.len() && m.cell(edges[k].2 as int, edges[k].3 as int) == TILE_DOOR_FUSUMA && ((#[trigger] edges[k].0
                == p[i] && edges[k].1 == p[j]) || (edges[k].0 == p[j] && edges[k].1 == p[i]));
        assert(edge_in_map(edges[k], m.spec_width() as int, m.spec_height() as int));
        assert(m.in_bounds(edges[k].2 as int, edges[k].3 as int));
        assert(is_passable_tile(m2.cell(edges[k].2 as int, edges[k].3 as int)));
    }
    assert(pass_walk(m2, edges, p));
}

/// Every node is joined to itself.
proof fn lemma_joined_refl(m: &NobiscuitMap, edges: Seq<(usize, usize, usize, usize)>, u: int)
    ensures
        joined(m, edges, u, u),
{
    let p = seq![u];
    assert(open_walk(m, edges, p));
}

/// The two ends of an open edge are joined.
proof fn lemma_joined_step(m: &NobiscuitMap, edges: Seq<(usize, usize, usize, usize)>, u: int, v: int)
    requires
        open_step(m, edges, u, v),
    ensures
        joined(m, edges, u, v),
{
    let p = seq![u, v];
    assert forall|i: int, j: int| 0 <= i && j == i + 1 && j < p.len() implies #[trigger] open_step(m, edges, p[i], p[j]) by {
        assert(i == 0 && j == 1);
    }
    assert(open_walk(m, edges, p));
}

/// Joining is symmetric.
proof fn lemma_joined_sym(m: &NobiscuitMap, edges: Seq<(usize, usize, usize, usize)>, u: int, v: int)
    requires
        joined(m, edges, u, v),
    ensures
        joined(m, edges, v, u),
{
    let p = choose|p: Seq<int>| #[trigger] open_walk(m, edges, p) && p.len() >= 1 && p[0] == u && p[p.len() - 1] == v;
    let n = p.len() as int;
    let q = Seq::new(p.len(), |i: int| p[n - 1 - i]);
    assert forall|i: int, j: int| 0 <= i && j == i + 1 && j < q.len() implies #[trigger] open_step(m, edges, q[i], q[j]) by {
        let a = n - 2 - i;
        let b = n - 1 - i;
        assert(open_step(m, edges, p[a], p[b]));
        let k = choose|k: int|
            0 <= k < edges.len() && m.cell(edges[k].2 as int, edges[k].3 as int) == TILE_DOOR_FUSUMA && ((#[trigger] edges[k].0
                == p[a] && edges[k].1 == p[b]) || (edges[k].0 == p[b] && edges[k].1 == p[a]));
        assert(q[i] == p[b] && q[j] == p[a]);
    }
    assert(open_walk(m, edges, q));
}

/// Joining is transitive.
proof fn lemma_joined_trans(m: &NobiscuitMap, edges: Seq<(usize, usize, usize, usize)>, u: int, v: int, w: int)
    requires
        joined(m, edges, u, v),
        joined(m, edges, v, w),
    ensures
        joined(m, edges, u, w),
{
    let p = choose|p: Seq<int>| #[trigger] open_walk(m, edges, p) && p.len() >= 1 && p[0] == u && p[p.len() - 1] == v;
    let q = choose|q: Seq<int>| #[trigger] open_walk(m, edges, q) && q.len() >= 1 && q[0] == v && q[q.len() - 1] == w;
    let r = p + q.drop_first();
    assert forall|i: int, j: int| 0 <= i && j == i + 1 && j < r.len() implies #[trigger] open_step(m, edges, r[i], r[j]) by {
        if j < p.len() {
            assert(r[i] == p[i] && r[j] == p[j]);
            assert(open_step(m, edges, p[i], p[j]));
        } else if i < p.len() {
            assert(i == p.len() - 1);
            assert(r[i] == q[0] && r[j] == q[1]);
            assert(open_step(m, edges, q[0], q[1]));
        } else {
            let a = i - p.len() + 1;
            assert(r[i] == q[a] && r[j] == q[a + 1]);
            assert(open_step(m, edges, q[a], q[a + 1]));
        }
    }
    assert(open_walk(m, edges, r));
    if q.len() == 1 {
        assert(r[r.len() - 1] == p[p.len() - 1]);
    } else {
        assert(r[r.len() - 1] == q[q.len() - 1]);
    }
}

/// Doors that stay doors keep nodes joined.
proof fn lemma_joined_mono(m: &NobiscuitMap, m2: &NobiscuitMap, edges: Seq<(usize, usize, usize, usize)>, u: int, v: int)
    requires
        joined(m, edges, u, v),
        forall|k: int|
            0 <= k < edges.len() && m.cell(#[trigger] edges[k].2 as int, edges[k].3 as int) == TILE_DOOR_FUSUMA ==> m2.cell(
                edges[k].2 as int,
                edges[k].3 as int,
            ) == TILE_DOOR_FUSUMA,
    ensures
        joined(m2, edges, u, v),
{
    let p = choose|p: Seq<int>| #[trigger] open_walk(m, edges, p) && p.len() >= 1 && p[0] == u && p[p.len() - 1] == v;
    assert forall|i: int, j: int| 0 <= i && j == i + 1 && j < p.len() implies #[trigger] open_step(m2, edges, p[i], p[j]) by {
        assert(open_step(m, edges, p[i], p[j]));
        let k = choose|k: int|
            0 <= k < edges.len() && m.cell(edges[k].2 as int, edges[k].3 as int) == TILE_DOOR_FUSUMA && ((#[trigger] edges[k].0
                == p[i] && edges[k].1 == p[j]) || (edges[k].0 == p[j] && edges[k].1 == p[i]));
        assert(m2.cell(edges[k].2 as int, edges[k].3 as int) == TILE_DOOR_FUSUMA);
    }
    assert(open_walk(m2, edges, p));
}

/// Joining through the edges of `e1` is joining through those of any `e2`
/// holding them all.
proof fn lemma_joined_sub(m: &NobiscuitMap, e1: Seq<(usize, usize, usize, usize)>, e2: Seq<(usize, usize, usize, usize)>, u: int, v: int)
    requires
        joined(m, e1, u, v),
        forall|k: int| 0 <= k < e1.len() ==> e2.contains(#[trigger] e1[k]),
    ensures
        joined(m, e2, u, v),
{
    let p = choose|p: Seq<int>| #[trigger] open_walk(m, e1, p) && p.len() >= 1 && p[0] == u && p[p.len() - 1] == v;
    assert forall|i: int, j: int| 0 <= i && j == i + 1 && j < p.len() implies #[trigger] open_step(m, e2, p[i], p[j]) by {
        assert(open_step(m, e1, p[i], p[j]));
        let k = choose|k: int|
            0 <= k < e1.len() && m.cell(e1[k].2 as int, e1[k].3 as int) == TILE_DOOR_FUSUMA && ((#[trigger] e1[k].0
                == p[i] && e1[k].1 == p[j]) || (e1[k].0 == p[j] && e1[k].1 == p[i]));
        assert(e2.contains(e1[k]));
        let k2 = choose|k2: int| 0 <= k2 < e2.len() && e2[k2] == e1[k];
        assert(e2[k2].0 == e1[k].0);
    }
    assert(open_walk(m, e2, p));
}

/// When the two ends of every edge are joined, so is every pair of linked
/// nodes.
proof fn lemma_linked_joined(m: &NobiscuitMap, edges: Seq<(usize, usize, usize, usize)>, p: Seq<int>)
    requires
        edge_walk(edges, p),
        p.len() >= 1,
        forall|k: int| 0 <= k < edges.len() ==> joined(m, edges, #[trigger] edges[k].0 as int, edges[k].1 as int),
    ensures
        joined(m, edges, p[0], p[p.len() - 1]),
    decreases p.len(),
{
    if p.len() == 1 {
        lemma_joined_refl(m, edges, p[0]);
    } else {
        let q = p.drop_last();
        assert forall|i: int, j: int| 0 <= i && j == i + 1 && j < q.len() implies #[trigger] edge_step(edges, q[i], q[j]) by {
            assert(q[i] == p[i] && q[j] == p[j]);
            assert(edge_step(edges, p[i], p[j]));
        }
        lemma_linked_joined(m, edges, q);
        let a = p.len() - 2;
        let b = p.len() - 1;
        assert(edge_step(edges, p[a], p[b]));
        let k = choose|k: int| 0 <= k < edges.len() && ((#[trigger] edges[k].0 == p[a] && edges[k].1 == p[b]) || (edges[k].0 == p[b] && edges[k].1 == p[a]));
        assert(joined(m, edges, edges[k].0 as int, edges[k].1 as int));
        if edges[k].0 == p[a] {
            lemma_joined_trans(m, edges, p[0], p[a], p[b]);
        } else {
            lemma_joined_sym(m, edges, p[b], p[a]);
            lemma_joined_trans(m, edges, p[0], p[a], p[b]);
        }
    }
}

/// Linking root `ra` under root `rb` keeps the forest well founded once `rb`
/// is lifted above `ra`.
proof fn lemma_union(parent: Seq<usize>, level: Seq<nat>, bound: nat, ra: int, rb: int)
    requires
        uf_ok(parent, level, bound),
        0 <= ra < parent.len(),
        0 <= rb < parent.len(),
        ra != rb,
        parent[ra] == ra,
        parent[rb] == rb,
    ensures
        uf_ok(
            parent.update(ra, rb as usize),
            level.update(rb, if level[rb] > level[ra] + 1 { level[rb] } else { level[ra] + 1 }),
            bound + 1,
        ),
{
    let p2 = parent.update(ra, rb as usize);
    let nl: nat = if level[rb] > level[ra] + 1 { level[rb] } else { level[ra] + 1 };
    let l2 = level.update(rb, nl);
    assert forall|i: int| 0 <= i < p2.len() implies #[trigger] p2[i] < p2.len() && l2[i] <= bound + 1 && (p2[i] != i ==> l2[i] < l2[p2[i] as int]) by {
        assert(parent[i] < parent.len());
        if i != ra && parent[i] != i {
            assert(parent[parent[i] as int] < parent.len());
        }
    }
}

/// Nodes below `n` with one root are joined in `m`.
pub open spec fn roots_joined(m: &NobiscuitMap, edges: Seq<(usize, usize, usize, usize)>, parent: Seq<usize>, level: Seq<nat>, bound: nat, n: int) -> bool {
    forall|x: int, y: int|
        #![trigger uf_root(parent, level, bound, x), uf_root(parent, level, bound, y)]
        0 <= x < n && 0 <= y < n && uf_root(parent, level, bound, x) == uf_root(parent, level, bound, y) ==> joined(m, edges, x, y)
}

/// Linking the roots of the ends of an edge whose wall is now a door keeps
/// every pair of nodes with one root joined.
proof fn lemma_union_joined(
    mb: &NobiscuitMap,
    m: &NobiscuitMap,
    edges: Seq<(usize, usize, usize, usize)>,
    parent: Seq<usize>,
    level: Seq<nat>,
    bound: nat,
    level2: Seq<nat>,
    a: int,
    b: int,
)
    requires
        uf_ok(parent, level, bound),
        uf_ok(parent.update(uf_root(parent, level, bound, a), uf_root(parent, level, bound, b) as usize), level2, bound + 1),
        roots_joined(mb, edges, parent, level, bound, parent.len() as int),
        0 <= a < parent.len(),
        0 <= b < parent.len(),
        uf_root(parent, level, bound, a) != uf_root(parent, level, bound, b),
        open_step(m, edges, a, b),
        forall|k: int|
            0 <= k < edges.len() && mb.cell(#[trigger] edges[k].2 as int, edges[k].3 as int) == TILE_DOOR_FUSUMA ==> m.cell(
                edges[k].2 as int,
                edges[k].3 as int,
            ) == TILE_DOOR_FUSUMA,
    ensures
        roots_joined(
            m,
            edges,
            parent.update(uf_root(parent, level, bound, a), uf_root(parent, level, bound, b) as usize),
            level2,
            bound + 1,
            parent.len() as int,
        ),
{
    let ra = uf_root(parent, level, bound, a);
    let rb = uf_root(parent, level, bound, b);
    let p2 = parent.update(ra, rb as usize);
    lemma_root_is_root(parent, level, bound, a);
    lemma_root_is_root(parent, level, bound, b);
    lemma_joined_step(m, edges, a, b);
    assert forall|x: int, y: int|
        #![trigger uf_root(p2, level2, bound + 1, x), uf_root(p2, level2, bound + 1, y)]
        0 <= x < parent.len() && 0 <= y < parent.len() && uf_root(p2, level2, bound + 1, x) == uf_root(p2, level2, bound + 1, y)
            implies joined(m, edges, x, y) by {
        lemma_link_root(parent, level, bound, level2, ra, rb, x);
        lemma_link_root(parent, level, bound, level2, ra, rb, y);
        let rx = uf_root(parent, level, bound, x);
        let ry = uf_root(parent, level, bound, y);
        lemma_root_is_root(parent, level, bound, x);
        lemma_root_is_root(parent, level, bound, y);
        if rx == ry {
            lemma_joined_mono(mb, m, edges, x, y);
        } else if rx == ra {
            assert(ry == rb);
            lemma_joined_mono(mb, m, edges, x, a);
            lemma_joined_mono(mb, m, edges, b, y);
            lemma_joined_trans(m, edges, x, a, b);
            lemma_joined_trans(m, edges, x, b, y);
        } else {
            assert(rx == rb && ry == ra);
            lemma_joined_mono(mb, m, edges, x, b);
            lemma_joined_mono(mb, m, edges, a, y);
            lemma_joined_sym(m, edges, a, b);
            lemma_joined_trans(m, edges, x, b, a);
            lemma_joined_trans(m, edges, x, a, y);
        }
    }
}

/// The labels `connect_rooms` works with: `roomid` gives each EMPTY room cell
/// a room holding it (`usize::MAX` off the rooms), and `comp` gives every
/// corridor cell a component below the number of corridor cells, two corridor
/// cells sharing a component exactly when they are 4-connected through
/// corridor cells.
pub open spec fn node_labels(m: &NobiscuitMap, rooms: Seq<Room>, cells: Seq<(usize, usize)>, roomid: Seq<usize>, comp: Seq<usize>) -> bool {
    &&& roomid.len() == m.spec_width() * m.spec_height()
    &&& comp.len() == m.spec_width() * m.spec_height()
    &&& forall|j: int| 0 <= j < roomid.len() ==> #[trigger] roomid[j] == usize::MAX || roomid[j] < rooms.len()
    &&& forall|j: int| 0 <= j < comp.len() ==> #[trigger] comp[j] == usize::MAX || comp[j] < cells.len()
    &&& forall|a: int, b: int|
        m.in_bounds(a, b) && #[trigger] roomid[cell_index(m.spec_width() as int, a, b)] != usize::MAX ==> in_room(
            rooms[roomid[cell_index(m.spec_width() as int, a, b)] as int],
            a,
            b,
        )
    &&& forall|j: int, a: int, b: int|
        0 <= j < rooms.len() && #[trigger] in_room(rooms[j], a, b) && m.in_bounds(a, b) && m.cell(a, b) == TILE_EMPTY
            ==> roomid[cell_index(m.spec_width() as int, a, b)] != usize::MAX
    &&& forall|k: int|
        0 <= k < cells.len() ==> comp[cell_index(m.spec_width() as int, #[trigger] cells[k].0 as int, cells[k].1 as int)] != usize::MAX
    &&& forall|k1: int, k2: int|
        0 <= k1 < cells.len() && 0 <= k2 < cells.len() ==> ((comp[cell_index(
            m.spec_width() as int,
            #[trigger] cells[k1].0 as int,
            cells[k1].1 as int,
        )] == comp[cell_index(m.spec_width() as int, #[trigger] cells[k2].0 as int, cells[k2].1 as int)]) <==> corridor_joined(
            cells,
            (cells[k1].0 as int, cells[k1].1 as int),
            (cells[k2].0 as int, cells[k2].1 as int),
        ))
}

/// Open doors so every room and corridor joins one network: a spanning tree of
/// the room/corridor adjacency graph (over shuffled edges) is opened as fusuma
/// doors, plus about 15% of the remaining candidate walls to form loops.
///
/// Only walls ever change, and only into fusuma doors. The graph's nodes are
/// the rooms (numbered as given) and then the corridor components; any two
/// nodes in one component of the graph end up joined through edges whose walls
/// are fusuma doors. Whenever some room faces another room or a corridor cell
/// across one of its walls, at least one door opens. A layout whose room and
/// corridor-component counts together exceed `usize::MAX` opens no doors.
#[verifier::rlimit(50)]
pub fn connect_rooms(
    map: &mut NobiscuitMap,
    rooms: &Vec<Room>,
    corridor_cells: &Vec<(usize, usize)>,
    width: usize,
    height: usize,
    rng: &mut StdRng,
)
    requires
        old(map).wf(),
        old(map).spec_width() == width,
        old(map).spec_height() == height,
        3 <= width <= i32::MAX,
        3 <= height <= i32::MAX,
        forall|i: int| 0 <= i < rooms@.len() ==> room_inside(#[trigger] rooms@[i], width as int, height as int),
        forall|k: int| 0 <= k < corridor_cells@.len() ==> interior(width as int, height as int, #[trigger] corridor_cells@[k].0 as int, corridor_cells@[k].1 as int),
    ensures
        doored_from(old(map), final(map)),
        forall|a: int, b: int|
            old(map).in_bounds(a, b) && #[trigger] final(map).cell(a, b) != old(map).cell(a, b) ==> on_some_ring(
                rooms@,
                a,
                b,
            ),
        rooms@.len() + corridor_cells@.len() <= usize::MAX && some_room_faces(old(map), rooms@, corridor_cells@)
            ==> door_opened(old(map), final(map)),
        0 < rooms@.len() && rooms@.len() + corridor_cells@.len() <= usize::MAX ==> exists|roomid: Seq<usize>, comp: Seq<usize>|
            #[trigger] node_labels(old(map), rooms@, corridor_cells@, roomid, comp) && forall|u: int, v: int|
                #[trigger] linked(all_edges(old(map), roomid, comp, rooms@, rooms@.len() as int), u, v) ==> joined(
                    final(map),
                    all_edges(old(map), roomid, comp, rooms@, rooms@.len() as int),
                    u,
                    v,
                ),
{
    let ghost m0 = *map;
    proof {
        map.lemma_wf_size();
    }
    if rooms.len() == 0 {
        return;
    }
    let roomid = label_rooms(map, rooms, width, height);
    let (comp, ncomp) = label_corridors(corridor_cells, width, height);
    let node_count = match rooms.len().checked_add(ncomp) {
        Some(c) => c,
        None => return,
    };
    let mut edges = collect_edges(map, rooms, &roomid, &comp, ncomp, width, height);
    proof {
        if rooms@.len() + corridor_cells@.len() <= usize::MAX && some_room_faces(&m0, rooms@, corridor_cells@) {
            let (fi, fs, ft) = choose|i: int, s: int, t: int| #[trigger] faces_across(&m0, rooms@, corridor_cells@, i, s, t);
            lemma_facing_edge(&m0, rooms@, corridor_cells@, roomid@, comp@, ncomp as int, fi, fs, ft);
            lemma_side_edges_grow(&m0, roomid@, comp@, rooms@, fi, fs, side_len(rooms@[fi], fs, width as int, height as int), ft);
            lemma_room_edges_grow(&m0, roomid@, comp@, rooms@, fi, fs, 4);
            lemma_all_edges_grow(&m0, roomid@, comp@, rooms@, fi, rooms@.len() as int);
        }
    }
    let ghost e0 = edges@;
    shuffle(&mut edges, rng);
    assert forall|k: int| 0 <= k < edges@.len() implies edge_ok(#[trigger] edges@[k], node_count as int, width as int, height as int, rooms@) by {
        lemma_shuffled_from(e0, edges@, k);
        let j = choose|j: int| 0 <= j < e0.len() && e0[j] == edges@[k];
    }
    assert forall|k: int| 0 <= k < edges@.len() implies m0.cell(#[trigger] edges@[k].2 as int, edges@[k].3 as int) == TILE_WALL by {
        lemma_shuffled_from(e0, edges@, k);
        let j = choose|j: int| 0 <= j < e0.len() && e0[j] == edges@[k];
        assert(m0.cell(e0[j].2 as int, e0[j].3 as int) == TILE_WALL);
    }
    // Union-find spanning tree; a door per tree edge.
    let mut parent: Vec<usize> = Vec::new();
    let mut i: usize = 0;
    while i < node_count
        invariant
            0 <= i <= node_count,
            parent@.len() == i,
            forall|j: int| 0 <= j < i ==> #[trigger] parent@[j] == j,
        decreases node_count - i,
    {
        parent.push(i);
        i = i + 1;
    }
    let ghost mut level: Seq<nat> = Seq::new(node_count as nat, |j: int| 0nat);
    let ghost mut bound: nat = 0;
    assert forall|x: int, y: int|
        #![trigger uf_root(parent@, level, bound, x), uf_root(parent@, level, bound, y)]
        0 <= x < node_count && 0 <= y < node_count && uf_root(parent@, level, bound, x) == uf_root(parent@, level, bound, y)
            implies joined(map, edges@, x, y) by {
        assert(parent@[x] == x && parent@[y] == y);
        lemma_joined_refl(map, edges@, x);
    }
    let mut leftover: Vec<(usize, usize)> = Vec::new();
    let mut k: usize = 0;
    while k < edges.len()
        invariant
            0 <= k <= edges@.len(),
            parent@.len() == node_count,
            uf_ok(parent@, level, bound),
            edge_walls(&m0, edges@),
            k == 0 ==> *map == m0,
            k == 0 ==> forall|j: int| 0 <= j < node_count ==> #[trigger] parent@[j] == j,
            k > 0 ==> door_opened(&m0, map),
            roots_joined(map, edges@, parent@, level, bound, node_count as int),
            forall|j: int|
                0 <= j < k ==> uf_root(parent@, level, bound, #[trigger] edges@[j].0 as int) == uf_root(parent@, level, bound, edges@[j].1 as int),
            forall|j: int| 0 <= j < edges@.len() ==> edge_ok(#[trigger] edges@[j], node_count as int, width as int, height as int, rooms@),
            forall|j: int| 0 <= j < leftover@.len() ==> #[trigger] leftover@[j].0 < width && leftover@[j].1 < height
                && on_some_ring(rooms@, leftover@[j].0 as int, leftover@[j].1 as int),
            doored_from(&m0, map),
            forall|a: int, b: int|
                m0.in_bounds(a, b) && #[trigger] map.cell(a, b) != m0.cell(a, b) ==> on_some_ring(rooms@, a, b),
            m0.spec_width() == width,
            m0.spec_height() == height,
            width <= i32::MAX,
            height <= i32::MAX,
        decreases edges@.len() - k,
    {
        let (a, b, wx, wy) = edges[k];
        assert(edge_ok(edges@[k as int], node_count as int, width as int, height as int, rooms@));
        assert(m0.cell(edges@[k as int].2 as int, edges@[k as int].3 as int) == TILE_WALL);
        let ghost p0 = parent@;
        let ra = find(&mut parent, a, Ghost(level), Ghost(bound));
        let ghost p1 = parent@;
        let rb = find(&mut parent, b, Ghost(level), Ghost(bound));
        proof {
            if k == 0 {
                assert(p0[a as int] == a);
                assert(p0[b as int] == b);
                assert(p1[b as int] == b);
                assert(ra == a && rb == b);
            }
            assert forall|i: int| 0 <= i < node_count implies #[trigger] uf_root(parent@, level, bound, i) == uf_root(p0, level, bound, i) by {
                assert(uf_root(parent@, level, bound, i) == uf_root(p1, level, bound, i));
            }
            assert(rb == uf_root(p0, level, bound, b as int));
            assert forall|x: int, y: int|
                #![trigger uf_root(parent@, level, bound, x), uf_root(parent@, level, bound, y)]
                0 <= x < node_count && 0 <= y < node_count && uf_root(parent@, level, bound, x) == uf_root(parent@, level, bound, y)
                    implies joined(map, edges@, x, y) by {
                assert(uf_root(p0, level, bound, x) == uf_root(p0, level, bound, y));
            }
            assert forall|j: int|
                0 <= j < k implies uf_root(parent@, level, bound, #[trigger] edges@[j].0 as int) == uf_root(parent@, level, bound, edges@[j].1 as int) by {
                assert(edge_ok(edges@[j], node_count as int, width as int, height as int, rooms@));
                assert(uf_root(p0, level, bound, edges@[j].0 as int) == uf_root(p0, level, bound, edges@[j].1 as int));
            }
        }
        let ghost p2 = parent@;
        let ghost lv0 = level;
        let ghost bd0 = bound;
        if ra != rb {
            proof {
                lemma_union(parent@, level, bound, ra as int, rb as int);
                level = level.update(rb as int, if level[rb as int] > level[ra as int] + 1 { level[rb as int] } else { level[ra as int] + 1 });
                bound = bound + 1;
            }
            parent.set(ra, rb);
            let ghost mb = *map;
            open_fusuma(map, wx, wy, Ghost(m0));
            proof {
                assert(map.cell(wx as int, wy as int) == TILE_DOOR_FUSUMA) by {
                    assert(m0.cell(wx as int, wy as int) == TILE_WALL);
                }
                assert(open_step(map, edges@, a as int, b as int)) by {
                    assert(edges@[k as int].0 == a && edges@[k as int].1 == b);
                }
                assert forall|kk: int|
                    0 <= kk < edges@.len() && mb.cell(#[trigger] edges@[kk].2 as int, edges@[kk].3 as int) == TILE_DOOR_FUSUMA implies map.cell(
                    edges@[kk].2 as int, edges@[kk].3 as int) == TILE_DOOR_FUSUMA by {
                    assert(edge_ok(edges@[kk], node_count as int, width as int, height as int, rooms@));
                }
                lemma_union_joined(&mb, map, edges@, p2, lv0, bd0, level, a as int, b as int);
                assert forall|j: int|
                    0 <= j < k + 1 implies uf_root(parent@, level, bound, #[trigger] edges@[j].0 as int) == uf_root(parent@, level, bound, edges@[j].1 as int) by {
                    assert(edge_ok(edges@[j], node_count as int, width as int, height as int, rooms@));
                    lemma_link_root(p2, lv0, bd0, level, ra as int, rb as int, edges@[j].0 as int);
                    lemma_link_root(p2, lv0, bd0, level, ra as int, rb as int, edges@[j].1 as int);
                }
                if k == 0 {
                    assert(map.cell(wx as int, wy as int) == TILE_DOOR_FUSUMA);
                } else {
                    let (pa, pb) = choose|pa: int, pb: int| m0.in_bounds(pa, pb) && m0.cell(pa, pb) == TILE_WALL && #[trigger] mb.cell(pa, pb) == TILE_DOOR_FUSUMA;
                    assert(map.cell(pa, pb) == TILE_DOOR_FUSUMA);
                }
                assert(on_room_ring(rooms@[a as int], wx as int, wy as int));
                assert forall|p: int, q: int| m0.in_bounds(p, q) && #[trigger] map.cell(p, q) != m0.cell(p, q) implies on_some_ring(rooms@, p, q) by {
                    if p != wx || q != wy {
                        assert(map.cell(p, q) == mb.cell(p, q));
                    }
                }
            }
        } else {
            assert(uf_root(parent@, level, bound, edges@[k as int].0 as int) == uf_root(parent@, level, bound, edges@[k as int].1 as int));
            let ghost lo = leftover@;
            leftover.push((wx, wy));
            assert(on_room_ring(rooms@[a as int], wx as int, wy as int));
            assert forall|j: int| 0 <= j < leftover@.len() implies #[trigger] leftover@[j].0 < width && leftover@[j].1 < height
                && on_some_ring(rooms@, leftover@[j].0 as int, leftover@[j].1 as int) by {
                if j < lo.len() {
                    assert(leftover@[j] == lo[j]);
                }
            }
        }
        k = k + 1;
    }
    assert forall|jj: int| 0 <= jj < edges@.len() implies joined(map, edges@, #[trigger] edges@[jj].0 as int, edges@[jj].1 as int) by {
        assert(edge_ok(edges@[jj], node_count as int, width as int, height as int, rooms@));
        assert(uf_root(parent@, level, bound, edges@[jj].0 as int) == uf_root(parent@, level, bound, edges@[jj].1 as int));
    }
    // Extra loops: open about 15% of the remaining candidate walls.
    let len = leftover.len();
    let extra = (len / 100) * 15 + (len % 100) * 15 / 100;
    let ghost l0 = leftover@;
    shuffle(&mut leftover, rng);
    let mut j: usize = 0;
    while j < extra && j < leftover.len()
        invariant
            0 <= j <= leftover@.len(),
            leftover@.to_multiset() == l0.to_multiset(),
            edges@.len() > 0 ==> door_opened(&m0, map),
            forall|jj: int| 0 <= jj < edges@.len() ==> joined(map, edges@, #[trigger] edges@[jj].0 as int, edges@[jj].1 as int),
            forall|jj: int| 0 <= jj < edges@.len() ==> edge_ok(#[trigger] edges@[jj], node_count as int, width as int, height as int, rooms@),
            forall|i: int| 0 <= i < l0.len() ==> #[trigger] l0[i].0 < width && l0[i].1 < height
                && on_some_ring(rooms@, l0[i].0 as int, l0[i].1 as int),
            doored_from(&m0, map),
            forall|a: int, b: int|
                m0.in_bounds(a, b) && #[trigger] map.cell(a, b) != m0.cell(a, b) ==> on_some_ring(rooms@, a, b),
            m0.spec_width() == width,
            m0.spec_height() == height,
            width <= i32::MAX,
            height <= i32::MAX,
        decreases leftover@.len() - j,
    {
        let (wx, wy) = leftover[j];
        proof {
            lemma_shuffled_from(l0, leftover@, j as int);
            let i = choose|i: int| 0 <= i < l0.len() && l0[i] == leftover@[j as int];
            assert(on_some_ring(rooms@, wx as int, wy as int));
        }
        let ghost mb = *map;
        open_fusuma(map, wx, wy, Ghost(m0));
        proof {
            if edges@.len() > 0 {
                let (pa, pb) = choose|pa: int, pb: int| m0.in_bounds(pa, pb) && m0.cell(pa, pb) == TILE_WALL && #[trigger] mb.cell(pa, pb) == TILE_DOOR_FUSUMA;
                assert(map.cell(pa, pb) == TILE_DOOR_FUSUMA);
            }
            assert forall|kk: int|
                0 <= kk < edges@.len() && mb.cell(#[trigger] edges@[kk].2 as int, edges@[kk].3 as int) == TILE_DOOR_FUSUMA implies map.cell(
                edges@[kk].2 as int, edges@[kk].3 as int) == TILE_DOOR_FUSUMA by {
                assert(edge_ok(edges@[kk], node_count as int, width as int, height as int, rooms@));
            }
            assert forall|jj: int| 0 <= jj < edges@.len() implies joined(map, edges@, #[trigger] edges@[jj].0 as int, edges@[jj].1 as int) by {
                lemma_joined_mono(&mb, map, edges@, edges@[jj].0 as int, edges@[jj].1 as int);
            }
            assert forall|p: int, q: int| m0.in_bounds(p, q) && #[trigger] map.cell(p, q) != m0.cell(p, q) implies on_some_ring(rooms@, p, q) by {
                if p != wx || q != wy {
                    assert(map.cell(p, q) == mb.cell(p, q));
                }
            }
        }
        j = j + 1;
    }
    proof {
        if rooms@.len() + corridor_cells@.len() <= usize::MAX {
            assert(node_labels(&m0, rooms@, corridor_cells@, roomid@, comp@));
            assert(e0 == all_edges(&m0, roomid@, comp@, rooms@, rooms@.len() as int));
            assert forall|kk: int| 0 <= kk < edges@.len() implies e0.contains(#[trigger] edges@[kk]) by {
                lemma_shuffled_from(e0, edges@, kk);
            }
            assert forall|kk: int| 0 <= kk < e0.len() implies joined(map, e0, #[trigger] e0[kk].0 as int, e0[kk].1 as int) by {
                lemma_shuffled_from(edges@, e0, kk);
                let jj = choose|jj: int| 0 <= jj < edges@.len() && edges@[jj] == e0[kk];
                assert(joined(map, edges@, edges@[jj].0 as int, edges@[jj].1 as int));
                lemma_joined_sub(map, edges@, e0, e0[kk].0 as int, e0[kk].1 as int);
            }
            assert forall|u: int, v: int| #[trigger] linked(e0, u, v) implies joined(map, e0, u, v) by {
                let p = choose|p: Seq<int>| #[trigger] edge_walk(e0, p) && p.len() >= 1 && p[0] == u && p[p.len() - 1] == v;
                lemma_linked_joined(map, e0, p);
            }
        }
    }
}

/// `m` differs from `m0` only by interior non-goal cells that became EMPTY.
pub open spec fn opened_from(m0: &NobiscuitMap, m: &NobiscuitMap) -> bool {
    &&& m.wf()
    &&& m.spec_width() == m0.spec_width()
    &&& m.spec_height() == m0.spec_height()
    &&& forall|a: int, b: int|
        m0.in_bounds(a, b) ==> (#[trigger] m.cell(a, b) == m0.cell(a, b) || (interior(
            m0.spec_width() as int,
            m0.spec_height() as int,
            a,
            b,
        ) && m0.cell(a, b) != TILE_GOAL && m.cell(a, b) == TILE_EMPTY))
}

/// Make an interior cell EMPTY unless it holds the goal.
fn open_cell(map: &mut NobiscuitMap, x: usize, y: usize, Ghost(m0): Ghost<NobiscuitMap>)
    requires
        opened_from(&m0, old(map)),
        interior(m0.spec_width() as int, m0.spec_height() as int, x as int, y as int),
        m0.spec_width() <= i32::MAX,
        m0.spec_height() <= i32::MAX,
    ensures
        opened_from(&m0, final(map)),
        final(map).cell(x as int, y as int) == (if old(map).cell(x as int, y as int) == TILE_GOAL {
            TILE_GOAL
        } else {
            TILE_EMPTY
        }),
        forall|a: int, b: int|
            m0.in_bounds(a, b) && (a != x || b != y) ==> #[trigger] final(map).cell(a, b) == old(
                map,
            ).cell(a, b),
{
    if map.get(x as i32, y as i32) != Some(TILE_GOAL) {
        map.set(x, y, TILE_EMPTY);
    }
}

/// One of the three spawn-corner cells `(1,1)`, `(2,1)`, `(1,2)`.
pub open spec fn is_spawn_pocket(x: int, y: int) -> bool {
    (x == 1 && y == 1) || (x == 2 && y == 1) || (x == 1 && y == 2)
}

/// `(a, b)` comes before `(x, y)` in the search for a cell to join the spawn
/// to: nearer to the corner by Manhattan distance first, then by row, then by
/// column.
pub open spec fn spawn_before(a: int, b: int, x: int, y: int) -> bool {
    let d1 = (a - 1) + (b - 1);
    let d2 = (x - 1) + (y - 1);
    d1 < d2 || (d1 == d2 && (b < y || (b == y && a < x)))
}

/// An EMPTY interior cell outside the spawn pocket.
pub open spec fn spawn_candidate(m: &NobiscuitMap, a: int, b: int) -> bool {
    &&& interior(m.spec_width() as int, m.spec_height() as int, a, b)
    &&& m.cell(a, b) == TILE_EMPTY
    &&& !is_spawn_pocket(a, b)
}

/// `(x, y)` is the first candidate in search order.
pub open spec fn nearest_spawn_candidate(m: &NobiscuitMap, x: int, y: int) -> bool {
    &&& spawn_candidate(m, x, y)
    &&& forall|a: int, b: int| #[trigger] spawn_candidate(m, a, b) ==> !spawn_before(a, b, x, y)
}

/// The L-shaped path from the spawn along row 1 to column `tx`, then down to row `ty`.
pub open spec fn on_spawn_path(tx: int, ty: int, a: int, b: int) -> bool {
    (b == 1 && 1 <= a <= tx) || (a == tx && 1 <= b <= ty)
}

/// The cells that the spawn repair opens in `m0`: the pocket, and the path to
/// the nearest candidate when there is one.
pub open spec fn spawn_opens(m0: &NobiscuitMap, a: int, b: int) -> bool {
    is_spawn_pocket(a, b) || exists|tx: int, ty: int|
        #[trigger] nearest_spawn_candidate(m0, tx, ty) && on_spawn_path(tx, ty, a, b)
}

/// What a cell of `m0` becomes when `open` says that it is opened.
pub open spec fn opened_cell(m0: &NobiscuitMap, a: int, b: int, open: bool) -> u8 {
    if open && interior(m0.spec_width() as int, m0.spec_height() as int, a, b) && m0.cell(a, b)
        != TILE_GOAL {
        TILE_EMPTY
    } else {
        m0.cell(a, b)
    }
}

/// `m` is `m0` after the spawn repair: nothing changes when `(1,1)` is EMPTY;
/// otherwise each interior non-goal cell that `spawn_opens` names is EMPTY.
pub open spec fn spawn_repaired(m0: &NobiscuitMap, m: &NobiscuitMap) -> bool {
    &&& m.wf()
    &&& m.spec_width() == m0.spec_width()
    &&& m.spec_height() == m0.spec_height()
    &&& forall|a: int, b: int|
        m0.in_bounds(a, b) ==> #[trigger] m.cell(a, b) == opened_cell(
            m0,
            a,
            b,
            m0.cell(1, 1) != TILE_EMPTY && spawn_opens(m0, a, b),
        )
}

/// Two first candidates are the same cell.
proof fn lemma_nearest_unique(m: &NobiscuitMap, x1: int, y1: int, x2: int, y2: int)
    requires
        nearest_spawn_candidate(m, x1, y1),
        nearest_spawn_candidate(m, x2, y2),
    ensures
        x1 == x2 && y1 == y2,
{
    assert(spawn_candidate(m, x1, y1));
    assert(spawn_candidate(m, x2, y2));
}

/// The first EMPTY interior cell outside the spawn pocket in search order
/// (Manhattan distance from `(1,1)`, then row, then column), if any.
fn nearest_empty(map: &NobiscuitMap, width: usize, height: usize) -> (r: Option<(usize, usize)>)
    requires
        map.wf(),
        map.spec_width() == width,
        map.spec_height() == height,
        3 <= width <= i32::MAX,
        3 <= height <= i32::MAX,
    ensures
        match r {
            Some((tx, ty)) => nearest_spawn_candidate(map, tx as int, ty as int),
            None => forall|a: int, b: int| !#[trigger] spawn_candidate(map, a, b),
        },
{
    let mut target: Option<(usize, usize)> = None;
    let mut radius: usize = 2;
    while radius < width + height && target.is_none()
        invariant
            2 <= radius <= width + height,
            map.wf(),
            map.spec_width() == width,
            map.spec_height() == height,
            3 <= width <= i32::MAX,
            3 <= height <= i32::MAX,
            match target {
                Some((tx, ty)) => nearest_spawn_candidate(map, tx as int, ty as int),
                None => forall|a: int, b: int|
                    #[trigger] spawn_candidate(map, a, b) ==> (a - 1) + (b - 1) >= radius,
            },
        decreases width + height - radius,
    {
        let mut yy: usize = 1;
        while yy < height - 1 && target.is_none()
            invariant
                1 <= yy <= height - 1,
                2 <= radius < width + height,
                map.wf(),
                map.spec_width() == width,
                map.spec_height() == height,
                3 <= width <= i32::MAX,
                3 <= height <= i32::MAX,
                match target {
                    Some((tx, ty)) => nearest_spawn_candidate(map, tx as int, ty as int),
                    None => forall|a: int, b: int|
                        #[trigger] spawn_candidate(map, a, b) ==> (a - 1) + (b - 1) > radius || (
                        (a - 1) + (b - 1) == radius && b >= yy),
                },
            decreases height - 1 - yy,
        {
            let mut xx: usize = 1;
            while xx < width - 1 && target.is_none()
                invariant
                    1 <= xx <= width - 1,
                    1 <= yy < height - 1,
                    2 <= radius < width + height,
                    map.wf(),
                    map.spec_width() == width,
                    map.spec_height() == height,
                    3 <= width <= i32::MAX,
                    3 <= height <= i32::MAX,
                    match target {
                        Some((tx, ty)) => nearest_spawn_candidate(map, tx as int, ty as int),
                        None => forall|a: int, b: int|
                            #[trigger] spawn_candidate(map, a, b) ==> (a - 1) + (b - 1) > radius
                                || ((a - 1) + (b - 1) == radius && (b > yy || (b == yy && a
                                >= xx))),
                    },
                decreases width - 1 - xx,
            {
                let d = (xx - 1) + (yy - 1);
                if d == radius && map.get(xx as i32, yy as i32) == Some(TILE_EMPTY) && !((xx == 1
                    && yy == 1) || (xx == 2 && yy == 1) || (xx == 1 && yy == 2)) {
                    target = Some((xx, yy));
                } else {
                    assert(!spawn_candidate(map, xx as int, yy as int) || d != radius);
                }
                xx = xx + 1;
            }
            yy = yy + 1;
        }
        radius = radius + 1;
    }
    target
}

/// Guarantee the player spawn `(1,1)` is walkable and connected to the layout.
///
/// When `(1,1)` is not EMPTY, the corner pocket `(1,1)`, `(2,1)`, `(1,2)` is
/// opened, and a width-1 path is carved along row 1 and then down the column of
/// the nearest EMPTY cell. Goal cells are never overwritten.
#[verifier::rlimit(50)]
pub fn ensure_spawn_walkable(map: &mut NobiscuitMap, width: usize, height: usize)
    requires
        old(map).wf(),
        old(map).spec_width() == width,
        old(map).spec_height() == height,
        3 <= width <= i32::MAX,
        3 <= height <= i32::MAX,
    ensures
        spawn_repaired(old(map), final(map)),
        opened_from(old(map), final(map)),
        final(map).cell(1, 1) == TILE_EMPTY || final(map).cell(1, 1) == TILE_GOAL,
{
    let ghost m0 = *map;
    if map.get(1, 1) == Some(TILE_EMPTY) {
        return;
    }
    // Open the corner pocket.
    open_cell(map, 1, 1, Ghost(m0));
    if 2 < width - 1 {
        open_cell(map, 2, 1, Ghost(m0));
    }
    if 2 < height - 1 {
        open_cell(map, 1, 2, Ghost(m0));
    }
    assert forall|a: int, b: int| m0.in_bounds(a, b) implies #[trigger] map.cell(a, b)
        == opened_cell(&m0, a, b, is_spawn_pocket(a, b)) by {}
    let ghost m1 = *map;
    assert forall|a: int, b: int| #[trigger] spawn_candidate(&m1, a, b) == spawn_candidate(
        &m0,
        a,
        b,
    ) by {
        if interior(width as int, height as int, a, b) && !is_spawn_pocket(a, b) {
            assert(m1.cell(a, b) == m0.cell(a, b));
        }
    }
    // Carve a straight path to the nearest existing EMPTY cell.
    let target = nearest_empty(map, width, height);
    if let Some((tx, ty)) = target {
        assert(nearest_spawn_candidate(&m0, tx as int, ty as int)) by {
            assert(spawn_candidate(&m1, tx as int, ty as int));
            assert forall|a: int, b: int| #[trigger] spawn_candidate(&m0, a, b) implies !spawn_before(
                a,
                b,
                tx as int,
                ty as int,
            ) by {
                assert(spawn_candidate(&m1, a, b));
            }
        }
        let mut x: usize = 1;
        while x != tx
            invariant
                1 <= x <= tx < width - 1,
                1 <= ty < height - 1,
                opened_from(&m0, map),
                m0.spec_width() == width,
                m0.spec_height() == height,
                3 <= width <= i32::MAX,
                3 <= height <= i32::MAX,
                forall|a: int, b: int|
                    m0.in_bounds(a, b) ==> #[trigger] map.cell(a, b) == opened_cell(
                        &m0,
                        a,
                        b,
                        is_spawn_pocket(a, b) || (b == 1 && 1 <= a <= x),
                    ),
            decreases tx - x,
        {
            x = x + 1;
            open_cell(map, x, 1, Ghost(m0));
        }
        let mut y: usize = 1;
        while y != ty
            invariant
                1 <= y <= ty < height - 1,
                1 <= tx < width - 1,
                opened_from(&m0, map),
                m0.spec_width() == width,
                m0.spec_height() == height,
                3 <= width <= i32::MAX,
                3 <= height <= i32::MAX,
                forall|a: int, b: int|
                    m0.in_bounds(a, b) ==> #[trigger] map.cell(a, b) == opened_cell(
                        &m0,
                        a,
                        b,
                        is_spawn_pocket(a, b) || on_spawn_path(tx as int, y as int, a, b),
                    ),
            decreases ty - y,
        {
            y = y + 1;
            open_cell(map, tx, y, Ghost(m0));
        }
        assert forall|a: int, b: int| #[trigger]
            spawn_opens(&m0, a, b) == (is_spawn_pocket(a, b) || on_spawn_path(
                tx as int,
                ty as int,
                a,
                b,
            )) by {
            if spawn_opens(&m0, a, b) && !is_spawn_pocket(a, b) {
                let (x2, y2) = choose|x2: int, y2: int|
                    #[trigger] nearest_spawn_candidate(&m0, x2, y2) && on_spawn_path(x2, y2, a, b);
                lemma_nearest_unique(&m0, x2, y2, tx as int, ty as int);
            }
        }
    } else {
        assert forall|a: int, b: int| #[trigger] spawn_opens(&m0, a, b) == is_spawn_pocket(a, b) by {
            if spawn_opens(&m0, a, b) && !is_spawn_pocket(a, b) {
                let (x2, y2) = choose|x2: int, y2: int|
                    #[trigger] nearest_spawn_candidate(&m0, x2, y2) && on_spawn_path(x2, y2, a, b);
                assert(spawn_candidate(&m1, x2, y2));
            }
        }
    }
}

} // verus!
