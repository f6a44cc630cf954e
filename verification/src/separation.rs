//! The separation of overlapping rooms: rooms that overlap are pushed apart
//! along the line between their centres, step by step.

use vstd::prelude::*;
use crate::generation::{dims_of, lemma_more_rooms_keep_ranges, rooms_ok, MapArea, WorldgenSettings};
use crate::room::{is_overlapping, overlapping, IVec2, Room, RoomDimensions, WORLD_LIMIT};

verus! {

/// How many rounds of separation are made at most.
pub const SEPARATION_ROUNDS: usize = 5000;

/// The largest whole number whose square is not above `n`.
pub open spec fn root(n: nat) -> nat
    decreases n,
{
    if n == 0 {
        0
    } else if (root((n - 1) as nat) + 1) * (root((n - 1) as nat) + 1) <= n {
        root((n - 1) as nat) + 1
    } else {
        root((n - 1) as nat)
    }
}

/// The square of the root is not above `n`, and the next square is.
pub proof fn lemma_root_bounds(n: nat)
    ensures
        root(n) * root(n) <= n < (root(n) + 1) * (root(n) + 1),
    decreases n,
{
    if n > 0 {
        lemma_root_bounds((n - 1) as nat);
        let r = root((n - 1) as nat);
        let s = root(n);
        if (r + 1) * (r + 1) <= n {
            assert(s == r + 1);
            assert(s * s <= n < (s + 1) * (s + 1)) by (nonlinear_arith)
                requires
                    s == r + 1,
                    r >= 0,
                    (r + 1) * (r + 1) <= n,
                    n - 1 < (r + 1) * (r + 1),
            ;
        } else {
            assert(s == r);
            assert(s * s <= n < (s + 1) * (s + 1)) by (nonlinear_arith)
                requires
                    s == r,
                    r * r <= n - 1,
                    n < (r + 1) * (r + 1),
            ;
        }
    } else {
        assert(root(0) == 0);
        assert(root(0) * root(0) <= 0 < (root(0) + 1) * (root(0) + 1)) by (nonlinear_arith)
            requires
                root(0) == 0,
        ;
    }
}

/// Only the root lies between the two squares.
pub proof fn lemma_root_unique(n: nat, r: nat)
    requires
        r * r <= n < (r + 1) * (r + 1),
    ensures
        r == root(n),
{
    lemma_root_bounds(n);
    let s = root(n);
    if r < s {
        assert((r + 1) * (r + 1) <= s * s) by (nonlinear_arith)
            requires
                0 <= r + 1 <= s,
        ;
    }
    if s < r {
        assert((s + 1) * (s + 1) <= r * r) by (nonlinear_arith)
            requires
                0 <= s + 1 <= r,
        ;
    }
}

/// The largest whole number whose square is not above `n`.
pub fn integer_root(n: u128) -> (r: u64)
    ensures
        r == root(n as nat),
{
    let mut lo: u128 = 0;
    let mut hi: u128 = 0x1_0000_0000_0000_0000;
    assert(n < hi * hi) by (nonlinear_arith)
        requires
            hi == 0x1_0000_0000_0000_0000,
            n <= 0xffff_ffff_ffff_ffff_ffff_ffff_ffff_ffff,
    ;
    assert(lo * lo <= n) by (nonlinear_arith)
        requires
            lo == 0,
            n >= 0,
    ;
    while hi - lo > 1
        invariant
            lo < hi <= 0x1_0000_0000_0000_0000,
            lo * lo <= n < hi * hi,
        decreases hi - lo,
    {
        let mid: u128 = lo + (hi - lo) / 2;
        assert(mid * mid <= 0xffff_ffff_ffff_ffff * 0xffff_ffff_ffff_ffff) by (nonlinear_arith)
            requires
                0 <= mid <= 0xffff_ffff_ffff_ffff,
        ;
        if mid * mid <= n {
            lo = mid;
        } else {
            hi = mid;
        }
    }
    proof {
        lemma_root_unique(n as nat, lo as nat);
    }
    lo as u64
}

/// How far a room is pushed along one axis in one step: the share of the
/// factor that falls on this axis, where `d` is the distance between the
/// centres on this axis and `other` on the other one, rounded toward zero.
/// Rooms with the same centre are not pushed.
pub open spec fn push(d: int, other: int, factor: int) -> int {
    if d == 0 {
        0
    } else if d > 0 {
        root(((factor * factor) * (d * d) / (d * d + other * other)) as nat) as int
    } else {
        -(root(((factor * factor) * (d * d) / (d * d + other * other)) as nat) as int)
    }
}

/// Computes how far a room is pushed along one axis in one step.
pub fn compute_push(d: i64, other: i64, factor: u32) -> (r: i64)
    requires
        -0x4000_0000 <= d <= 0x4000_0000,
        -0x4000_0000 <= other <= 0x4000_0000,
    ensures
        r == push(d as int, other as int, factor as int),
        -0x1_0000_0000 < r < 0x1_0000_0000,
{
    if d == 0 {
        return 0;
    }
    assert(0 <= factor * factor <= 0xffff_ffff * 0xffff_ffff) by (nonlinear_arith)
        requires
            0 <= factor <= 0xffff_ffff,
    ;
    let f2: u128 = (factor as u128) * (factor as u128);
    assert(0 < d * d <= 0x1000_0000_0000_0000) by (nonlinear_arith)
        requires
            -0x4000_0000 <= d <= 0x4000_0000,
            d != 0,
    ;
    assert(0 <= other * other <= 0x1000_0000_0000_0000) by (nonlinear_arith)
        requires
            -0x4000_0000 <= other <= 0x4000_0000,
    ;
    assert(f2 <= 0xffff_ffff * 0xffff_ffff) by (nonlinear_arith)
        requires
            f2 == factor * factor,
            0 <= factor <= 0xffff_ffff,
    ;
    let d2: u128 = ((d as i128) * (d as i128)) as u128;
    let o2: u128 = ((other as i128) * (other as i128)) as u128;
    assert(f2 * d2 <= 0xffff_ffff * 0xffff_ffff * 0x1000_0000_0000_0000) by (nonlinear_arith)
        requires
            0 <= f2 <= 0xffff_ffff * 0xffff_ffff,
            0 <= d2 <= 0x1000_0000_0000_0000,
    ;
    let share: u128 = f2 * d2 / (d2 + o2);
    assert(share <= f2) by {
        assert(f2 * d2 <= f2 * (d2 + o2)) by (nonlinear_arith)
            requires
                f2 >= 0,
                d2 >= 0,
                o2 >= 0,
        ;
        vstd::arithmetic::div_mod::lemma_div_is_ordered(
            (f2 * d2) as int,
            (f2 * (d2 + o2)) as int,
            (d2 + o2) as int,
        );
        vstd::arithmetic::div_mod::lemma_div_multiples_vanish(f2 as int, (d2 + o2) as int);
        assert(f2 * (d2 + o2) == (d2 + o2) * f2) by (nonlinear_arith);
    }
    let m: u64 = integer_root(share);
    proof {
        lemma_root_bounds(share as nat);
        assert(m <= 0xffff_ffff) by {
            if m > 0xffff_ffff {
                assert(m * m >= 0x1_0000_0000 * 0x1_0000_0000) by (nonlinear_arith)
                    requires
                        m >= 0x1_0000_0000,
                ;
            }
        }
    }
    if d > 0 {
        m as i64
    } else {
        -(m as i64)
    }
}

/// The rectangle moved by `(px, py)`, or as it is where the move would
/// take it out of the world.
pub open spec fn pushed(room: RoomDimensions, px: int, py: int) -> RoomDimensions {
    if -WORLD_LIMIT <= room.anchor.x + px && room.end_x() + px <= WORLD_LIMIT && -WORLD_LIMIT
        <= room.anchor.y + py && room.end_y() + py <= WORLD_LIMIT {
        room.moved(px, py)
    } else {
        room
    }
}

/// The rooms after one step of the separation: where the rooms `a` and `b`
/// overlap, each is pushed away from the other along the line between their
/// centres, unless its position is fixed.
pub open spec fn separation_step(
    rooms: Seq<RoomDimensions>,
    fixed: Seq<bool>,
    a: int,
    b: int,
    factor: u32,
) -> Seq<RoomDimensions> {
    if overlapping(rooms[a], rooms[b]) {
        let dx = rooms[b].center2_x() - rooms[a].center2_x();
        let dy = rooms[b].center2_y() - rooms[a].center2_y();
        let px = push(dx, dy, factor as int);
        let py = push(dy, dx, factor as int);
        let first = if fixed[a] {
            rooms
        } else {
            rooms.update(a, pushed(rooms[a], -px, -py))
        };
        if fixed[b] {
            first
        } else {
            first.update(b, pushed(first[b], px, py))
        }
    } else {
        rooms
    }
}

/// The rooms after the room `a` has been dealt with against the rooms
/// after it, up to, not including, the room `b`.
pub open spec fn pass_one(
    rooms: Seq<RoomDimensions>,
    fixed: Seq<bool>,
    factor: u32,
    a: int,
    b: int,
) -> Seq<RoomDimensions>
    decreases b - a,
{
    if b <= a + 1 {
        rooms
    } else {
        separation_step(pass_one(rooms, fixed, factor, a, b - 1), fixed, a, b - 1, factor)
    }
}

/// The rooms after the first `a` rooms have each been dealt with against
/// the rooms after it.
pub open spec fn pass_upto(rooms: Seq<RoomDimensions>, fixed: Seq<bool>, factor: u32, a: int) -> Seq<
    RoomDimensions,
>
    decreases a,
{
    if a <= 0 {
        rooms
    } else {
        pass_one(pass_upto(rooms, fixed, factor, a - 1), fixed, factor, a - 1, rooms.len() as int)
    }
}

/// Some two rooms overlap.
pub open spec fn overlap_exists(rooms: Seq<RoomDimensions>) -> bool {
    exists|i: int, j: int| 0 <= i < j < rooms.len() && overlapping(#[trigger] rooms[i], #[trigger] rooms[j])
}

/// The rooms after the separation: rounds are made, each dealing with
/// every pair of rooms once, until no two rooms overlap or `rounds` rounds
/// have been made.
pub open spec fn separated(
    rooms: Seq<RoomDimensions>,
    fixed: Seq<bool>,
    factor: u32,
    rounds: nat,
) -> Seq<RoomDimensions>
    decreases rounds,
{
    if rounds == 0 || !overlap_exists(rooms) {
        rooms
    } else {
        separated(
            pass_upto(rooms, fixed, factor, rooms.len() as int),
            fixed,
            factor,
            (rounds - 1) as nat,
        )
    }
}

/// How many rounds the separation makes: as many as it takes until no two
/// rooms overlap, and `rounds` at most.
pub open spec fn rounds_made(
    rooms: Seq<RoomDimensions>,
    fixed: Seq<bool>,
    factor: u32,
    rounds: nat,
) -> nat
    decreases rounds,
{
    if rounds == 0 || !overlap_exists(rooms) {
        0
    } else {
        1 + rounds_made(
            pass_upto(rooms, fixed, factor, rooms.len() as int),
            fixed,
            factor,
            (rounds - 1) as nat,
        )
    }
}

/// The separation ends without overlap or at the cap: where it makes fewer
/// rounds than it may, no two rooms overlap in the end.
pub proof fn lemma_separation_ends(
    rooms: Seq<RoomDimensions>,
    fixed: Seq<bool>,
    factor: u32,
    rounds: nat,
)
    ensures
        rounds_made(rooms, fixed, factor, rounds) <= rounds,
        rounds_made(rooms, fixed, factor, rounds) < rounds ==> !overlap_exists(
            separated(rooms, fixed, factor, rounds),
        ),
    decreases rounds,
{
    if rounds > 0 && overlap_exists(rooms) {
        lemma_separation_ends(
            pass_upto(rooms, fixed, factor, rooms.len() as int),
            fixed,
            factor,
            (rounds - 1) as nat,
        );
    }
}

/// Which of the rooms have a fixed position.
pub open spec fn fixed_of(rooms: Seq<Room>) -> Seq<bool> {
    rooms.map_values(|r: Room| r.is_position_fixed)
}

/// `after` holds the rooms of `before`, each as it was but for its place.
pub open spec fn only_moved(before: Seq<Room>, after: Seq<Room>) -> bool {
    &&& after.len() == before.len()
    &&& forall|i: int|
        0 <= i < before.len() ==> #[trigger] after[i] == (Room {
            world_pos: after[i].world_pos,
            ..before[i]
        })
}

/// Moves a room by `(px, py)`, unless that would take it out of the world.
pub fn move_room(room: &mut Room, px: i64, py: i64)
    requires
        old(room).dims().in_world(),
        -0x1_0000_0000 < px < 0x1_0000_0000,
        -0x1_0000_0000 < py < 0x1_0000_0000,
    ensures
        final(room).dims() == pushed(old(room).dims(), px as int, py as int),
        final(room).dims().in_world(),
        *final(room) == (Room { world_pos: final(room).world_pos, ..*old(room) }),
{
    let d = room.dimensions();
    let x: i64 = d.anchor.x as i64 + px;
    let y: i64 = d.anchor.y as i64 + py;
    let limit: i64 = WORLD_LIMIT as i64;
    if -limit <= x && x + d.length as i64 <= limit && -limit <= y && y + d.height as i64 <= limit {
        room.world_pos = IVec2 { x: x as i32, y: y as i32 };
    }
}

/// Whether some two rooms overlap.
pub fn rooms_overlap_exists(rooms: &Vec<Room>) -> (r: bool)
    ensures
        r == overlap_exists(dims_of(rooms@)),
{
    let n: usize = rooms.len();
    let ghost dims = dims_of(rooms@);
    let mut i: usize = 0;
    while i < n
        invariant
            n == rooms@.len(),
            dims == dims_of(rooms@),
            i <= n,
            forall|a: int, b: int|
                0 <= a < b < n && a < i ==> !overlapping(#[trigger] dims[a], #[trigger] dims[b]),
        decreases n - i,
    {
        let mut j: usize = i + 1;
        while j < n
            invariant
                n == rooms@.len(),
                dims == dims_of(rooms@),
                i < n,
                i < j <= n,
                forall|a: int, b: int|
                    0 <= a < b < n && a < i ==> !overlapping(#[trigger] dims[a], #[trigger] dims[b]),
                forall|b: int| i < b < j ==> !overlapping(dims[i as int], #[trigger] dims[b]),
            decreases n - j,
        {
            if is_overlapping(&rooms[i].dimensions(), &rooms[j].dimensions()) {
                assert(overlapping(dims[i as int], dims[j as int]));
                return true;
            }
            j += 1;
        }
        i += 1;
    }
    false
}

/// Pushes overlapping rooms apart: rounds are made, each dealing with
/// every pair of rooms once, until no two rooms overlap or
/// `SEPARATION_ROUNDS` rounds have been made. Returns the number of rounds
/// made. Rooms with a fixed position stay, and a room stays where a step
/// would push it out of the world.
pub fn separate_rooms(map: &mut MapArea, worldgen: &WorldgenSettings) -> (r: usize)
    requires
        old(map).wf(),
    ensures
        final(map).wf(),
        only_moved(old(map).rooms@, final(map).rooms@),
        dims_of(final(map).rooms@) == separated(
            dims_of(old(map).rooms@),
            fixed_of(old(map).rooms@),
            worldgen.separation_factor,
            SEPARATION_ROUNDS as nat,
        ),
        r == rounds_made(
            dims_of(old(map).rooms@),
            fixed_of(old(map).rooms@),
            worldgen.separation_factor,
            SEPARATION_ROUNDS as nat,
        ),
        r <= SEPARATION_ROUNDS,
        r < SEPARATION_ROUNDS ==> !overlap_exists(dims_of(final(map).rooms@)),
        forall|i: int|
            0 <= i < old(map).rooms@.len() && old(map).rooms@[i].is_position_fixed
                ==> #[trigger] final(map).rooms@[i] == old(map).rooms@[i],
        final(map).initial_connections == old(map).initial_connections,
        final(map).triangulation == old(map).triangulation,
        final(map).graph == old(map).graph,
        final(map).connections == old(map).connections,
{
    let n: usize = map.rooms.len();
    let factor: u32 = worldgen.separation_factor;
    let ghost start = dims_of(map.rooms@);
    let ghost fixed = fixed_of(map.rooms@);
    let mut iteration_count: usize = 0;
    while iteration_count < SEPARATION_ROUNDS && rooms_overlap_exists(&map.rooms)
        invariant
            n == old(map).rooms@.len(),
            factor == worldgen.separation_factor,
            start == dims_of(old(map).rooms@),
            fixed == fixed_of(old(map).rooms@),
            iteration_count <= SEPARATION_ROUNDS,
            old(map).wf(),
            rooms_ok(map.rooms@),
            only_moved(old(map).rooms@, map.rooms@),
            separated(start, fixed, factor, SEPARATION_ROUNDS as nat) == separated(
                dims_of(map.rooms@),
                fixed,
                factor,
                (SEPARATION_ROUNDS - iteration_count) as nat,
            ),
            rounds_made(start, fixed, factor, SEPARATION_ROUNDS as nat) == iteration_count
                + rounds_made(
                dims_of(map.rooms@),
                fixed,
                factor,
                (SEPARATION_ROUNDS - iteration_count) as nat,
            ),
            forall|i: int|
                0 <= i < n && old(map).rooms@[i].is_position_fixed ==> #[trigger] map.rooms@[i] == old(
                    map,
                ).rooms@[i],
            map.initial_connections == old(map).initial_connections,
            map.triangulation == old(map).triangulation,
            map.graph == old(map).graph,
            map.connections == old(map).connections,
        decreases SEPARATION_ROUNDS - iteration_count,
    {
        let ghost round_start = dims_of(map.rooms@);
        let mut a: usize = 0;
        while a < n
            invariant
                n == old(map).rooms@.len(),
                factor == worldgen.separation_factor,
                fixed == fixed_of(old(map).rooms@),
                round_start.len() == n,
                a <= n,
                old(map).wf(),
                rooms_ok(map.rooms@),
                only_moved(old(map).rooms@, map.rooms@),
                dims_of(map.rooms@) == pass_upto(round_start, fixed, factor, a as int),
                forall|i: int|
                    0 <= i < n && old(map).rooms@[i].is_position_fixed ==> #[trigger] map.rooms@[i]
                        == old(map).rooms@[i],
                map.initial_connections == old(map).initial_connections,
                map.triangulation == old(map).triangulation,
                map.graph == old(map).graph,
                map.connections == old(map).connections,
            decreases n - a,
        {
            let ghost row_start = dims_of(map.rooms@);
            let mut b: usize = a + 1;
            while b < n
                invariant
                    n == old(map).rooms@.len(),
                    factor == worldgen.separation_factor,
                    fixed == fixed_of(old(map).rooms@),
                    a < n,
                    a < b <= n,
                    old(map).wf(),
                    rooms_ok(map.rooms@),
                    only_moved(old(map).rooms@, map.rooms@),
                    dims_of(map.rooms@) == pass_one(row_start, fixed, factor, a as int, b as int),
                    forall|i: int|
                        0 <= i < n && old(map).rooms@[i].is_position_fixed ==> #[trigger] map.rooms@[i]
                            == old(map).rooms@[i],
                    map.initial_connections == old(map).initial_connections,
                    map.triangulation == old(map).triangulation,
                    map.graph == old(map).graph,
                    map.connections == old(map).connections,
                decreases n - b,
            {
                let ghost before = map.rooms@;
                let da = map.rooms[a].dimensions();
                let db = map.rooms[b].dimensions();
                assert(dims_of(before)[a as int] == da);
                assert(dims_of(before)[b as int] == db);
                assert(fixed[a as int] == before[a as int].is_position_fixed);
                assert(fixed[b as int] == before[b as int].is_position_fixed);
                if is_overlapping(&da, &db) {
                    let ca: (i64, i64) = da.center_doubled();
                    let cb: (i64, i64) = db.center_doubled();
                    let dx: i64 = cb.0 - ca.0;
                    let dy: i64 = cb.1 - ca.1;
                    let px: i64 = compute_push(dx, dy, factor);
                    let py: i64 = compute_push(dy, dx, factor);
                    if !map.rooms[a].is_position_fixed {
                        move_room(&mut map.rooms[a], -px, -py);
                    }
                    let ghost between = map.rooms@;
                    if !map.rooms[b].is_position_fixed {
                        move_room(&mut map.rooms[b], px, py);
                    }
                    proof {
                        let first = if fixed[a as int] {
                            dims_of(before)
                        } else {
                            dims_of(before).update(a as int, pushed(da, -px as int, -py as int))
                        };
                        assert(dims_of(between) =~= first);
                        assert(between[b as int] == before[b as int]);
                        assert(dims_of(map.rooms@) =~= separation_step(
                            dims_of(before),
                            fixed,
                            a as int,
                            b as int,
                            factor,
                        ));
                    }
                }
                b += 1;
            }
            a += 1;
        }
        iteration_count += 1;
    }
    proof {
        lemma_moved_rooms_keep_wf(*old(map), *map);
    }
    iteration_count
}

/// A map whose rooms only moved, inside the world, stays well formed.
pub proof fn lemma_moved_rooms_keep_wf(before: MapArea, after: MapArea)
    requires
        before.wf(),
        rooms_ok(after.rooms@),
        only_moved(before.rooms@, after.rooms@),
        after.initial_connections == before.initial_connections,
        after.triangulation == before.triangulation,
        after.graph == before.graph,
        after.connections == before.connections,
    ensures
        after.wf(),
{
    crate::postprocess::lemma_same_details_same_main(before.rooms@, after.rooms@);
    lemma_more_rooms_keep_ranges(before, after);
}

} // verus!
