//! Decorations that fill the inside of a room: pillars and caves.

use vstd::prelude::*;
use grid::Grid;
use crate::rng::WorldgenRng;
use crate::room::{area_filled, on_border, Room, Tile};
use crate::spacing::{even_space, lemma_even_space_bound, lin_space_nth};
use crate::tile_grid::{
    grid_cells, grid_cols, grid_get, grid_new, grid_rows, grid_set, grid_wf, grid_width,
};

verus! {

/// A decoration of a room.
#[derive(Clone, Copy, Debug)]
pub enum Aesthetics {
    Pillars(Pillars),
    CellularAutomata(CellularAutomata),
}

/// Evenly spaced square pillars.
#[derive(Clone, Copy, Debug)]
pub struct Pillars {
    /// How many pillars stand along an axis.
    pub amount: usize,
    /// The side of a pillar, in tiles.
    pub pillar_size: usize,
    pub generation_type: PillarGenerationType,
}

/// Along which axes pillars are spread.
#[derive(Clone, Copy, Debug)]
pub enum PillarGenerationType {
    /// Along one axis, each pillar at a random place on the other.
    Axis(Axis),
    /// On a grid over both axes.
    BothAxes,
}

#[derive(Clone, Copy, Debug)]
pub enum Axis {
    X,
    Y,
}

/// A cave grown from random noise by a cellular automaton.
#[derive(Clone, Copy, Debug)]
pub struct CellularAutomata {
    /// How often the smoothing rule is applied.
    pub iterations: usize,
    /// Chance of an inner tile to start as wall, in per cent.
    pub wall_percentage: u32,
}

/// Where a pillar of side `size` with its anchor at `a` starts on an axis:
/// half a size below the anchor, and not below zero.
pub open spec fn pillar_start(a: usize, size: usize) -> int {
    if a >= size / 2 {
        a - size / 2
    } else {
        0
    }
}

/// Where a pillar of side `size` with its anchor at `a` ends on an axis.
pub open spec fn pillar_end(a: usize, size: usize) -> int {
    if size == 0 {
        pillar_start(a, size)
    } else {
        a + size - size / 2
    }
}

/// The tiles with a pillar of walls of side `size` at the given anchor.
pub open spec fn with_pillar(tiles: Seq<Seq<Tile>>, anchor: (usize, usize), size: usize) -> Seq<
    Seq<Tile>,
> {
    area_filled(
        tiles,
        pillar_start(anchor.0, size),
        pillar_end(anchor.0, size),
        pillar_start(anchor.1, size),
        pillar_end(anchor.1, size),
        Tile::Wall,
    )
}

/// The tiles with pillars at the first `k` anchors.
pub open spec fn pillars_placed(
    tiles: Seq<Seq<Tile>>,
    anchors: Seq<(usize, usize)>,
    size: usize,
    k: int,
) -> Seq<Seq<Tile>>
    decreases k,
{
    if k <= 0 {
        tiles
    } else {
        with_pillar(pillars_placed(tiles, anchors, size, k - 1), anchors[k - 1], size)
    }
}

/// `value` is one of the evenly spaced positions.
pub open spec fn is_spaced(value: usize, end: usize, steps: usize) -> bool {
    exists|n: usize| n < steps && value == #[trigger] even_space(end, steps, n)
}

impl Pillars {
    /// The pillars can be counted.
    pub open spec fn valid(&self) -> bool {
        self.amount < usize::MAX
    }

    /// The anchors are laid out as the pillars ask for in a room of the
    /// given size: evenly spaced along the chosen axis, the first position,
    /// which is zero, left out, and at one of the evenly spaced positions
    /// of the other axis; or, for both axes, on the grid of all pairs of
    /// positions, column by column.
    pub open spec fn lays_out(&self, anchors: Seq<(usize, usize)>, length: usize, height: usize) -> bool {
        let steps = (self.amount + 1) as usize;
        match self.generation_type {
            PillarGenerationType::Axis(Axis::X) => {
                &&& anchors.len() == self.amount
                &&& forall|i: int|
                    0 <= i < anchors.len() ==> {
                        &&& (#[trigger] anchors[i]).0 == even_space(length, steps, (i + 1) as usize)
                        &&& is_spaced(anchors[i].1, height, steps)
                    }
            },
            PillarGenerationType::Axis(Axis::Y) => {
                &&& anchors.len() == self.amount
                &&& forall|i: int|
                    0 <= i < anchors.len() ==> {
                        &&& is_spaced((#[trigger] anchors[i]).0, length, steps)
                        &&& anchors[i].1 == even_space(height, steps, (i + 1) as usize)
                    }
            },
            PillarGenerationType::BothAxes => {
                &&& anchors.len() == self.amount * self.amount
                &&& forall|i: int, j: int|
                    0 <= i < self.amount && 0 <= j < self.amount ==> {
                        &&& (#[trigger] anchors[i * self.amount + j]).0 == even_space(
                            length,
                            steps,
                            (i + 1) as usize,
                        )
                        &&& anchors[i * self.amount + j].1 == even_space(
                            height,
                            steps,
                            (j + 1) as usize,
                        )
                    }
            },
        }
    }

    /// Chooses where the pillars stand in a room of the given size.
    pub fn pillar_anchors(&self, length: usize, height: usize, rng: &mut WorldgenRng) -> (r: Vec<
        (usize, usize),
    >)
        requires
            self.valid(),
        ensures
            self.lays_out(r@, length, height),
    {
        let steps: usize = self.amount + 1;
        let mut pillar_anchors: Vec<(usize, usize)> = Vec::new();
        match self.generation_type {
            PillarGenerationType::Axis(Axis::X) => {
                let mut i: usize = 0;
                while i < self.amount
                    invariant
                        steps == self.amount + 1,
                        i <= self.amount,
                        pillar_anchors@.len() == i,
                        forall|k: int|
                            0 <= k < i ==> {
                                &&& (#[trigger] pillar_anchors@[k]).0 == even_space(
                                    length,
                                    steps,
                                    (k + 1) as usize,
                                )
                                &&& is_spaced(pillar_anchors@[k].1, height, steps)
                            },
                    decreases self.amount - i,
                {
                    let x: usize = spaced(length, steps, i + 1);
                    let pick: usize = rng.usize(0, steps - 1);
                    let y: usize = spaced(height, steps, pick);
                    pillar_anchors.push((x, y));
                    i += 1;
                }
            },
            PillarGenerationType::Axis(Axis::Y) => {
                let mut i: usize = 0;
                while i < self.amount
                    invariant
                        steps == self.amount + 1,
                        i <= self.amount,
                        pillar_anchors@.len() == i,
                        forall|k: int|
                            0 <= k < i ==> {
                                &&& is_spaced((#[trigger] pillar_anchors@[k]).0, length, steps)
                                &&& pillar_anchors@[k].1 == even_space(
                                    height,
                                    steps,
                                    (k + 1) as usize,
                                )
                            },
                    decreases self.amount - i,
                {
                    let pick: usize = rng.usize(0, steps - 1);
                    let x: usize = spaced(length, steps, pick);
                    let y: usize = spaced(height, steps, i + 1);
                    pillar_anchors.push((x, y));
                    i += 1;
                }
            },
            PillarGenerationType::BothAxes => {
                let amount: usize = self.amount;
                let mut i: usize = 0;
                while i < amount
                    invariant
                        steps == amount + 1,
                        amount == self.amount,
                        i <= amount,
                        pillar_anchors@.len() == i * amount,
                        forall|a: int, b: int|
                            0 <= a < i && 0 <= b < amount ==> {
                                &&& (#[trigger] pillar_anchors@[a * amount + b]).0 == even_space(
                                    length,
                                    steps,
                                    (a + 1) as usize,
                                )
                                &&& pillar_anchors@[a * amount + b].1 == even_space(
                                    height,
                                    steps,
                                    (b + 1) as usize,
                                )
                            },
                    decreases amount - i,
                {
                    let mut j: usize = 0;
                    while j < amount
                        invariant
                            steps == amount + 1,
                            amount == self.amount,
                            i < amount,
                            j <= amount,
                            pillar_anchors@.len() == i * amount + j,
                            forall|a: int, b: int|
                                0 <= a < i && 0 <= b < amount ==> {
                                    &&& (#[trigger] pillar_anchors@[a * amount + b]).0 == even_space(
                                        length,
                                        steps,
                                        (a + 1) as usize,
                                    )
                                    &&& pillar_anchors@[a * amount + b].1 == even_space(
                                        height,
                                        steps,
                                        (b + 1) as usize,
                                    )
                                },
                            forall|b: int|
                                0 <= b < j ==> {
                                    &&& (#[trigger] pillar_anchors@[i * amount + b]).0 == even_space(
                                        length,
                                        steps,
                                        (i + 1) as usize,
                                    )
                                    &&& pillar_anchors@[i * amount + b].1 == even_space(
                                        height,
                                        steps,
                                        (b + 1) as usize,
                                    )
                                },
                        decreases amount - j,
                    {
                        let x: usize = spaced(length, steps, i + 1);
                        let y: usize = spaced(height, steps, j + 1);
                        let ghost before = pillar_anchors@;
                        pillar_anchors.push((x, y));
                        assert forall|a: int, b: int| 0 <= a < i && 0 <= b < amount implies {
                            &&& (#[trigger] pillar_anchors@[a * amount + b]).0 == even_space(
                                length,
                                steps,
                                (a + 1) as usize,
                            )
                            &&& pillar_anchors@[a * amount + b].1 == even_space(
                                height,
                                steps,
                                (b + 1) as usize,
                            )
                        } by {
                            assert(a * amount + b < i * amount) by (nonlinear_arith)
                                requires
                                    0 <= a < i,
                                    0 <= b < amount,
                            ;
                            assert(pillar_anchors@[a * amount + b] == before[a * amount + b]);
                        }
                        assert forall|b: int| 0 <= b < j + 1 implies {
                            &&& (#[trigger] pillar_anchors@[i * amount + b]).0 == even_space(
                                length,
                                steps,
                                (i + 1) as usize,
                            )
                            &&& pillar_anchors@[i * amount + b].1 == even_space(
                                height,
                                steps,
                                (b + 1) as usize,
                            )
                        } by {
                            if b < j {
                                assert(pillar_anchors@[i * amount + b] == before[i * amount + b]);
                            }
                        }
                        j += 1;
                    }
                    assert((i + 1) * amount == i * amount + amount) by (nonlinear_arith);
                    assert forall|a: int, b: int| 0 <= a < i + 1 && 0 <= b < amount implies {
                        &&& (#[trigger] pillar_anchors@[a * amount + b]).0 == even_space(
                            length,
                            steps,
                            (a + 1) as usize,
                        )
                        &&& pillar_anchors@[a * amount + b].1 == even_space(
                            height,
                            steps,
                            (b + 1) as usize,
                        )
                    } by {
                        if a == i {
                            assert(a * amount + b == i * amount + b);
                        }
                    }
                    i += 1;
                }
            },
        }
        pillar_anchors
    }

    /// Places evenly spaced pillars of walls in the room.
    pub fn generate_features(&self, rooms: &mut Room, _destructive: bool, rng: &mut WorldgenRng)
        requires
            old(rooms).wf(),
            self.valid(),
        ensures
            final(rooms).wf(),
            old(rooms).same_frame(final(rooms)),
            exists|anchors: Seq<(usize, usize)>| #[trigger]
                self.lays_out(anchors, old(rooms).dims().length, old(rooms).dims().height)
                    && final(rooms).tiles() == pillars_placed(
                    old(rooms).tiles(),
                    anchors,
                    self.pillar_size,
                    anchors.len() as int,
                ),
    {
        let pillar_anchors = self.pillar_anchors(rooms.length(), rooms.height(), rng);
        place_pillars(rooms, &pillar_anchors, self.pillar_size);
    }
}

/// The `n`-th of `steps` evenly spaced positions from 0 up to `end`.
fn spaced(end: usize, steps: usize, n: usize) -> (r: usize)
    requires
        0 < steps,
        n < steps,
    ensures
        r == even_space(end, steps, n),
        is_spaced(r, end, steps),
{
    proof {
        lemma_even_space_bound(end, steps, n);
    }
    match lin_space_nth(end, steps, n) {
        Some(position) => position,
        None => 0,
    }
}

/// Pokes a pillar of walls of side `size` into the room at each anchor.
pub fn place_pillars(room: &mut Room, anchors: &Vec<(usize, usize)>, size: usize)
    requires
        old(room).wf(),
    ensures
        final(room).wf(),
        old(room).same_frame(final(room)),
        final(room).tiles() == pillars_placed(old(room).tiles(), anchors@, size, anchors@.len() as int),
{
    let half: usize = size / 2;
    let mut k: usize = 0;
    while k < anchors.len()
        invariant
            k <= anchors@.len(),
            half == size / 2,
            room.wf(),
            old(room).same_frame(room),
            room.tiles() == pillars_placed(old(room).tiles(), anchors@, size, k as int),
        decreases anchors@.len() - k,
    {
        let anchor: (usize, usize) = anchors[k];
        let x_lo: usize = if anchor.0 >= half { anchor.0 - half } else { 0 };
        let y_lo: usize = if anchor.1 >= half { anchor.1 - half } else { 0 };
        let x_end: usize = pillar_stop(anchor.0, size);
        let y_end: usize = pillar_stop(anchor.1, size);
        let ghost before = room.tiles();
        room.fill_area(x_lo, x_end, y_lo, y_end, Tile::Wall);
        assert(room.tiles() =~= with_pillar(before, anchor, size)) by {
            assert forall|r: int| 0 <= r < before.len() implies #[trigger] room.tiles()[r] =~= with_pillar(
                before,
                anchor,
                size,
            )[r] by {
                assert(before[r].len() <= isize::MAX);
            }
        }
        k += 1;
    }
}

/// Where a pillar ends on an axis, or the largest number where the end is
/// beyond what can be counted: no room is that large.
fn pillar_stop(a: usize, size: usize) -> (r: usize)
    ensures
        r == pillar_end(a, size) || (r == usize::MAX && pillar_end(a, size) > usize::MAX),
{
    let half: usize = size / 2;
    if size == 0 {
        if a >= half {
            a - half
        } else {
            0
        }
    } else {
        let rest: usize = size - half;
        if a <= usize::MAX - rest {
            a + rest
        } else {
            usize::MAX
        }
    }
}

/// Whether the tile at `(x, y)` exists and is a wall.
pub open spec fn is_wall_at(cells: Seq<Seq<Tile>>, x: int, y: int) -> bool {
    0 <= y < cells.len() && 0 <= x < cells[y].len() && cells[y][x] == Tile::Wall
}

/// Whether the tile at `(x, y)` exists and is no wall.
pub open spec fn is_open_at(cells: Seq<Seq<Tile>>, x: int, y: int) -> bool {
    0 <= y < cells.len() && 0 <= x < cells[y].len() && cells[y][x] != Tile::Wall
}

/// Whether the tile at the offset `(dx, dy)` from `(x, y)` counts: as a
/// wall, or, where the open tiles are counted, as an open tile that is none
/// of the four corners of the window of radius two.
pub open spec fn counts(cells: Seq<Seq<Tile>>, x: int, y: int, dx: int, dy: int, open: bool) -> bool {
    if open {
        !((dx == 2 || dx == -2) && (dy == 2 || dy == -2)) && is_open_at(cells, x + dx, y + dy)
    } else {
        is_wall_at(cells, x + dx, y + dy)
    }
}

/// How many of the first `n` tiles of a row of the window around `(x, y)` count.
pub open spec fn row_count(
    cells: Seq<Seq<Tile>>,
    x: int,
    y: int,
    dy: int,
    radius: int,
    open: bool,
    n: int,
) -> nat
    decreases n,
{
    if n <= 0 {
        0
    } else {
        row_count(cells, x, y, dy, radius, open, n - 1) + (if counts(
            cells,
            x,
            y,
            n - 1 - radius,
            dy,
            open,
        ) {
            1nat
        } else {
            0nat
        })
    }
}

/// How many tiles in the first `m` rows of the window around `(x, y)` count.
pub open spec fn window_count(
    cells: Seq<Seq<Tile>>,
    x: int,
    y: int,
    radius: int,
    open: bool,
    m: int,
) -> nat
    decreases m,
{
    if m <= 0 {
        0
    } else {
        window_count(cells, x, y, radius, open, m - 1) + row_count(
            cells,
            x,
            y,
            m - 1 - radius,
            radius,
            open,
            2 * radius + 1,
        )
    }
}

/// How many of the nine tiles around and at `(x, y)` are walls.
pub open spec fn adjacent_walls(cells: Seq<Seq<Tile>>, x: int, y: int) -> nat {
    window_count(cells, x, y, 1, false, 3)
}

/// How many of the tiles at most two steps from `(x, y)`, the four corners
/// left out, are open.
pub open spec fn nearby_open(cells: Seq<Seq<Tile>>, x: int, y: int) -> nat {
    window_count(cells, x, y, 2, true, 5)
}

/// Whether the smoothing rule makes the tile at `(x, y)` a wall: at least
/// five walls around it, or at most two open tiles near it.
pub open spec fn becomes_wall(cells: Seq<Seq<Tile>>, x: int, y: int) -> bool {
    adjacent_walls(cells, x, y) >= 5 || nearby_open(cells, x, y) <= 2
}

/// The tiles after one round of smoothing: the outer ring is wall, and every
/// other tile is what the rule makes of it.
pub open spec fn cave_step(cells: Seq<Seq<Tile>>) -> Seq<Seq<Tile>> {
    Seq::new(
        cells.len(),
        |r: int|
            Seq::new(
                cells[r].len(),
                |c: int|
                    if on_border(cells.len() as int, cells[r].len() as int, r, c) || becomes_wall(
                        cells,
                        c,
                        r,
                    ) {
                        Tile::Wall
                    } else {
                        Tile::Ground
                    },
            ),
    )
}

/// The tiles after `n` rounds of smoothing.
pub open spec fn cave_steps(cells: Seq<Seq<Tile>>, n: nat) -> Seq<Seq<Tile>>
    decreases n,
{
    if n == 0 {
        cells
    } else {
        cave_step(cave_steps(cells, (n - 1) as nat))
    }
}

/// The noise with the walls of the room put in: a tile is a wall where the
/// noise has a wall or the room has one.
pub open spec fn with_walls_of(noise: Seq<Seq<Tile>>, room: Seq<Seq<Tile>>) -> Seq<Seq<Tile>> {
    Seq::new(
        noise.len(),
        |r: int|
            Seq::new(
                noise[r].len(),
                |c: int|
                    if is_wall_at(room, c, r) {
                        Tile::Wall
                    } else {
                        noise[r][c]
                    },
            ),
    )
}

/// The tiles that a cave starts from: the noise, with the walls of the room
/// put in unless the room is overwritten.
pub open spec fn cave_start(noise: Seq<Seq<Tile>>, room: Seq<Seq<Tile>>, destructive: bool) -> Seq<
    Seq<Tile>,
> {
    if destructive {
        noise
    } else {
        with_walls_of(noise, room)
    }
}

/// The tiles of a room after a cave has been grown in it from the noise.
pub open spec fn cave(
    noise: Seq<Seq<Tile>>,
    room: Seq<Seq<Tile>>,
    iterations: usize,
    destructive: bool,
) -> Seq<Seq<Tile>> {
    cave_steps(cave_start(noise, room, destructive), iterations as nat)
}

/// The tiles are laid out in `rows` rows of `cols` tiles.
pub open spec fn is_rect(cells: Seq<Seq<Tile>>, rows: int, cols: int) -> bool {
    &&& cells.len() == rows
    &&& forall|r: int| 0 <= r < rows ==> (#[trigger] cells[r]).len() == cols
}

/// Whether `c` may be the column that the noise leaves free in a room
/// with `cols` columns: a column at least four columns off either side, or,
/// where the room is too narrow for that, the middle column.
pub open spec fn may_be_free(cols: int, c: int) -> bool {
    if cols > 8 {
        4 <= c <= cols - 5
    } else {
        c == cols / 2
    }
}

/// The noise has a wall at every inner tile outside the column `free`
/// where the chance is 100 per cent or more, and at none where it is zero;
/// the column `free` has no wall but in the outer ring.
pub open spec fn follows_chance(cells: Seq<Seq<Tile>>, rows: int, cols: int, free: int, chance: u32) -> bool {
    forall|r: int, c: int|
        0 <= r < rows && 0 <= c < cols && !on_border(rows, cols, r, c) ==> {
            &&& (c == free || chance == 0) ==> (#[trigger] cells[r][c]) == Tile::Ground
            &&& (c != free && chance >= 100) ==> cells[r][c] == Tile::Wall
        }
}

/// What holds of the noise that a cave starts from, whatever was drawn: it
/// has the size of the room, its outer ring is wall, and one column is left
/// free; with a chance of zero it has no other wall, and with a chance of
/// 100 per cent or more every other tile is a wall.
pub open spec fn is_noise(cells: Seq<Seq<Tile>>, rows: int, cols: int, chance: u32) -> bool {
    &&& is_rect(cells, rows, cols)
    &&& forall|r: int, c: int|
        0 <= r < rows && 0 <= c < cols && on_border(rows, cols, r, c) ==> (#[trigger] cells[r][c])
            == Tile::Wall
    &&& exists|free: int| may_be_free(cols, free) && #[trigger] follows_chance(cells, rows, cols, free, chance)
}

/// With no round of smoothing, the cave is the noise, with the walls of
/// the room put in unless the room is overwritten.
pub proof fn lemma_cave_without_smoothing(
    noise: Seq<Seq<Tile>>,
    room: Seq<Seq<Tile>>,
    destructive: bool,
)
    ensures
        cave(noise, room, 0, destructive) == cave_start(noise, room, destructive),
        cave(noise, room, 0, true) == noise,
{
}

/// Every tile of the outer ring is a wall.
pub open spec fn ring_is_wall(cells: Seq<Seq<Tile>>, rows: int, cols: int) -> bool {
    forall|r: int, c: int|
        0 <= r < rows && 0 <= c < cols && on_border(rows, cols, r, c) ==> (#[trigger] cells[r][c])
            == Tile::Wall
}

/// Smoothing keeps the size of the tiles and leaves the outer ring wall,
/// however many rounds are made.
pub proof fn lemma_smoothing_keeps_ring(cells: Seq<Seq<Tile>>, rows: int, cols: int, n: nat)
    requires
        is_rect(cells, rows, cols),
        ring_is_wall(cells, rows, cols),
    ensures
        is_rect(cave_steps(cells, n), rows, cols),
        ring_is_wall(cave_steps(cells, n), rows, cols),
    decreases n,
{
    if n > 0 {
        lemma_smoothing_keeps_ring(cells, rows, cols, (n - 1) as nat);
        let before = cave_steps(cells, (n - 1) as nat);
        let after = cave_step(before);
        assert forall|r: int| 0 <= r < rows implies (#[trigger] after[r]).len() == cols by {
            assert(before[r].len() == cols);
        }
        assert forall|r: int, c: int|
            0 <= r < rows && 0 <= c < cols && on_border(rows, cols, r, c) implies (#[trigger] after[r][c])
            == Tile::Wall by {
            assert(before[r].len() == cols);
        }
    }
}

/// A cave has the size of its noise, and its outer ring is wall: whatever
/// the noise, the walls of the room, the number of rounds, and whether the
/// room is overwritten.
pub proof fn lemma_cave_keeps_ring(
    noise: Seq<Seq<Tile>>,
    room: Seq<Seq<Tile>>,
    iterations: usize,
    destructive: bool,
    rows: int,
    cols: int,
    chance: u32,
)
    requires
        is_noise(noise, rows, cols, chance),
    ensures
        is_rect(cave(noise, room, iterations, destructive), rows, cols),
        ring_is_wall(cave(noise, room, iterations, destructive), rows, cols),
{
    let start = cave_start(noise, room, destructive);
    assert forall|r: int| 0 <= r < rows implies (#[trigger] start[r]).len() == cols by {
        assert(noise[r].len() == cols);
    }
    assert forall|r: int, c: int|
        0 <= r < rows && 0 <= c < cols && on_border(rows, cols, r, c) implies (#[trigger] start[r][c])
        == Tile::Wall by {
        assert(noise[r].len() == cols);
        assert(noise[r][c] == Tile::Wall);
    }
    lemma_smoothing_keeps_ring(start, rows, cols, iterations as nat);
}

/// With no round of smoothing, and the room overwritten, the tiles of a
/// cave are the noise: walls exactly where the noise has them, and the noise
/// has them on the whole outer ring.
pub proof fn lemma_bare_noise_is_the_cave(
    noise: Seq<Seq<Tile>>,
    room: Seq<Seq<Tile>>,
    rows: int,
    cols: int,
    chance: u32,
)
    requires
        is_noise(noise, rows, cols, chance),
    ensures
        cave(noise, room, 0, true) == noise,
        ring_is_wall(cave(noise, room, 0, true), rows, cols),
{
}

impl CellularAutomata {
    /// Grows a cave in the room: random noise, smoothed `iterations` times.
    fn generate(&self, room: &mut Room, destructive: bool, rng: &mut WorldgenRng)
        requires
            old(room).wf(),
        ensures
            final(room).wf(),
            old(room).same_frame(final(room)),
            exists|noise: Seq<Seq<Tile>>| #[trigger]
                is_noise(
                    noise,
                    old(room).tiles().len() as int,
                    old(room).width() as int,
                    self.wall_percentage,
                ) && final(room).tiles() == cave(
                    noise,
                    old(room).tiles(),
                    self.iterations,
                    destructive,
                ),
            ring_is_wall(
                final(room).tiles(),
                old(room).tiles().len() as int,
                old(room).width() as int,
            ),
    {
        let rows: usize = room.height();
        let cols: usize = room.length();
        let noise = self.random_fill(rows, cols, rng);
        let ghost seed = grid_cells(noise);
        proof {
            lemma_cave_keeps_ring(
                seed,
                room.tiles(),
                self.iterations,
                destructive,
                rows as int,
                cols as int,
                self.wall_percentage,
            );
        }
        self.grow(room, noise, destructive);
        assert(is_noise(
            seed,
            old(room).tiles().len() as int,
            old(room).width() as int,
            self.wall_percentage,
        ));
    }

    /// Grows a cave in the room from the given noise: the walls of the room
    /// are put into the noise unless the room is overwritten, the smoothing
    /// rule is applied `iterations` times, and the result becomes the tiles
    /// of the room.
    pub fn grow(&self, room: &mut Room, noise: Grid<Tile>, destructive: bool)
        requires
            old(room).wf(),
            grid_wf(noise),
            grid_width(noise) == old(room).width(),
            is_rect(grid_cells(noise), old(room).tiles().len() as int, old(room).width() as int),
        ensures
            final(room).wf(),
            old(room).same_frame(final(room)),
            final(room).tiles() == cave(
                grid_cells(noise),
                old(room).tiles(),
                self.iterations,
                destructive,
            ),
    {
        let rows: usize = room.height();
        let cols: usize = room.length();
        let ghost seed = grid_cells(noise);
        let ghost before = room.tiles();
        let mut new_grid = noise;
        if !destructive {
            let mut y: usize = 0;
            while y < rows
                invariant
                    room.wf(),
                    *room == *old(room),
                    rows == before.len(),
                    cols == room.width(),
                    before == room.tiles(),
                    grid_wf(new_grid),
                    grid_width(new_grid) == cols,
                    is_rect(grid_cells(new_grid), rows as int, cols as int),
                    is_rect(seed, rows as int, cols as int),
                    y <= rows,
                    forall|r: int, c: int|
                        0 <= r < rows && 0 <= c < cols ==> (#[trigger] grid_cells(new_grid)[r][c]) == (
                        if r < y && before[r][c] == Tile::Wall {
                            Tile::Wall
                        } else {
                            seed[r][c]
                        }),
                decreases rows - y,
            {
                let mut x: usize = 0;
                while x < cols
                    invariant
                        room.wf(),
                        *room == *old(room),
                        rows == before.len(),
                        cols == room.width(),
                        before == room.tiles(),
                        grid_wf(new_grid),
                        grid_width(new_grid) == cols,
                        is_rect(grid_cells(new_grid), rows as int, cols as int),
                        is_rect(seed, rows as int, cols as int),
                        y < rows,
                        x <= cols,
                        forall|r: int, c: int|
                            0 <= r < rows && 0 <= c < cols ==> (#[trigger] grid_cells(
                                new_grid,
                            )[r][c]) == (if (r < y || (r == y && c < x)) && before[r][c]
                                == Tile::Wall {
                                Tile::Wall
                            } else {
                                seed[r][c]
                            }),
                    decreases cols - x,
                {
                    assert(before[y as int].len() == cols);
                    let is_wall: bool = match grid_get(&room.data, y, x) {
                        Some(t) => match t {
                            Tile::Wall => true,
                            _ => false,
                        },
                        None => false,
                    };
                    if is_wall {
                        grid_set(&mut new_grid, y, x, Tile::Wall);
                    }
                    x += 1;
                }
                y += 1;
            }
            assert(grid_cells(new_grid) =~= with_walls_of(seed, before)) by {
                assert forall|r: int| 0 <= r < rows implies #[trigger] grid_cells(new_grid)[r]
                    =~= with_walls_of(seed, before)[r] by {
                    assert(before[r].len() == cols);
                    assert forall|c: int| 0 <= c < cols implies grid_cells(new_grid)[r][c]
                        == with_walls_of(seed, before)[r][c] by {
                        let t = grid_cells(new_grid)[r][c];
                    }
                }
            }
        }
        let ghost start = grid_cells(new_grid);
        assert(start == cave_start(seed, before, destructive));
        let mut i: usize = 0;
        while i < self.iterations
            invariant
                i <= self.iterations,
                room.wf(),
                *room == *old(room),
                rows == before.len(),
                cols == room.width(),
                grid_wf(new_grid),
                grid_width(new_grid) == cols,
                is_rect(grid_cells(new_grid), rows as int, cols as int),
                grid_cells(new_grid) == cave_steps(start, i as nat),
            decreases self.iterations - i,
        {
            new_grid = self.step(&new_grid);
            i += 1;
        }
        copy_into_room(room, &new_grid);
    }

    /// Fills a grid of the given size with random noise: the outer ring is
    /// wall, one column is left free of noise, and every other tile is a
    /// wall with the chance `wall_percentage`.
    fn random_fill(&self, rows: usize, cols: usize, rng: &mut WorldgenRng) -> (grid: Grid<Tile>)
        requires
            rows * cols <= isize::MAX,
            rows <= isize::MAX,
            cols <= isize::MAX,
            rows == 0 <==> cols == 0,
        ensures
            grid_wf(grid),
            grid_width(grid) == cols,
            is_noise(grid_cells(grid), rows as int, cols as int, self.wall_percentage),
    {
        let mut grid = grid_new(rows, cols);
        let random_column: usize = if cols > 8 {
            rng.usize(4, cols - 5)
        } else {
            cols / 2
        };
        if rows == 0 || cols == 0 {
            assert(follows_chance(
                grid_cells(grid),
                rows as int,
                cols as int,
                random_column as int,
                self.wall_percentage,
            ));
            return grid;
        }
        let ghost chance = self.wall_percentage;
        let mut y: usize = 0;
        while y < rows
            invariant
                rows > 0,
                cols > 0,
                y <= rows,
                chance == self.wall_percentage,
                grid_wf(grid),
                grid_width(grid) == cols,
                is_rect(grid_cells(grid), rows as int, cols as int),
                forall|r: int, c: int|
                    0 <= r < y && 0 <= c < cols && on_border(rows as int, cols as int, r, c) ==> (
                    #[trigger] grid_cells(grid)[r][c]) == Tile::Wall,
                forall|r: int, c: int|
                    0 <= r < rows && 0 <= c < cols && !on_border(rows as int, cols as int, r, c) ==> {
                        &&& (r >= y || c == random_column || chance == 0) ==> (#[trigger] grid_cells(
                            grid,
                        )[r][c]) == Tile::Ground
                        &&& (r < y && c != random_column && chance >= 100) ==> grid_cells(grid)[r][c]
                            == Tile::Wall
                    },
            decreases rows - y,
        {
            let mut x: usize = 0;
            while x < cols
                invariant
                    rows > 0,
                    cols > 0,
                    y < rows,
                    x <= cols,
                    chance == self.wall_percentage,
                    grid_wf(grid),
                    grid_width(grid) == cols,
                    is_rect(grid_cells(grid), rows as int, cols as int),
                    forall|r: int, c: int|
                        (0 <= r < y || (r == y && c < x)) && 0 <= c < cols && on_border(
                            rows as int,
                            cols as int,
                            r,
                            c,
                        ) ==> (#[trigger] grid_cells(grid)[r][c]) == Tile::Wall,
                    forall|r: int, c: int|
                        0 <= r < rows && 0 <= c < cols && !on_border(rows as int, cols as int, r, c)
                            ==> {
                            &&& (r > y || (r == y && c >= x) || c == random_column || chance == 0) ==> (
                            #[trigger] grid_cells(grid)[r][c]) == Tile::Ground
                            &&& ((r < y || (r == y && c < x)) && c != random_column && chance >= 100)
                                ==> grid_cells(grid)[r][c] == Tile::Wall
                        },
                decreases cols - x,
            {
                if x == 0 || y == 0 || x == cols - 1 || y == rows - 1 {
                    grid_set(&mut grid, y, x, Tile::Wall);
                } else if x != random_column && noise_is_wall(rng.percent(), self.wall_percentage) {
                    grid_set(&mut grid, y, x, Tile::Wall);
                }
                x += 1;
            }
            y += 1;
        }
        assert(follows_chance(
            grid_cells(grid),
            rows as int,
            cols as int,
            random_column as int,
            chance,
        ));
        grid
    }

    /// One round of smoothing.
    fn step(&self, grid: &Grid<Tile>) -> (new_grid: Grid<Tile>)
        requires
            grid_wf(*grid),
        ensures
            grid_wf(new_grid),
            grid_width(new_grid) == grid_width(*grid),
            is_rect(grid_cells(new_grid), grid_cells(*grid).len() as int, grid_width(*grid) as int),
            grid_cells(new_grid) == cave_step(grid_cells(*grid)),
    {
        let rows: usize = grid_rows(grid);
        let cols: usize = grid_cols(grid);
        let ghost cells = grid_cells(*grid);
        let mut new_grid = grid_new(rows, cols);
        let mut y: usize = 0;
        while y < rows
            invariant
                grid_wf(*grid),
                cells == grid_cells(*grid),
                rows == cells.len(),
                cols == grid_width(*grid),
                y <= rows,
                grid_wf(new_grid),
                grid_width(new_grid) == cols,
                is_rect(grid_cells(new_grid), rows as int, cols as int),
                forall|r: int, c: int|
                    0 <= r < y && 0 <= c < cols ==> (#[trigger] grid_cells(new_grid)[r][c])
                        == cave_step(cells)[r][c],
            decreases rows - y,
        {
            let mut x: usize = 0;
            while x < cols
                invariant
                    grid_wf(*grid),
                    cells == grid_cells(*grid),
                    rows == cells.len(),
                    cols == grid_width(*grid),
                    y < rows,
                    x <= cols,
                    grid_wf(new_grid),
                    grid_width(new_grid) == cols,
                    is_rect(grid_cells(new_grid), rows as int, cols as int),
                    forall|r: int, c: int|
                        (0 <= r < y || (r == y && 0 <= c < x)) && 0 <= c < cols ==> (
                        #[trigger] grid_cells(new_grid)[r][c]) == cave_step(cells)[r][c],
                decreases cols - x,
            {
                assert(cells[y as int].len() == cols);
                let tile: Tile = if x == 0 || y == 0 || x == cols - 1 || y == rows - 1 {
                    Tile::Wall
                } else if self.place_wall_logic(grid, x, y) {
                    Tile::Wall
                } else {
                    Tile::Ground
                };
                grid_set(&mut new_grid, y, x, tile);
                x += 1;
            }
            y += 1;
        }
        assert(grid_cells(new_grid) =~= cave_step(cells)) by {
            assert forall|r: int| 0 <= r < rows implies #[trigger] grid_cells(new_grid)[r]
                =~= cave_step(cells)[r] by {
                assert(cells[r].len() == cols);
                assert forall|c: int| 0 <= c < cols implies grid_cells(new_grid)[r][c] == cave_step(
                    cells,
                )[r][c] by {
                    let t = grid_cells(new_grid)[r][c];
                }
            }
        }
        new_grid
    }

    /// Whether the smoothing rule makes the tile at `(x, y)` a wall.
    fn place_wall_logic(&self, grid: &Grid<Tile>, x: usize, y: usize) -> (r: bool)
        requires
            grid_wf(*grid),
            x < grid_width(*grid),
            y < grid_cells(*grid).len(),
        ensures
            r == becomes_wall(grid_cells(*grid), x as int, y as int),
    {
        self.count_adjacent_walls(grid, x, y) >= 5 || self.count_nearby_walls(grid, x, y) <= 2
    }

    /// Counts the walls among the nine tiles around and at `(x, y)`.
    fn count_adjacent_walls(&self, grid: &Grid<Tile>, x: usize, y: usize) -> (walls: usize)
        requires
            grid_wf(*grid),
            x < grid_width(*grid),
            y < grid_cells(*grid).len(),
        ensures
            walls == adjacent_walls(grid_cells(*grid), x as int, y as int),
    {
        count_window(grid, x, y, 1, false)
    }

    /// Counts the open tiles among those at most two steps from `(x, y)`,
    /// the four corners left out.
    fn count_nearby_walls(&self, grid: &Grid<Tile>, x: usize, y: usize) -> (walls: usize)
        requires
            grid_wf(*grid),
            x < grid_width(*grid),
            y < grid_cells(*grid).len(),
        ensures
            walls == nearby_open(grid_cells(*grid), x as int, y as int),
    {
        count_window(grid, x, y, 2, true)
    }

    /// Grows a cave in the room.
    pub fn generate_features(&self, rooms: &mut Room, destructive: bool, rng: &mut WorldgenRng)
        requires
            old(rooms).wf(),
        ensures
            final(rooms).wf(),
            old(rooms).same_frame(final(rooms)),
            exists|noise: Seq<Seq<Tile>>| #[trigger]
                is_noise(
                    noise,
                    old(rooms).tiles().len() as int,
                    old(rooms).width() as int,
                    self.wall_percentage,
                ) && final(rooms).tiles() == cave(
                    noise,
                    old(rooms).tiles(),
                    self.iterations,
                    destructive,
                ),
            ring_is_wall(
                final(rooms).tiles(),
                old(rooms).tiles().len() as int,
                old(rooms).width() as int,
            ),
    {
        self.generate(rooms, destructive, rng);
    }
}

/// Whether a tile of the noise is a wall, given a draw from 0 to 99: the
/// draw has to be below the chance.
pub fn noise_is_wall(draw: u32, wall_percentage: u32) -> (r: bool)
    ensures
        r == (draw < wall_percentage),
{
    draw < wall_percentage
}

/// Counts the tiles that count in the window of the given radius around `(x, y)`.
fn count_window(grid: &Grid<Tile>, x: usize, y: usize, radius: usize, open: bool) -> (count: usize)
    requires
        grid_wf(*grid),
        x < grid_width(*grid),
        y < grid_cells(*grid).len(),
        1 <= radius <= 2,
    ensures
        count == window_count(
            grid_cells(*grid),
            x as int,
            y as int,
            radius as int,
            open,
            2 * radius + 1,
        ),
{
    let side: usize = 2 * radius + 1;
    let ghost cells = grid_cells(*grid);
    let mut count: usize = 0;
    let mut m: usize = 0;
    while m < side
        invariant
            grid_wf(*grid),
            cells == grid_cells(*grid),
            x < grid_width(*grid),
            y < cells.len(),
            1 <= radius <= 2,
            side == 2 * radius + 1,
            m <= side,
            count <= 5 * m,
            count == window_count(cells, x as int, y as int, radius as int, open, m as int),
        decreases side - m,
    {
        let mut n: usize = 0;
        let ghost base = count;
        while n < side
            invariant
                grid_wf(*grid),
                cells == grid_cells(*grid),
                x < grid_width(*grid),
                y < cells.len(),
                1 <= radius <= 2,
                side == 2 * radius + 1,
                m < side,
                n <= side,
                base <= 5 * m,
                count <= base + n,
                count == base + row_count(
                    cells,
                    x as int,
                    y as int,
                    m as int - radius as int,
                    radius as int,
                    open,
                    n as int,
                ),
            decreases side - n,
        {
            let corner: bool = (n == 0 || n == side - 1) && (m == 0 || m == side - 1) && radius == 2;
            let in_grid: bool = x + n >= radius && y + m >= radius;
            if in_grid && !(open && corner) {
                match grid_get(grid, y + m - radius, x + n - radius) {
                    Some(tile) => {
                        let is_wall: bool = match tile {
                            Tile::Wall => true,
                            _ => false,
                        };
                        assert(cells[y + m - radius].len() == grid_width(*grid));
                        if is_wall != open {
                            count += 1;
                        }
                    },
                    None => {
                        assert(y + m - radius < cells.len() ==> cells[y + m - radius].len()
                            == grid_width(*grid));
                    },
                }
            }
            n += 1;
        }
        m += 1;
    }
    count
}

/// Makes the tiles of the room those of the grid.
fn copy_into_room(room: &mut Room, grid: &Grid<Tile>)
    requires
        old(room).wf(),
        grid_wf(*grid),
        is_rect(grid_cells(*grid), old(room).tiles().len() as int, old(room).width() as int),
    ensures
        final(room).wf(),
        old(room).same_frame(final(room)),
        final(room).tiles() == grid_cells(*grid),
{
    let rows: usize = room.height();
    let cols: usize = room.length();
    let ghost cells = grid_cells(*grid);
    let mut y: usize = 0;
    while y < rows
        invariant
            room.wf(),
            old(room).same_frame(room),
            grid_wf(*grid),
            cells == grid_cells(*grid),
            rows == room.tiles().len(),
            cols == room.width(),
            is_rect(cells, rows as int, cols as int),
            y <= rows,
            forall|r: int, c: int|
                0 <= r < y && 0 <= c < cols ==> (#[trigger] room.tiles()[r][c]) == cells[r][c],
        decreases rows - y,
    {
        let mut x: usize = 0;
        while x < cols
            invariant
                room.wf(),
                old(room).same_frame(room),
                grid_wf(*grid),
                cells == grid_cells(*grid),
                rows == room.tiles().len(),
                cols == room.width(),
                is_rect(cells, rows as int, cols as int),
                y < rows,
                x <= cols,
                forall|r: int, c: int|
                    (0 <= r < y || (r == y && 0 <= c < x)) && 0 <= c < cols ==> (
                    #[trigger] room.tiles()[r][c]) == cells[r][c],
            decreases cols - x,
        {
            let tile: Tile = match grid_get(grid, y, x) {
                Some(t) => *t,
                None => Tile::Ground,
            };
            assert(cells[y as int].len() == cols);
            proof {
                assert(grid_width(*grid) == cols || rows == 0);
            }
            room.fill_area(x, x + 1, y, y + 1, tile);
            x += 1;
        }
        y += 1;
    }
    assert(room.tiles() =~= cells) by {
        assert forall|r: int| 0 <= r < rows implies #[trigger] room.tiles()[r] =~= cells[r] by {
            assert(room.tiles()[r].len() == cols);
            assert forall|c: int| 0 <= c < cols implies room.tiles()[r][c] == cells[r][c] by {
                let t = room.tiles()[r][c];
            }
        }
    }
}

impl Aesthetics {
    /// The decoration can be made.
    pub open spec fn valid(&self) -> bool {
        match self {
            Aesthetics::Pillars(x) => x.valid(),
            Aesthetics::CellularAutomata(_) => true,
        }
    }

    /// Whether the decoration can be made.
    pub fn is_valid(&self) -> (r: bool)
        ensures
            r == self.valid(),
    {
        match self {
            Aesthetics::Pillars(x) => x.amount < usize::MAX,
            Aesthetics::CellularAutomata(_) => true,
        }
    }

    /// Decorates the room: only the tiles change.
    pub fn generate_features(&self, room: &mut Room, destructive: bool, rng: &mut WorldgenRng)
        requires
            old(room).wf(),
            self.valid(),
        ensures
            final(room).wf(),
            old(room).same_frame(final(room)),
            match self {
                Aesthetics::Pillars(x) => exists|anchors: Seq<(usize, usize)>| #[trigger]
                    x.lays_out(anchors, old(room).dims().length, old(room).dims().height)
                        && final(room).tiles() == pillars_placed(
                        old(room).tiles(),
                        anchors,
                        x.pillar_size,
                        anchors.len() as int,
                    ),
                Aesthetics::CellularAutomata(x) => exists|noise: Seq<Seq<Tile>>| #[trigger]
                    is_noise(
                        noise,
                        old(room).tiles().len() as int,
                        old(room).width() as int,
                        x.wall_percentage,
                    ) && final(room).tiles() == cave(
                        noise,
                        old(room).tiles(),
                        x.iterations,
                        destructive,
                    ),
            },
    {
        match self {
            Aesthetics::Pillars(x) => x.generate_features(room, destructive, rng),
            Aesthetics::CellularAutomata(x) => x.generate_features(room, destructive, rng),
        }
    }
}

} // verus!
