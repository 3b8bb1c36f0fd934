//! The simulation engine: an occupancy grid and the grains it indexes, kept
//! in step through spawning, settling and draining.

use vstd::prelude::*;
use unirand::MarsagliaUniRng;

verus! {

#[verifier::external_type_specification]
#[verifier::external_body]
pub struct ExMarsagliaUniRng(MarsagliaUniRng);

/// Relies on `MarsagliaUniRng::new`: it builds a generator from a single seed
/// and panics when the seed exceeds `MarsagliaUniRng::MAX_SEED`.
pub assume_specification[ MarsagliaUniRng::new ](seed: u32) -> MarsagliaUniRng
    requires
        seed <= MAX_SEED,
;

/// Relies on `MarsagliaUniRng::uni_u24`: it advances the generator and returns
/// the next value as a 24-bit integer, in `0 .. 2^24`.
pub assume_specification[ MarsagliaUniRng::uni_u24 ](rng: &mut MarsagliaUniRng) -> (u: u32)
    ensures
        u < DRAW_RANGE,
;

/// The largest seed the generator takes.
pub const MAX_SEED: u32 = 900_000_000;

/// One past the largest value of a 24-bit draw.
pub const DRAW_RANGE: u32 = 0x1000000;

/// How many cells the active region reaches past the grains that moved.
pub const REGION_MARGIN: usize = 2;

/// A grain of sand, identified by the cell it occupies.
#[derive(Clone, Copy, Debug, PartialEq, Eq, Structural)]
pub struct Grain {
    pub x: usize,
    pub y: usize,
}

/// An axis-aligned rectangle of cells, bounds included; it is empty when
/// `min_x > max_x` or `min_y > max_y`.
#[derive(Clone, Copy, Debug, PartialEq, Eq, Structural)]
pub struct Region {
    pub min_x: usize,
    pub max_x: usize,
    pub min_y: usize,
    pub max_y: usize,
}

/// What a simulation holds, as mathematical values.
pub struct SimView {
    pub width: int,
    pub height: int,
    pub radius: int,
    pub tries: int,
    pub drain_half: int,
    pub grains: Seq<Grain>,
    pub region: Region,
}

/// The position of cell `(x, y)` in the row-major occupancy grid.
pub open spec fn cell_index(w: int, x: int, y: int) -> int {
    y * w + x
}

/// The grain standing on cell `(x, y)`; meaningful for in-bounds cells.
pub open spec fn grain_at(x: int, y: int) -> Grain {
    Grain { x: x as usize, y: y as usize }
}

/// Cell `(x, y)` lies inside a `w` by `h` grid and no grain stands on it.
pub open spec fn is_free(g: Seq<Grain>, w: int, h: int, x: int, y: int) -> bool {
    0 <= x < w && 0 <= y < h && !g.contains(grain_at(x, y))
}

/// The cell a grain at `p` falls to: straight down, else down-left, else
/// down-right, the first of them that is free; `None` when none is.
pub open spec fn fall_target(g: Seq<Grain>, w: int, h: int, p: Grain) -> Option<Grain> {
    let x = p.x as int;
    let y = p.y as int;
    if is_free(g, w, h, x, y + 1) {
        Some(grain_at(x, y + 1))
    } else if is_free(g, w, h, x - 1, y + 1) {
        Some(grain_at(x - 1, y + 1))
    } else if is_free(g, w, h, x + 1, y + 1) {
        Some(grain_at(x + 1, y + 1))
    } else {
        None
    }
}

/// The region holds the grain's cell.
pub open spec fn in_region(r: Region, p: Grain) -> bool {
    r.min_x <= p.x <= r.max_x && r.min_y <= p.y <= r.max_y
}

/// The region stretched just enough to hold the grain's cell.
pub open spec fn grow(r: Region, p: Grain) -> Region {
    Region {
        min_x: if p.x < r.min_x { p.x } else { r.min_x },
        max_x: if p.x > r.max_x { p.x } else { r.max_x },
        min_y: if p.y < r.min_y { p.y } else { r.min_y },
        max_y: if p.y > r.max_y { p.y } else { r.max_y },
    }
}

/// The empty region a grid of `w` by `h` starts from.
pub open spec fn empty_region(w: int, h: int) -> Region {
    Region { min_x: w as usize, max_x: 0, min_y: h as usize, max_y: 0 }
}

/// No two grains share a cell.
pub open spec fn distinct(g: Seq<Grain>) -> bool {
    forall|i: int, j: int| 0 <= i < g.len() && 0 <= j < g.len() && i != j ==> #[trigger] g[i] != #[trigger] g[j]
}

/// The two views agree on the fixed configuration.
pub open spec fn same_config(a: SimView, b: SimView) -> bool {
    &&& a.width == b.width
    &&& a.height == b.height
    &&& a.radius == b.radius
    &&& a.tries == b.tries
    &&& a.drain_half == b.drain_half
}

/// `a - m`, or zero where that would be negative.
pub open spec fn sat_sub(a: usize, m: usize) -> usize {
    if a >= m { (a - m) as usize } else { 0 }
}

/// `a + m`, or `limit` where that is smaller.
pub open spec fn capped_add(a: usize, m: usize, limit: int) -> usize {
    if a + m <= limit { (a + m) as usize } else { limit as usize }
}

/// The active region after a settling pass whose moved grains span `acc`:
/// `acc` widened by the margin and clipped to the grid, or the region `r` as it
/// was when nothing moved.
pub open spec fn next_region(r: Region, acc: Region, w: int, h: int) -> Region {
    if acc.min_x <= acc.max_x && acc.min_y <= acc.max_y {
        Region {
            min_x: sat_sub(acc.min_x, REGION_MARGIN),
            max_x: capped_add(acc.max_x, REGION_MARGIN, w - 1),
            min_y: sat_sub(acc.min_y, REGION_MARGIN),
            max_y: capped_add(acc.max_y, REGION_MARGIN, h - 1),
        }
    } else {
        r
    }
}

/// A settling pass over the grains at indices `k - 1` down to `0`, with active
/// region `r`: each grain inside `r` that has a fall target moves there, at
/// once, and the region `acc` grows to hold it. Gives the grains and `acc`
/// after the pass.
pub open spec fn settle_pass(g: Seq<Grain>, w: int, h: int, r: Region, acc: Region, k: int) -> (Seq<Grain>, Region)
    decreases k,
{
    if k <= 0 {
        (g, acc)
    } else {
        let i = k - 1;
        let t = fall_target(g, w, h, g[i]);
        if in_region(r, g[i]) && t is Some {
            settle_pass(g.update(i, t->0), w, h, r, grow(acc, t->0), i)
        } else {
            settle_pass(g, w, h, r, acc, i)
        }
    }
}

/// The view after a spawn on cell `(x, y)`: the grain is appended and the
/// active region grows to hold it when the cell is in bounds and free;
/// otherwise nothing changes.
pub open spec fn spawned(v: SimView, x: int, y: int) -> SimView {
    if is_free(v.grains, v.width, v.height, x, y) {
        SimView { grains: v.grains.push(grain_at(x, y)), region: grow(v.region, grain_at(x, y)), ..v }
    } else {
        v
    }
}

/// The view after one settling step.
pub open spec fn settled(v: SimView) -> SimView {
    let pass = settle_pass(v.grains, v.width, v.height, v.region, empty_region(v.width, v.height), v.grains.len() as int);
    SimView { grains: pass.0, region: next_region(v.region, pass.1, v.width, v.height), ..v }
}

/// The first column of the drain: `half` cells left of the middle column,
/// or the left edge.
pub open spec fn drain_start(w: int, half: int) -> int {
    if w / 2 >= half { w / 2 - half } else { 0 }
}

/// The last column of the drain: `half` cells right of the middle column,
/// or the right edge.
pub open spec fn drain_end(w: int, half: int) -> int {
    if w / 2 + half <= w - 1 { w / 2 + half } else { w - 1 }
}

/// The grain rests on the drain: on the bottom row, within its columns.
pub open spec fn in_drain(w: int, h: int, half: int, p: Grain) -> bool {
    p.y == h - 1 && drain_start(w, half) <= p.x <= drain_end(w, half)
}

/// Draining the first `k` grains: the grains kept, in order, and the region
/// `r` grown over each grain removed.
pub open spec fn drain_pass(g: Seq<Grain>, w: int, h: int, half: int, r: Region, k: int) -> (Seq<Grain>, Region)
    decreases k,
{
    if k <= 0 {
        (Seq::empty(), r)
    } else {
        let prev = drain_pass(g, w, h, half, r, k - 1);
        if in_drain(w, h, half, g[k - 1]) {
            (prev.0, grow(prev.1, g[k - 1]))
        } else {
            (prev.0.push(g[k - 1]), prev.1)
        }
    }
}

/// The view after draining: the grains on the drain are gone, the others
/// keep their order, and the active region grows over the removed ones.
pub open spec fn drained(v: SimView) -> SimView {
    let pass = drain_pass(v.grains, v.width, v.height, v.drain_half, v.region, v.grains.len() as int);
    SimView { grains: pass.0, region: pass.1, ..v }
}

/// The region `r` grown over each grain of `s`, in order.
pub open spec fn grow_all(r: Region, s: Seq<Grain>) -> Region
    decreases s.len(),
{
    if s.len() == 0 {
        r
    } else {
        grow(grow_all(r, s.drop_last()), s.last())
    }
}

/// The view after spawns around `(cx, cy)` on each of the accepted offsets
/// `offs`, in order.
pub open spec fn spawn_all(v: SimView, cx: int, cy: int, offs: Seq<(int, int)>) -> SimView
    decreases offs.len(),
{
    if offs.len() == 0 {
        v
    } else {
        let prev = spawn_all(v, cx, cy, offs.drop_last());
        spawned(prev, cx + offs.last().0, cy + offs.last().1)
    }
}

/// `w` is a possible view after a spawn phase around `(cx, cy)` from `v`: it is
/// what spawns on some run of at most `tries` offsets of the disc give; the
/// new grains follow the old ones, each within the disc, and the active region
/// has grown over each of them. With radius zero every draw picks the centre,
/// so the outcome is a spawn on the centre cell.
pub open spec fn spawn_result(v: SimView, w: SimView, cx: int, cy: int) -> bool {
    &&& same_config(w, v)
    &&& w.grains.len() <= v.grains.len() + v.tries
    &&& w.grains.take(v.grains.len() as int) == v.grains
    &&& forall|j: int| v.grains.len() <= j < w.grains.len() ==>
        in_disc(#[trigger] w.grains[j].x - cx, w.grains[j].y - cy, v.radius)
    &&& w.region == grow_all(v.region, w.grains.skip(v.grains.len() as int))
    &&& exists|offs: Seq<(int, int)>| #[trigger] spawn_all(v, cx, cy, offs) == w && offs.len() <= v.tries
        && forall|i: int| 0 <= i < offs.len() ==> in_disc(#[trigger] offs[i].0, offs[i].1, v.radius)
    &&& v.radius == 0 && v.tries > 0 ==> w == spawned(v, cx, cy)
}

/// The view after a settling step and then, when `drain_active`, the drain.
pub open spec fn settle_then_drain(v: SimView, drain_active: bool) -> SimView {
    if drain_active { drained(settled(v)) } else { settled(v) }
}

/// The offset in `-radius ..= radius` that a 24-bit draw `u` picks: the draw
/// read as a fraction of one, scaled to the `2 * radius + 1` offsets.
pub open spec fn offset_of(u: int, radius: int) -> int {
    u * (2 * radius + 1) / (DRAW_RANGE as int) - radius
}

/// The offset `(dx, dy)` lies in the disc of the given radius.
pub open spec fn in_disc(dx: int, dy: int, radius: int) -> bool {
    dx * dx + dy * dy <= radius * radius
}

/// The view after one spawn trial around `(cx, cy)` on draws `u` and `v`:
/// nothing changes when the offsets they pick fall outside the disc;
/// otherwise a spawn on the offset cell.
pub open spec fn tried(s: SimView, cx: int, cy: int, u: int, v: int) -> SimView {
    let dx = offset_of(u, s.radius);
    let dy = offset_of(v, s.radius);
    if in_disc(dx, dy, s.radius) {
        spawned(s, cx + dx, cy + dy)
    } else {
        s
    }
}

/// Converts a 24-bit draw into an offset in `-radius ..= radius`.
pub fn offset_from_draw(u: u32, radius: u32) -> (d: i64)
    requires
        u < DRAW_RANGE,
    ensures
        d == offset_of(u as int, radius as int),
        -(radius as int) <= d <= radius,
{
    let span: u64 = 2 * (radius as u64) + 1;
    assert(u as int * span <= 0x1000000 * 0x200000000) by (nonlinear_arith)
        requires
            u < 0x1000000,
            span <= 0x200000000,
    ;
    let q: u64 = (u as u64 * span) / (DRAW_RANGE as u64);
    assert(0 <= q < span) by (nonlinear_arith)
        requires
            q == (u as int * span) / 0x1000000,
            u < 0x1000000,
            span > 0,
    ;
    q as i64 - radius as i64
}

/// The two cell positions `x` and `y` lie in a `w` by `h` grid.
pub open spec fn in_bounds(w: int, h: int, x: int, y: int) -> bool {
    0 <= x < w && 0 <= y < h
}

/// A simulation: the grid, the grains on it, the active region, the fixed
/// configuration and the random source of the spawner.
pub struct Sim {
    width: usize,
    height: usize,
    radius: u32,
    tries: usize,
    drain_half: usize,
    grid: Vec<bool>,
    grains: Vec<Grain>,
    region: Region,
    rng: MarsagliaUniRng,
}

impl View for Sim {
    type V = SimView;

    closed spec fn view(&self) -> SimView {
        SimView {
            width: self.width as int,
            height: self.height as int,
            radius: self.radius as int,
            tries: self.tries as int,
            drain_half: self.drain_half as int,
            grains: self.grains@,
            region: self.region,
        }
    }
}

impl Sim {
    /// The occupancy flag the grid holds for cell `(x, y)`.
    pub closed spec fn cell(&self, x: int, y: int) -> bool {
        self.grid@[cell_index(self.width as int, x, y)]
    }

    /// The grid is consistent with the grains, the grains are distinct and in
    /// bounds, and the configuration is valid.
    pub closed spec fn wf(&self) -> bool {
        let w = self.width as int;
        let h = self.height as int;
        let g = self.grains@;
        &&& w > 0 && h > 0 && w * h <= isize::MAX
        &&& w <= isize::MAX && h <= isize::MAX
        &&& self.drain_half <= self.width
        &&& self.grid@.len() == w * h
        &&& forall|i: int| 0 <= i < g.len() ==> #[trigger] in_bounds(w, h, g[i].x as int, g[i].y as int)
        &&& distinct(g)
        &&& forall|x: int, y: int| in_bounds(w, h, x, y) ==>
            #[trigger] self.grid@[cell_index(w, x, y)] == g.contains(grain_at(x, y))
    }

    /// Creates an empty simulation of `width` by `height` cells; `None` when a
    /// side is zero, the drain is wider than the grid or the seed is too large.
    pub fn new(width: usize, height: usize, radius: u32, tries: usize, drain_half: usize, seed: u32) -> (s: Option<Sim>)
        requires
            width as int * height as int <= isize::MAX,
        ensures
            s is Some <==> (width > 0 && height > 0 && drain_half <= width && seed <= MAX_SEED),
            s matches Some(s) ==> s.wf() && s@ == (SimView {
                width: width as int,
                height: height as int,
                radius: radius as int,
                tries: tries as int,
                drain_half: drain_half as int,
                grains: Seq::empty(),
                region: empty_region(width as int, height as int),
            }),
    {
        if width == 0 || height == 0 || drain_half > width || seed > MAX_SEED {
            return None;
        }
        assert(width <= isize::MAX && height <= isize::MAX) by (nonlinear_arith)
            requires
                width > 0,
                height > 0,
                width as int * height as int <= isize::MAX,
        ;
        let n = width * height;
        let mut grid: Vec<bool> = Vec::new();
        while grid.len() < n
            invariant
                grid@.len() <= n,
                forall|k: int| 0 <= k < grid@.len() ==> !#[trigger] grid@[k],
            decreases n - grid@.len(),
        {
            grid.push(false);
        }
        let s = Sim {
            width,
            height,
            radius,
            tries,
            drain_half,
            grid,
            grains: Vec::new(),
            region: Region { min_x: width, max_x: 0, min_y: height, max_y: 0 },
            rng: MarsagliaUniRng::new(seed),
        };
        assert forall|x: int, y: int| in_bounds(width as int, height as int, x, y) implies
            #[trigger] s.grid@[cell_index(width as int, x, y)] == s.grains@.contains(grain_at(x, y)) by {
            lemma_index_bounds(width as int, height as int, x, y);
        }
        Some(s)
    }

    /// Whether a grain stands on cell `(x, y)`.
    pub fn is_occupied(&self, x: usize, y: usize) -> (r: bool)
        requires
            self.wf(),
            x < self@.width,
            y < self@.height,
        ensures
            r == self@.grains.contains(grain_at(x as int, y as int)),
            r == self.cell(x as int, y as int),
    {
        proof { lemma_index_bounds(self.width as int, self.height as int, x as int, y as int); }
        self.grid[y * self.width + x]
    }
    /// Moves grain `i` to the free cell `(nx, ny)`, in the grains and in the grid.
    fn move_grain(&mut self, i: usize, nx: usize, ny: usize)
        requires
            old(self).wf(),
            i < old(self)@.grains.len(),
            is_free(old(self)@.grains, old(self)@.width, old(self)@.height, nx as int, ny as int),
        ensures
            final(self).wf(),
            same_config(final(self)@, old(self)@),
            final(self)@.region == old(self)@.region,
            final(self)@.grains == old(self)@.grains.update(i as int, Grain { x: nx, y: ny }),
    {
        let ghost g0 = self.grains@;
        let ghost grid0 = self.grid@;
        let p = self.grains[i];
        let w = self.width;
        let h = self.height;
        let t = Grain { x: nx, y: ny };
        assert(in_bounds(w as int, h as int, g0[i as int].x as int, g0[i as int].y as int));
        proof {
            lemma_index_bounds(w as int, h as int, p.x as int, p.y as int);
            lemma_index_bounds(w as int, h as int, nx as int, ny as int);
        }
        self.grid.set(p.y * w + p.x, false);
        self.grid.set(ny * w + nx, true);
        self.grains.set(i, t);
        proof {
            let g1 = self.grains@;
            assert(grain_at(nx as int, ny as int) == t);
            assert forall|x: int, y: int| in_bounds(w as int, h as int, x, y) implies
                #[trigger] self.grid@[cell_index(w as int, x, y)] == g1.contains(grain_at(x, y)) by {
                lemma_index_bounds(w as int, h as int, x, y);
                assert(grid0[cell_index(w as int, x, y)] == g0.contains(grain_at(x, y)));
                lemma_index_injective(w as int, h as int, x, y, p.x as int, p.y as int);
                lemma_index_injective(w as int, h as int, x, y, nx as int, ny as int);
                lemma_update_contains(g0, i as int, t, grain_at(x, y));
            }
            assert forall|a: int, b: int| 0 <= a < g1.len() && 0 <= b < g1.len() && a != b implies
                #[trigger] g1[a] != #[trigger] g1[b] by {
                if a == i {
                    assert(g0.contains(g0[b]));
                } else if b == i {
                    assert(g0.contains(g0[a]));
                }
            }
            assert forall|a: int| 0 <= a < g1.len() implies
                #[trigger] in_bounds(w as int, h as int, g1[a].x as int, g1[a].y as int) by {
                if a != i {
                    assert(in_bounds(w as int, h as int, g0[a].x as int, g0[a].y as int));
                }
            }
        }
    }

    /// Places a grain on cell `(x, y)` when it lies inside the grid and is
    /// free, and widens the active region to hold it; otherwise changes
    /// nothing. Returns whether the grain was placed.
    pub fn spawn_at(&mut self, x: i64, y: i64) -> (placed: bool)
        requires
            old(self).wf(),
        ensures
            final(self).wf(),
            placed == is_free(old(self)@.grains, old(self)@.width, old(self)@.height, x as int, y as int),
            final(self)@ == spawned(old(self)@, x as int, y as int),
    {
        if x < 0 || y < 0 || x as u64 >= self.width as u64 || y as u64 >= self.height as u64 {
            return false;
        }
        let xu = x as usize;
        let yu = y as usize;
        if self.is_occupied(xu, yu) {
            return false;
        }
        let w = self.width;
        let h = self.height;
        let t = Grain { x: xu, y: yu };
        let ghost g0 = self.grains@;
        let ghost grid0 = self.grid@;
        proof { lemma_index_bounds(w as int, h as int, x as int, y as int); }
        self.grid.set(yu * w + xu, true);
        self.grains.push(t);
        let r = self.region;
        self.region = Region {
            min_x: if xu < r.min_x { xu } else { r.min_x },
            max_x: if xu > r.max_x { xu } else { r.max_x },
            min_y: if yu < r.min_y { yu } else { r.min_y },
            max_y: if yu > r.max_y { yu } else { r.max_y },
        };
        proof {
            let g1 = self.grains@;
            assert(grain_at(x as int, y as int) == t);
            assert forall|a: int, b: int| 0 <= a < g1.len() && 0 <= b < g1.len() && a != b implies
                #[trigger] g1[a] != #[trigger] g1[b] by {
                if a == g0.len() {
                    assert(g0.contains(g0[b]));
                } else if b == g0.len() {
                    assert(g0.contains(g0[a]));
                }
            }
            assert forall|a: int| 0 <= a < g1.len() implies
                #[trigger] in_bounds(w as int, h as int, g1[a].x as int, g1[a].y as int) by {
                if a < g0.len() {
                    assert(in_bounds(w as int, h as int, g0[a].x as int, g0[a].y as int));
                }
            }
            assert forall|cx: int, cy: int| in_bounds(w as int, h as int, cx, cy) implies
                #[trigger] self.grid@[cell_index(w as int, cx, cy)] == g1.contains(grain_at(cx, cy)) by {
                lemma_index_bounds(w as int, h as int, cx, cy);
                assert(grid0[cell_index(w as int, cx, cy)] == g0.contains(grain_at(cx, cy)));
                lemma_index_injective(w as int, h as int, cx, cy, x as int, y as int);
                lemma_push_contains(g0, t, grain_at(cx, cy));
            }
        }
        true
    }

    /// One spawn trial around `(cx, cy)` on the draws `u` and `v`. `None` when
    /// the offsets they pick fall outside the disc, so that the trial must
    /// draw again; otherwise whether a grain was placed on the offset cell.
    pub fn trial(&mut self, cx: i64, cy: i64, u: u32, v: u32) -> (res: Option<bool>)
        requires
            old(self).wf(),
            u < DRAW_RANGE,
            v < DRAW_RANGE,
        ensures
            final(self).wf(),
            final(self)@ == tried(old(self)@, cx as int, cy as int, u as int, v as int),
            res is None <==> !in_disc(
                offset_of(u as int, old(self)@.radius),
                offset_of(v as int, old(self)@.radius),
                old(self)@.radius,
            ),
            res matches Some(placed) ==> placed == is_free(
                old(self)@.grains,
                old(self)@.width,
                old(self)@.height,
                cx + offset_of(u as int, old(self)@.radius),
                cy + offset_of(v as int, old(self)@.radius),
            ),
    {
        let r = self.radius;
        let dx = offset_from_draw(u, r);
        let dy = offset_from_draw(v, r);
        assert(0 <= dx * dx <= r * r && 0 <= dy * dy <= r * r && r * r <= 0xffffffff * 0xffffffff) by (nonlinear_arith)
            requires
                -(r as int) <= dx <= r,
                -(r as int) <= dy <= r,
                r <= 0xffffffffu32,
        ;
        let dd: i128 = dx as i128 * dx as i128 + dy as i128 * dy as i128;
        if dd > r as i128 * r as i128 {
            return None;
        }
        let x: i128 = cx as i128 + dx as i128;
        let y: i128 = cy as i128 + dy as i128;
        if x < 0 || y < 0 || x >= self.width as i128 || y >= self.height as i128 {
            return Some(false);
        }
        Some(self.spawn_at(x as i64, y as i64))
    }

    /// Runs the configured number of spawn attempts around `(cx, cy)`. Each
    /// attempt draws offsets until they fall inside the disc (giving up only
    /// after `u64::MAX` rejections, which no run reaches), then places a grain
    /// on the offset cell when it is in bounds and free. Returns how many
    /// grains were placed; they are appended after the existing ones.
    pub fn spawn(&mut self, cx: i64, cy: i64) -> (placed: usize)
        requires
            old(self).wf(),
        ensures
            final(self).wf(),
            final(self)@.grains.len() == old(self)@.grains.len() + placed,
            spawn_result(old(self)@, final(self)@, cx as int, cy as int),
    {
        let ghost v0 = self@;
        let ghost g0 = self.grains@;
        let ghost r0 = self.region;
        let ghost mut offs: Seq<(int, int)> = Seq::empty();
        let mut placed: usize = 0;
        let mut attempt: usize = 0;
        proof {
            assert(g0.skip(g0.len() as int) =~= Seq::<Grain>::empty());
            assert(self.grains@.take(g0.len() as int) =~= g0);
        }
        while attempt < self.tries
            invariant
                self.wf(),
                same_config(self@, v0),
                v0 == old(self)@,
                placed <= attempt <= self.tries,
                self.tries == v0.tries,
                self.radius == v0.radius,
                self.grains@.len() == g0.len() + placed,
                self.grains@.take(g0.len() as int) == g0,
                g0 == v0.grains,
                r0 == v0.region,
                self.region == grow_all(r0, self.grains@.skip(g0.len() as int)),
                forall|j: int| g0.len() <= j < self.grains@.len() ==> in_disc(
                    #[trigger] self.grains@[j].x - cx,
                    self.grains@[j].y - cy,
                    v0.radius,
                ),
                spawn_all(v0, cx as int, cy as int, offs) == self@,
                offs.len() <= attempt,
                forall|i: int| 0 <= i < offs.len() ==> in_disc(#[trigger] offs[i].0, offs[i].1, v0.radius),
                v0.radius == 0 && attempt > 0 ==> self@ == spawned(v0, cx as int, cy as int),
                v0.radius == 0 && attempt == 0 ==> self@ == v0,
            decreases self.tries - attempt,
        {
            let mut budget: u64 = u64::MAX;
            let ghost placed0 = placed;
            let ghost start = self@;
            let ghost offs0 = offs;
            while budget > 0
                invariant
                    self.wf(),
                    same_config(self@, v0),
                    v0 == old(self)@,
                    self.tries == v0.tries,
                    self.radius == v0.radius,
                    placed0 <= attempt < self.tries,
                    placed == placed0 || (placed == placed0 + 1 && budget == 0),
                    offs.len() == offs0.len() || (offs.len() == offs0.len() + 1 && budget == 0),
                    offs0.len() <= attempt,
                    self.grains@.len() == g0.len() + placed,
                    self.grains@.take(g0.len() as int) == g0,
                    g0 == v0.grains,
                    r0 == v0.region,
                    self.region == grow_all(r0, self.grains@.skip(g0.len() as int)),
                    forall|j: int| g0.len() <= j < self.grains@.len() ==> in_disc(
                        #[trigger] self.grains@[j].x - cx,
                        self.grains@[j].y - cy,
                        v0.radius,
                    ),
                    spawn_all(v0, cx as int, cy as int, offs) == self@,
                    forall|i: int| 0 <= i < offs.len() ==> in_disc(#[trigger] offs[i].0, offs[i].1, v0.radius),
                    v0.radius == 0 && attempt > 0 ==> start == spawned(v0, cx as int, cy as int),
                    v0.radius == 0 && attempt == 0 ==> start == v0,
                    v0.radius == 0 ==> (budget == u64::MAX && self@ == start) || (budget == 0 && self@
                        == spawned(v0, cx as int, cy as int)),
                decreases budget,
            {
                let u = self.rng.uni_u24();
                let v = self.rng.uni_u24();
                let ghost before = self@;
                let ghost dx = offset_of(u as int, v0.radius);
                let ghost dy = offset_of(v as int, v0.radius);
                proof {
                    if v0.radius == 0 {
                        let rr = v0.radius;
                        assert((u as int) * (2 * rr + 1) / 0x1000000 - rr == 0) by (nonlinear_arith)
                            requires
                                rr == 0,
                                0 <= u < 0x1000000,
                        ;
                        assert((v as int) * (2 * rr + 1) / 0x1000000 - rr == 0) by (nonlinear_arith)
                            requires
                                rr == 0,
                                0 <= v < 0x1000000,
                        ;
                        assert(dx == 0 && dy == 0);
                        lemma_spawned_twice(v0, cx as int, cy as int);
                    }
                }
                match self.trial(cx, cy, u, v) {
                    None => {
                        budget -= 1;
                    },
                    Some(ok) => {
                        proof {
                            let o = (dx, dy);
                            assert(offs.push(o).drop_last() =~= offs);
                            offs = offs.push(o);
                        }
                        if ok {
                            proof {
                                let t = self.grains@[before.grains.len() as int];
                                assert(self.grains@ == before.grains.push(t));
                                assert(self.grains@.take(g0.len() as int) =~= before.grains.take(g0.len() as int));
                                assert(self.grains@.skip(g0.len() as int) =~= before.grains.skip(g0.len() as int).push(t));
                                assert(self.grains@.skip(g0.len() as int).drop_last() =~= before.grains.skip(g0.len() as int));
                                assert(in_disc(t.x - cx, t.y - cy, v0.radius));
                                assert forall|j: int| g0.len() <= j < self.grains@.len() implies in_disc(
                                    #[trigger] self.grains@[j].x - cx,
                                    self.grains@[j].y - cy,
                                    v0.radius,
                                ) by {
                                    if j < before.grains.len() {
                                        assert(self.grains@[j] == before.grains[j]);
                                    }
                                }
                            }
                            placed += 1;
                        }
                        budget = 0;
                    },
                }
            }
            attempt += 1;
        }
        proof {
            assert(spawn_all(v0, cx as int, cy as int, offs) == self@);
        }
        placed
    }

    /// One frame: a spawn around `spawn_point` when one is given, then a
    /// settling step, then the drain when `drain_active`.
    pub fn frame(&mut self, spawn_point: Option<(i64, i64)>, drain_active: bool)
        requires
            old(self).wf(),
        ensures
            final(self).wf(),
            same_config(final(self)@, old(self)@),
            spawn_point is None ==> final(self)@ == settle_then_drain(old(self)@, drain_active),
            spawn_point matches Some((cx, cy)) ==> exists|mid: SimView|
                #[trigger] spawn_result(old(self)@, mid, cx as int, cy as int)
                && final(self)@ == settle_then_drain(mid, drain_active),
            spawn_point matches Some((cx, cy)) ==> (old(self)@.radius == 0 && old(self)@.tries > 0 ==>
                final(self)@ == settle_then_drain(spawned(old(self)@, cx as int, cy as int), drain_active)),
            drain_active ==> forall|i: int| 0 <= i < final(self)@.grains.len() ==>
                !in_drain(final(self)@.width, final(self)@.height, final(self)@.drain_half, #[trigger] final(self)@.grains[i]),
    {
        let ghost v0 = self@;
        if let Some((cx, cy)) = spawn_point {
            self.spawn(cx, cy);
        }
        let ghost mid = self@;
        self.settle();
        if drain_active {
            self.drain();
        }
        proof {
            if let Some((cx, cy)) = spawn_point {
                assert(spawn_result(v0, mid, cx as int, cy as int));
            }
        }
    }

    /// The grains, oldest first.
    pub fn particles(&self) -> (g: &Vec<Grain>)
        ensures
            g@ == self@.grains,
    {
        &self.grains
    }

    /// The active region.
    pub fn region(&self) -> (r: Region)
        ensures
            r == self@.region,
    {
        self.region
    }

    /// The width of the grid, in cells.
    pub fn width(&self) -> (w: usize)
        ensures
            w == self@.width,
    {
        self.width
    }

    /// The height of the grid, in cells.
    pub fn height(&self) -> (h: usize)
        ensures
            h == self@.height,
    {
        self.height
    }

    /// Advances every grain by at most one cell, newest first. A grain inside
    /// the active region moves to its fall target, if it has one, as the grid
    /// stands when its turn comes. The active region becomes the span of the
    /// cells moved into, widened by the margin and clipped to the grid; when
    /// nothing moved it stays as it was.
    pub fn settle(&mut self)
        requires
            old(self).wf(),
        ensures
            final(self).wf(),
            same_config(final(self)@, old(self)@),
            final(self)@ == settled(old(self)@),
    {
        let w = self.width;
        let h = self.height;
        let r = self.region;
        let n = self.grains.len();
        let ghost wi = w as int;
        let ghost hi = h as int;
        let ghost whole = settle_pass(self.grains@, wi, hi, r, empty_region(wi, hi), n as int);
        let mut acc = Region { min_x: w, max_x: 0, min_y: h, max_y: 0 };
        let mut idx: usize = n;
        while idx > 0
            invariant
                self.wf(),
                same_config(self@, old(self)@),
                self.region == r,
                self.width == w,
                self.height == h,
                wi == w as int,
                hi == h as int,
                self.grains@.len() == n,
                idx <= n,
                acc.max_x < w,
                acc.max_y < h,
                settle_pass(self.grains@, wi, hi, r, acc, idx as int) == whole,
            decreases idx,
        {
            idx -= 1;
            let p = self.grains[idx];
            proof {
                assert(in_bounds(wi, hi, self.grains@[idx as int].x as int, self.grains@[idx as int].y as int));
            }
            if r.min_x <= p.x && p.x <= r.max_x && r.min_y <= p.y && p.y <= r.max_y && p.y + 1 < h {
                let ny = p.y + 1;
                let x = p.x;
                let mut moved = false;
                let mut nx = x;
                if !self.is_occupied(x, ny) {
                    moved = true;
                } else if x > 0 && !self.is_occupied(x - 1, ny) {
                    nx = x - 1;
                    moved = true;
                } else if x + 1 < w && !self.is_occupied(x + 1, ny) {
                    nx = x + 1;
                    moved = true;
                }
                if moved {
                    assert(fall_target(self.grains@, wi, hi, p) == Some(grain_at(nx as int, ny as int)));
                    self.move_grain(idx, nx, ny);
                    acc = Region {
                        min_x: if nx < acc.min_x { nx } else { acc.min_x },
                        max_x: if nx > acc.max_x { nx } else { acc.max_x },
                        min_y: if ny < acc.min_y { ny } else { acc.min_y },
                        max_y: if ny > acc.max_y { ny } else { acc.max_y },
                    };
                } else {
                    assert(fall_target(self.grains@, wi, hi, p) is None);
                }
            }
        }
        if acc.min_x <= acc.max_x && acc.min_y <= acc.max_y {
            self.region = Region {
                min_x: if acc.min_x >= REGION_MARGIN { acc.min_x - REGION_MARGIN } else { 0 },
                max_x: if acc.max_x + REGION_MARGIN <= w - 1 { acc.max_x + REGION_MARGIN } else { w - 1 },
                min_y: if acc.min_y >= REGION_MARGIN { acc.min_y - REGION_MARGIN } else { 0 },
                max_y: if acc.max_y + REGION_MARGIN <= h - 1 { acc.max_y + REGION_MARGIN } else { h - 1 },
            };
        }
    }

    /// Empties the drain: clears its cells in the grid and removes the grains
    /// that rest on it, keeping the order of the others. The active region
    /// grows over each grain removed.
    pub fn drain(&mut self)
        requires
            old(self).wf(),
        ensures
            final(self).wf(),
            final(self)@ == drained(old(self)@),
            forall|i: int| 0 <= i < final(self)@.grains.len() ==>
                !in_drain(final(self)@.width, final(self)@.height, final(self)@.drain_half, #[trigger] final(self)@.grains[i]),
    {
        let w = self.width;
        let h = self.height;
        let half = self.drain_half;
        let ghost wi = w as int;
        let ghost hi = h as int;
        let ghost hf = half as int;
        let ghost g0 = self.grains@;
        let ghost grid0 = self.grid@;
        let mid = w / 2;
        let start = if mid >= half { mid - half } else { 0 };
        let end = if mid + half <= w - 1 { mid + half } else { w - 1 };
        let row = h - 1;
        proof { lemma_index_bounds(wi, hi, 0, row as int); }
        assert(row * w + w == w * h) by (nonlinear_arith)
            requires
                row == h - 1,
        ;
        let base = row * w;
        let mut x = start;
        while x <= end
            invariant
                old(self).wf(),
                old(self).width == w,
                old(self).height == h,
                old(self).drain_half == half,
                old(self).grid@ == grid0,
                old(self).grains@ == g0,
                self.region == old(self).region,
                self.drain_half == half,
                self.radius == old(self).radius,
                self.tries == old(self).tries,
                self.width == w,
                self.height == h,
                self.grains@ == g0,
                start <= x <= end + 1,
                end < w,
                base == row * w,
                base + w <= grid0.len(),
                self.grid@.len() == grid0.len(),
                forall|k: int| 0 <= k < grid0.len() ==> #[trigger] self.grid@[k] == (if base + start <= k < base + x {
                    false
                } else {
                    grid0[k]
                }),
            decreases end + 1 - x,
        {
            self.grid.set(base + x, false);
            x += 1;
        }
        let n = self.grains.len();
        let mut kept: Vec<Grain> = Vec::new();
        let mut region = self.region;
        let mut i: usize = 0;
        while i < n
            invariant
                old(self).wf(),
                old(self).width == w,
                old(self).height == h,
                old(self).drain_half == half,
                old(self).grid@ == grid0,
                old(self).grains@ == g0,
                self.radius == old(self).radius,
                self.tries == old(self).tries,
                self.grid@.len() == grid0.len(),
                base == row * w,
                forall|k: int| 0 <= k < grid0.len() ==> #[trigger] self.grid@[k] == (if base + start <= k <= base + end {
                    false
                } else {
                    grid0[k]
                }),
                self.grains@ == g0,
                n == g0.len(),
                i <= n,
                self.width == w,
                self.height == h,
                self.drain_half == half,
                row == h - 1,
                start == drain_start(wi, hf),
                end == drain_end(wi, hf),
                wi == w,
                hi == h,
                hf == half,
                distinct(g0),
                (kept@, region) == drain_pass(g0, wi, hi, hf, old(self)@.region, i as int),
                distinct(kept@),
                forall|q: Grain| #[trigger] kept@.contains(q) ==> g0.take(i as int).contains(q) && !in_drain(wi, hi, hf, q),
                forall|j: int| 0 <= j < i && !in_drain(wi, hi, hf, g0[j]) ==> kept@.contains(#[trigger] g0[j]),
            decreases n - i,
        {
            let p = self.grains[i];
            let ghost k0 = kept@;
            assert(g0.take(i + 1) == g0.take(i as int).push(p));
            if p.y == row && start <= p.x && p.x <= end {
                region = Region {
                    min_x: if p.x < region.min_x { p.x } else { region.min_x },
                    max_x: if p.x > region.max_x { p.x } else { region.max_x },
                    min_y: if p.y < region.min_y { p.y } else { region.min_y },
                    max_y: if p.y > region.max_y { p.y } else { region.max_y },
                };
                proof {
                    assert forall|q: Grain| #[trigger] kept@.contains(q) implies g0.take(i + 1).contains(q) && !in_drain(wi, hi, hf, q) by {
                        lemma_push_contains(g0.take(i as int), p, q);
                    }
                }
            } else {
                kept.push(p);
                proof {
                    if k0.contains(p) {
                        let j = choose|j: int| 0 <= j < i && g0.take(i as int)[j] == p;
                        assert(g0[j] == g0[i as int]);
                    }
                    assert forall|a: int, b: int| 0 <= a < kept@.len() && 0 <= b < kept@.len() && a != b implies
                        #[trigger] kept@[a] != #[trigger] kept@[b] by {
                        if a == k0.len() {
                            assert(k0.contains(k0[b]));
                        } else if b == k0.len() {
                            assert(k0.contains(k0[a]));
                        }
                    }
                    assert forall|q: Grain| #[trigger] kept@.contains(q) implies g0.take(i + 1).contains(q) && !in_drain(wi, hi, hf, q) by {
                        lemma_push_contains(k0, p, q);
                        lemma_push_contains(g0.take(i as int), p, q);
                    }
                    assert forall|j: int| 0 <= j < i + 1 && !in_drain(wi, hi, hf, g0[j]) implies kept@.contains(#[trigger] g0[j]) by {
                        lemma_push_contains(k0, p, g0[j]);
                    }
                }
            }
            i += 1;
        }
        self.grains = kept;
        self.region = region;
        proof {
            assert(g0.take(n as int) == g0);
            let g1 = self.grains@;
            assert forall|a: int| 0 <= a < g1.len() implies
                #[trigger] in_bounds(wi, hi, g1[a].x as int, g1[a].y as int) by {
                assert(g1.contains(g1[a]));
                let j = choose|j: int| 0 <= j < g0.len() && g0[j] == g1[a];
                assert(in_bounds(wi, hi, g0[j].x as int, g0[j].y as int));
            }
            assert forall|cx: int, cy: int| in_bounds(wi, hi, cx, cy) implies
                #[trigger] self.grid@[cell_index(wi, cx, cy)] == g1.contains(grain_at(cx, cy)) by {
                lemma_index_bounds(wi, hi, cx, cy);
                assert(grid0[cell_index(wi, cx, cy)] == g0.contains(grain_at(cx, cy)));
                if cy < row {
                    lemma_row_before(wi, cx, cy, row as int);
                }
                if g0.contains(grain_at(cx, cy)) && !in_drain(wi, hi, hf, grain_at(cx, cy)) {
                    let j = choose|j: int| 0 <= j < g0.len() && g0[j] == grain_at(cx, cy);
                    assert(g1.contains(g0[j]));
                }
            }
            assert forall|a: int| 0 <= a < g1.len() implies !in_drain(wi, hi, hf, #[trigger] g1[a]) by {
                assert(g1.contains(g1[a]));
            }
        }
    }

}

/// The grid marks a cell occupied exactly when a grain stands on it.
pub proof fn lemma_grid_matches_grains(s: &Sim)
    requires
        s.wf(),
    ensures
        forall|x: int, y: int| in_bounds(s@.width, s@.height, x, y) ==>
            #[trigger] s.cell(x, y) == s@.grains.contains(grain_at(x, y)),
{
}

/// No two grains share a cell.
pub proof fn lemma_no_overlap(s: &Sim)
    requires
        s.wf(),
    ensures
        distinct(s@.grains),
{
}

/// Every grain lies inside the grid.
pub proof fn lemma_grains_in_bounds(s: &Sim)
    requires
        s.wf(),
    ensures
        forall|i: int| 0 <= i < s@.grains.len() ==>
            #[trigger] in_bounds(s@.width, s@.height, s@.grains[i].x as int, s@.grains[i].y as int),
{
}

/// A settling pass over grains none of which has a fall target changes
/// neither the grains nor the accumulated region.
proof fn lemma_pass_idle(g: Seq<Grain>, w: int, h: int, r: Region, acc: Region, k: int)
    requires
        k <= g.len(),
        forall|i: int| 0 <= i < g.len() ==> fall_target(g, w, h, #[trigger] g[i]) is None,
    ensures
        settle_pass(g, w, h, r, acc, k) == (g, acc),
    decreases k,
{
    if k > 0 {
        assert(fall_target(g, w, h, g[k - 1]) is None);
        lemma_pass_idle(g, w, h, r, acc, k - 1);
    }
}

/// Cell `(x, y)` is off the grid, or held by one of the grains before index `i`
/// (those a settling pass visits after grain `i`).
pub open spec fn held_before(g: Seq<Grain>, w: int, h: int, i: int, x: int, y: int) -> bool {
    !in_bounds(w, h, x, y) || exists|j: int| 0 <= j < i && #[trigger] g[j] == grain_at(x, y)
}

/// Each of the three downward targets of grain `i` is held before index `i`.
pub open spec fn blocked_before(g: Seq<Grain>, w: int, h: int, i: int) -> bool {
    let x = g[i].x as int;
    let y = g[i].y as int;
    held_before(g, w, h, i, x, y + 1) && held_before(g, w, h, i, x - 1, y + 1) && held_before(g, w, h, i, x + 1, y + 1)
}

/// A grain whose three downward targets are off the grid or held by grains
/// that the pass has not yet visited does not move in a settling step.
pub proof fn lemma_blocked_grain_stays(s: &Sim, i: int)
    requires
        s.wf(),
        0 <= i < s@.grains.len(),
        blocked_before(s@.grains, s@.width, s@.height, i),
    ensures
        settled(s@).grains[i] == s@.grains[i],
{
    let v = s@;
    lemma_blocked_in_pass(v.grains, v.width, v.height, v.region, empty_region(v.width, v.height), v.grains.len() as int, i);
}

proof fn lemma_held_not_free(g: Seq<Grain>, w: int, h: int, i: int, x: int, y: int)
    requires
        held_before(g, w, h, i, x, y),
        i <= g.len(),
    ensures
        !is_free(g, w, h, x, y),
{
    if in_bounds(w, h, x, y) {
        let j = choose|j: int| 0 <= j < i && #[trigger] g[j] == grain_at(x, y);
        assert(g.contains(g[j]));
    }
}

proof fn lemma_held_kept(g: Seq<Grain>, g2: Seq<Grain>, w: int, h: int, i: int, x: int, y: int)
    requires
        held_before(g, w, h, i, x, y),
        i <= g.len(),
        i <= g2.len(),
        forall|j: int| 0 <= j < i ==> g2[j] == g[j],
    ensures
        held_before(g2, w, h, i, x, y),
{
    if in_bounds(w, h, x, y) {
        let j = choose|j: int| 0 <= j < i && #[trigger] g[j] == grain_at(x, y);
        assert(g2[j] == grain_at(x, y));
    }
}

/// A settling pass over the first `k` grains keeps the number of grains and
/// leaves the grains from index `k` on where they are.
proof fn lemma_pass_keeps_rest(g: Seq<Grain>, w: int, h: int, r: Region, acc: Region, k: int, i: int)
    requires
        0 <= k <= i < g.len(),
    ensures
        settle_pass(g, w, h, r, acc, k).0.len() == g.len(),
        settle_pass(g, w, h, r, acc, k).0[i] == g[i],
    decreases k,
{
    if k > 0 {
        let t = fall_target(g, w, h, g[k - 1]);
        if in_region(r, g[k - 1]) && t is Some {
            lemma_pass_keeps_rest(g.update(k - 1, t->0), w, h, r, grow(acc, t->0), k - 1, i);
        } else {
            lemma_pass_keeps_rest(g, w, h, r, acc, k - 1, i);
        }
    }
}

proof fn lemma_blocked_in_pass(g: Seq<Grain>, w: int, h: int, r: Region, acc: Region, k: int, i: int)
    requires
        0 <= i < k <= g.len(),
        blocked_before(g, w, h, i),
    ensures
        settle_pass(g, w, h, r, acc, k).0[i] == g[i],
    decreases k,
{
    let x = g[i].x as int;
    let y = g[i].y as int;
    let t = fall_target(g, w, h, g[k - 1]);
    if k - 1 == i {
        lemma_held_not_free(g, w, h, i, x, y + 1);
        lemma_held_not_free(g, w, h, i, x - 1, y + 1);
        lemma_held_not_free(g, w, h, i, x + 1, y + 1);
        assert(t is None);
        lemma_pass_keeps_rest(g, w, h, r, acc, i, i);
    } else {
        let moves = in_region(r, g[k - 1]) && t is Some;
        let g2 = if moves { g.update(k - 1, t->0) } else { g };
        let acc2 = if moves { grow(acc, t->0) } else { acc };
        assert(g2[i] == g[i]);
        lemma_held_kept(g, g2, w, h, i, x, y + 1);
        lemma_held_kept(g, g2, w, h, i, x - 1, y + 1);
        lemma_held_kept(g, g2, w, h, i, x + 1, y + 1);
        lemma_blocked_in_pass(g2, w, h, r, acc2, k - 1, i);
    }
}

/// When no grain has a free cell among its three downward targets, a
/// settling step changes nothing, so every later step changes nothing either.
pub proof fn lemma_settled_is_fixed(s: &Sim)
    requires
        s.wf(),
        forall|i: int| 0 <= i < s@.grains.len() ==> fall_target(s@.grains, s@.width, s@.height, #[trigger] s@.grains[i]) is None,
    ensures
        settled(s@) == s@,
        settled(settled(s@)) == s@,
{
    let v = s@;
    lemma_pass_idle(v.grains, v.width, v.height, v.region, empty_region(v.width, v.height), v.grains.len() as int);
}

/// After draining, no grain rests on the drain.
pub proof fn lemma_drain_complete(v: SimView)
    ensures
        forall|i: int| 0 <= i < drained(v).grains.len() ==>
            !in_drain(v.width, v.height, v.drain_half, #[trigger] drained(v).grains[i]),
{
    lemma_drain_pass_clear(v.grains, v.width, v.height, v.drain_half, v.region, v.grains.len() as int);
}

proof fn lemma_drain_pass_clear(g: Seq<Grain>, w: int, h: int, half: int, r: Region, k: int)
    ensures
        forall|i: int| 0 <= i < drain_pass(g, w, h, half, r, k).0.len() ==>
            !in_drain(w, h, half, #[trigger] drain_pass(g, w, h, half, r, k).0[i]),
    decreases k,
{
    if k > 0 {
        lemma_drain_pass_clear(g, w, h, half, r, k - 1);
        let prev = drain_pass(g, w, h, half, r, k - 1).0;
        if !in_drain(w, h, half, g[k - 1]) {
            assert forall|i: int| 0 <= i < prev.push(g[k - 1]).len() implies
                !in_drain(w, h, half, #[trigger] prev.push(g[k - 1])[i]) by {
                if i < prev.len() {
                    assert(prev.push(g[k - 1])[i] == prev[i]);
                }
            }
        }
    }
}

/// A second spawn on the same cell changes nothing.
proof fn lemma_spawned_twice(v: SimView, x: int, y: int)
    ensures
        spawned(spawned(v, x, y), x, y) == spawned(v, x, y),
{
    if is_free(v.grains, v.width, v.height, x, y) {
        let g = v.grains.push(grain_at(x, y));
        assert(g[v.grains.len() as int] == grain_at(x, y));
    }
}

/// Rows come one after another in the grid: a cell of an earlier row comes
/// before every cell of a later one.
proof fn lemma_row_before(w: int, x: int, y1: int, y2: int)
    requires
        0 <= x < w,
        0 <= y1 < y2,
    ensures
        0 <= y1 * w,
        y1 * w + x < y2 * w,
{
    assert(0 <= y1 * w && y1 * w + x < y2 * w) by (nonlinear_arith)
        requires
            0 <= x < w,
            0 <= y1 < y2,
    ;
}

/// Every in-bounds cell has a position inside the grid.
proof fn lemma_index_bounds(w: int, h: int, x: int, y: int)
    requires
        in_bounds(w, h, x, y),
    ensures
        0 <= cell_index(w, x, y) < w * h,
{
    lemma_row_before(w, x, y, h);
    assert(h * w == w * h) by (nonlinear_arith);
}

/// Distinct in-bounds cells have distinct grid positions.
proof fn lemma_index_injective(w: int, h: int, x1: int, y1: int, x2: int, y2: int)
    requires
        in_bounds(w, h, x1, y1),
        in_bounds(w, h, x2, y2),
    ensures
        (cell_index(w, x1, y1) == cell_index(w, x2, y2)) == (x1 == x2 && y1 == y2),
{
    if y1 < y2 {
        lemma_row_before(w, x1, y1, y2);
        lemma_row_before(w, x2, 0, y2 + 1);
        assert(y2 * w >= 0) by (nonlinear_arith) requires y2 >= 0, w > 0;
    } else if y2 < y1 {
        lemma_row_before(w, x2, y2, y1);
        assert(y1 * w >= 0) by (nonlinear_arith) requires y1 >= 0, w > 0;
    }
}

/// Replacing grain `i` of distinct grains by `t`: a grain is then present iff
/// it is `t`, or it was present and was not the one replaced.
proof fn lemma_update_contains(g: Seq<Grain>, i: int, t: Grain, q: Grain)
    requires
        distinct(g),
        0 <= i < g.len(),
    ensures
        g.update(i, t).contains(q) == (q == t || (g.contains(q) && q != g[i])),
{
    let u = g.update(i, t);
    if q == t {
        assert(u[i] == q);
    } else if g.contains(q) && q != g[i] {
        let j = choose|j: int| 0 <= j < g.len() && g[j] == q;
        assert(u[j] == q);
    }
    if u.contains(q) && q != t {
        let j = choose|j: int| 0 <= j < u.len() && u[j] == q;
        assert(j != i);
        assert(g[j] == q);
    }
}

/// After a push, a grain is present iff it is the new one or was present.
proof fn lemma_push_contains(g: Seq<Grain>, t: Grain, q: Grain)
    ensures
        g.push(t).contains(q) == (q == t || g.contains(q)),
{
    let u = g.push(t);
    if q == t {
        assert(u[g.len() as int] == q);
    } else if g.contains(q) {
        let j = choose|j: int| 0 <= j < g.len() && g[j] == q;
        assert(u[j] == q);
    }
    if u.contains(q) && q != t {
        let j = choose|j: int| 0 <= j < u.len() && u[j] == q;
        assert(g[j] == q);
    }
}

} // verus!
