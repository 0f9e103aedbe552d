use vstd::prelude::*;
use crate::components::GridPosition;
use crate::constants::FLOW_RADIUS;

verus! {

// ── Geometry of the field ──────────────────────────────────────────────────────────────────

/// Whether tile `(x, y)` lies in the square of half-width `r` centred on `c`.
pub open spec fn in_square(c: GridPosition, r: int, x: int, y: int) -> bool {
    c.x - r <= x <= c.x + r && c.y - r <= y <= c.y + r
}

/// Chebyshev (king-move) distance from `c` to tile `(x, y)`.
pub open spec fn cheb(c: GridPosition, x: int, y: int) -> int {
    let dx = if x >= c.x { x - c.x } else { c.x - x };
    let dy = if y >= c.y { y - c.y } else { c.y - y };
    if dx >= dy { dx } else { dy }
}

/// A one-tile king move: each component in -1..=1, not both zero.
pub open spec fn is_unit_step(dx: int, dy: int) -> bool {
    -1 <= dx <= 1 && -1 <= dy <= 1 && !(dx == 0 && dy == 0)
}

/// Cost of one step: 14 for a diagonal move, 10 for a straight one.
pub open spec fn step_cost(dx: int, dy: int) -> int {
    if dx != 0 && dy != 0 { 14 } else { 10 }
}

/// The eight neighbour offsets, in the order the search expands them.
pub open spec fn spec_offset(k: int) -> (int, int) {
    if k == 0 { (1, 0) }
    else if k == 1 { (-1, 0) }
    else if k == 2 { (0, 1) }
    else if k == 3 { (0, -1) }
    else if k == 4 { (1, 1) }
    else if k == 5 { (1, -1) }
    else if k == 6 { (-1, 1) }
    else { (-1, -1) }
}

/// Row-major slot of tile `(x, y)` in the dense `(2r+1) × (2r+1)` storage centred on `c`.
pub open spec fn cell(c: GridPosition, r: int, x: int, y: int) -> int {
    (x - c.x + r) * (2 * r + 1) + (y - c.y + r)
}

/// What a dense store `s` holds at tile `(x, y)`.
pub open spec fn at<T>(s: Seq<T>, c: GridPosition, r: int, x: int, y: int) -> T {
    s[cell(c, r, x, y)]
}

/// Number of occupied slots of `s`.
pub open spec fn count_some<T>(s: Seq<Option<T>>) -> nat
    decreases s.len(),
{
    if s.len() == 0 {
        0
    } else {
        count_some(s.drop_last()) + if s.last() is Some { 1nat } else { 0nat }
    }
}

proof fn lemma_count_le_len<T>(s: Seq<Option<T>>)
    ensures
        count_some(s) <= s.len(),
    decreases s.len(),
{
    if s.len() > 0 {
        lemma_count_le_len(s.drop_last());
    }
}

proof fn lemma_count_none<T>(s: Seq<Option<T>>)
    requires
        forall|i: int| 0 <= i < s.len() ==> s[i] is None,
    ensures
        count_some(s) == 0,
    decreases s.len(),
{
    if s.len() > 0 {
        lemma_count_none(s.drop_last());
    }
}

proof fn lemma_count_fill<T>(s: Seq<Option<T>>, i: int, v: T)
    requires
        0 <= i < s.len(),
        s[i] is None,
    ensures
        count_some(s.update(i, Some(v))) == count_some(s) + 1,
    decreases s.len(),
{
    let t = s.update(i, Some(v));
    if i == s.len() - 1 {
        assert(t.drop_last() =~= s.drop_last());
    } else {
        assert(t.drop_last() =~= s.drop_last().update(i, Some(v)));
        lemma_count_fill(s.drop_last(), i, v);
    }
}

proof fn lemma_cell_bounds(c: GridPosition, r: int, x: int, y: int)
    requires
        r >= 0,
        in_square(c, r, x, y),
    ensures
        0 <= cell(c, r, x, y) < (2 * r + 1) * (2 * r + 1),
{
    let a = x - c.x + r;
    let b = y - c.y + r;
    let side = 2 * r + 1;
    assert(0 <= a * side + b < side * side) by (nonlinear_arith)
        requires
            0 <= a < side,
            0 <= b < side,
    ;
}

proof fn lemma_cell_injective(c: GridPosition, r: int, x1: int, y1: int, x2: int, y2: int)
    requires
        r >= 0,
        in_square(c, r, x1, y1),
        in_square(c, r, x2, y2),
        cell(c, r, x1, y1) == cell(c, r, x2, y2),
    ensures
        x1 == x2 && y1 == y2,
{
    let a1 = x1 - c.x + r;
    let b1 = y1 - c.y + r;
    let a2 = x2 - c.x + r;
    let b2 = y2 - c.y + r;
    let side = 2 * r + 1;
    assert(a1 == a2 && b1 == b2) by (nonlinear_arith)
        requires
            0 <= a1 < side,
            0 <= b1 < side,
            0 <= a2 < side,
            0 <= b2 < side,
            a1 * side + b1 == a2 * side + b2,
    ;
}

/// Writing one tile of a dense store leaves every other tile of the square unchanged.
proof fn lemma_store_write<T>(s: Seq<T>, c: GridPosition, r: int, x: int, y: int, v: T)
    requires
        r >= 0,
        s.len() == (2 * r + 1) * (2 * r + 1),
        in_square(c, r, x, y),
    ensures
        forall|x2: int, y2: int|
            in_square(c, r, x2, y2) ==> #[trigger] at(s.update(cell(c, r, x, y), v), c, r, x2, y2)
                == if x2 == x && y2 == y { v } else { at(s, c, r, x2, y2) },
{
    lemma_cell_bounds(c, r, x, y);
    assert forall|x2: int, y2: int| in_square(c, r, x2, y2) implies #[trigger] at(
        s.update(cell(c, r, x, y), v),
        c,
        r,
        x2,
        y2,
    ) == if x2 == x && y2 == y { v } else { at(s, c, r, x2, y2) } by {
        lemma_cell_bounds(c, r, x2, y2);
        if cell(c, r, x, y) == cell(c, r, x2, y2) {
            lemma_cell_injective(c, r, x, y, x2, y2);
        }
    }
}

fn neighbor_offset(k: usize) -> (o: (i32, i32))
    requires
        k < 8,
    ensures
        o.0 == spec_offset(k as int).0,
        o.1 == spec_offset(k as int).1,
{
    match k {
        0 => (1, 0),
        1 => (-1, 0),
        2 => (0, 1),
        3 => (0, -1),
        4 => (1, 1),
        5 => (1, -1),
        6 => (-1, 1),
        _ => (-1, -1),
    }
}

/// Whether `(x, y)` is within `r` tiles of `c` on both axes, computed without overflow.
fn within_square(c: GridPosition, r: i32, x: i32, y: i32) -> (b: bool)
    ensures
        b == in_square(c, r as int, x as int, y as int),
{
    let dx: i64 = x as i64 - c.x as i64;
    let dy: i64 = y as i64 - c.y as i64;
    -(r as i64) <= dx && dx <= r as i64 && -(r as i64) <= dy && dy <= r as i64
}

fn slot(c: GridPosition, r: i32, x: i32, y: i32) -> (i: usize)
    requires
        0 <= r <= 1000,
        in_square(c, r as int, x as int, y as int),
    ensures
        i as int == cell(c, r as int, x as int, y as int),
        i < (2 * r + 1) * (2 * r + 1),
{
    proof {
        lemma_cell_bounds(c, r as int, x as int, y as int);
    }
    let side: usize = (2 * r + 1) as usize;
    let a: usize = (x as i64 - c.x as i64 + r as i64) as usize;
    let b: usize = (y as i64 - c.y as i64 + r as i64) as usize;
    proof {
        assert(a * side + b < side * side) by (nonlinear_arith)
            requires
                a < side,
                b < side,
        ;
        assert(side * side <= 2001 * 2001) by (nonlinear_arith)
            requires
                side <= 2001,
        ;
    }
    a * side + b
}

// ── Sweep order ───────────────────────────────────────────────────────────────────────────
//
// The sweep discovers the tiles of each ring (king-move distance `L` from the player) in a
// fixed order: the east edge (`a == L`), the west edge, the north edge, the south edge, then
// the four corners; along an edge by distance from the axis, positive side first. `ring_pos`
// numbers a tile within its ring in that order, and the pair (ring, ring_pos) orders tiles
// exactly as the queue does. In that order each tile is first reached from its diagonal-first
// predecessor `toward(a, b)` (one king move toward the player), which fixes its cost to the
// octile distance and its step to point straight back along that move.

pub open spec fn iabs(t: int) -> int {
    if t >= 0 { t } else { -t }
}

pub open spec fn sg(t: int) -> int {
    if t > 0 { 1 } else if t < 0 { -1 } else { 0 }
}

/// King-move distance of the relative tile `(a, b)` from the player.
pub open spec fn ring(a: int, b: int) -> int {
    if iabs(a) >= iabs(b) { iabs(a) } else { iabs(b) }
}

/// Octile distance: 10 per straight move, 14 per diagonal move, along a shortest king path.
pub open spec fn octile(a: int, b: int) -> int {
    if iabs(a) >= iabs(b) { 10 * iabs(a) + 4 * iabs(b) } else { 10 * iabs(b) + 4 * iabs(a) }
}

/// Position along an edge: the axis first, then distance 1 on the positive side, then on the
/// negative side, and so on.
pub open spec fn edge_pos(t: int) -> int {
    if t == 0 { 0 } else if t > 0 { 2 * t - 1 } else { -2 * t }
}

/// Position of the relative tile `(a, b)` within its ring, in discovery order.
pub open spec fn ring_pos(a: int, b: int) -> int {
    let l = ring(a, b);
    if l == 0 { 0 }
    else if a == l && iabs(b) < l { edge_pos(b) }
    else if a == -l && iabs(b) < l { (2 * l - 1) + edge_pos(b) }
    else if b == l && iabs(a) < l { 2 * (2 * l - 1) + edge_pos(a) }
    else if b == -l && iabs(a) < l { 3 * (2 * l - 1) + edge_pos(a) }
    else if a == l && b == l { 4 * (2 * l - 1) }
    else if a == l { 4 * (2 * l - 1) + 1 }
    else if b == l { 4 * (2 * l - 1) + 2 }
    else { 4 * (2 * l - 1) + 3 }
}

/// Whether relative tile `(a1, b1)` comes before `(a2, b2)` in discovery order.
#[verifier::opaque]
pub open spec fn before(a1: int, b1: int, a2: int, b2: int) -> bool {
    ring(a1, b1) < ring(a2, b2) || (ring(a1, b1) == ring(a2, b2) && ring_pos(a1, b1) < ring_pos(a2, b2))
}

proof fn lemma_before_trans(a1: int, b1: int, a2: int, b2: int, a3: int, b3: int)
    requires
        before(a1, b1, a2, b2),
        before(a2, b2, a3, b3),
    ensures
        before(a1, b1, a3, b3),
{
    reveal(before);
}

proof fn lemma_before_strict(a1: int, b1: int, a2: int, b2: int)
    requires
        before(a1, b1, a2, b2),
    ensures
        !before(a2, b2, a1, b1),
        !(a1 == a2 && b1 == b2),
{
    reveal(before);
}

/// Index of a king move in the expansion order of `spec_offset`.
pub open spec fn offset_index(dx: int, dy: int) -> int {
    if dx == 1 && dy == 0 { 0 }
    else if dx == -1 && dy == 0 { 1 }
    else if dx == 0 && dy == 1 { 2 }
    else if dx == 0 && dy == -1 { 3 }
    else if dx == 1 && dy == 1 { 4 }
    else if dx == 1 && dy == -1 { 5 }
    else if dx == -1 && dy == 1 { 6 }
    else { 7 }
}

proof fn lemma_offset_index(dx: int, dy: int)
    requires
        is_unit_step(dx, dy),
    ensures
        0 <= offset_index(dx, dy) < 8,
        spec_offset(offset_index(dx, dy)) == (dx, dy),
{
}

proof fn lemma_offset_unit(k: int)
    requires
        0 <= k < 8,
    ensures
        is_unit_step(spec_offset(k).0, spec_offset(k).1),
        offset_index(spec_offset(k).0, spec_offset(k).1) == k,
{
}

/// The predecessor is one ring closer, hence earlier.
proof fn lemma_toward_before(a: int, b: int)
    requires
        !(a == 0 && b == 0),
    ensures
        ring(a - sg(a), b - sg(b)) == ring(a, b) - 1,
        before(a - sg(a), b - sg(b), a, b),
{
    reveal(before);
}

/// Ordering passes from predecessors to successors: tiles reached from an earlier tile come
/// earlier.
proof fn lemma_before_lifts(a1: int, b1: int, a2: int, b2: int)
    requires
        !(a1 == 0 && b1 == 0),
        !(a2 == 0 && b2 == 0),
        before(a1 - sg(a1), b1 - sg(b1), a2 - sg(a2), b2 - sg(b2)),
    ensures
        before(a1, b1, a2, b2),
{
    reveal(before);
    lemma_toward_before(a1, b1);
    lemma_toward_before(a2, b2);
}

/// Tiles reached from the same predecessor come in expansion order.
proof fn lemma_siblings_in_offset_order(a1: int, b1: int, a2: int, b2: int)
    requires
        !(a1 == 0 && b1 == 0),
        !(a2 == 0 && b2 == 0),
        a1 - sg(a1) == a2 - sg(a2),
        b1 - sg(b1) == b2 - sg(b2),
        offset_index(sg(a1), sg(b1)) < offset_index(sg(a2), sg(b2)),
    ensures
        before(a1, b1, a2, b2),
{
    reveal(before);
}

/// Of all neighbours of a tile, its predecessor is discovered first.
proof fn lemma_toward_first(a: int, b: int, dx: int, dy: int)
    requires
        !(a == 0 && b == 0),
        is_unit_step(dx, dy),
        !(dx == sg(a) && dy == sg(b)),
    ensures
        before(a - sg(a), b - sg(b), a - dx, b - dy),
{
    reveal(before);
}

/// One move along the predecessor chain costs exactly the octile difference.
proof fn lemma_octile_step(a: int, b: int)
    requires
        !(a == 0 && b == 0),
    ensures
        octile(a, b) == octile(a - sg(a), b - sg(b)) + step_cost(sg(a), sg(b)),
{
}

// ── The field ─────────────────────────────────────────────────────────────────────────────

/// Movement costs and steering directions toward the player over the square of tiles within
/// `radius` of the player. Stored densely, one slot per tile of the square; a field with
/// radius -1 covers no tile.
pub struct FlowField {
    center: GridPosition,
    radius: i32,
    cost: Vec<Option<u32>>,
    direction: Vec<Option<(i32, i32)>>,
}

impl FlowField {
    /// The dense stores match the square they cover.
    pub closed spec fn wf(&self) -> bool {
        &&& -1 <= self.radius <= 1000
        &&& self.radius >= 0 ==> self.cost@.len() == (2 * self.radius + 1) * (2 * self.radius + 1)
        &&& self.radius >= 0 ==> self.direction@.len() == (2 * self.radius + 1) * (2 * self.radius + 1)
    }

    /// Accumulated movement cost from tile `(x, y)` to the player, or `None` off the field.
    pub closed spec fn spec_cost(&self, x: int, y: int) -> Option<u32> {
        if in_square(self.center, self.radius as int, x, y) {
            at(self.cost@, self.center, self.radius as int, x, y)
        } else {
            None
        }
    }

    /// The one-tile step a walker on `(x, y)` should take toward the player, or `None`.
    pub closed spec fn spec_direction(&self, x: int, y: int) -> Option<(i32, i32)> {
        if in_square(self.center, self.radius as int, x, y) {
            at(self.direction@, self.center, self.radius as int, x, y)
        } else {
            None
        }
    }

    /// A field that covers no tile (no player to path toward yet).
    pub fn empty() -> (f: FlowField)
        ensures
            f.wf(),
            forall|x: int, y: int| f.spec_cost(x, y) is None && f.spec_direction(x, y) is None,
    {
        FlowField {
            center: GridPosition { x: 0, y: 0 },
            radius: -1,
            cost: Vec::new(),
            direction: Vec::new(),
        }
    }

    /// Cost recorded for `pos`, if the field covers it.
    pub fn cost_at(&self, pos: GridPosition) -> (r: Option<u32>)
        requires
            self.wf(),
        ensures
            r == self.spec_cost(pos.x as int, pos.y as int),
    {
        if self.radius < 0 || !within_square(self.center, self.radius, pos.x, pos.y) {
            return None;
        }
        let i = slot(self.center, self.radius, pos.x, pos.y);
        self.cost[i]
    }

    /// Steering step recorded for `pos`, if any: the offset of the neighbouring tile one move
    /// closer to the player.
    pub fn direction_at(&self, pos: GridPosition) -> (r: Option<(i32, i32)>)
        requires
            self.wf(),
        ensures
            r == self.spec_direction(pos.x as int, pos.y as int),
    {
        if self.radius < 0 || !within_square(self.center, self.radius, pos.x, pos.y) {
            return None;
        }
        let i = slot(self.center, self.radius, pos.x, pos.y);
        self.direction[i]
    }
}


/// The state the breadth-first sweep keeps between tiles: every tile discovered so far has a
/// cost, every discovered tile other than the player has a king-move step to a discovered tile
/// whose cost is lower by exactly the step's cost, and costs grow at least 10 per ring.
#[verifier::opaque]
pub open spec fn sweep_consistent(
    c: GridPosition,
    r: int,
    cost: Seq<Option<u32>>,
    direction: Seq<Option<(i32, i32)>>,
) -> bool {
    &&& at(cost, c, r, c.x as int, c.y as int) == Some(0u32)
    &&& at(direction, c, r, c.x as int, c.y as int) is None
    &&& forall|x: int, y: int|
        in_square(c, r, x, y) && !(x == c.x && y == c.y) ==> (#[trigger] at(direction, c, r, x, y)
            is Some <==> at(cost, c, r, x, y) is Some)
    &&& forall|x: int, y: int|
        in_square(c, r, x, y) && #[trigger] at(direction, c, r, x, y) is Some ==> {
            let d = at(direction, c, r, x, y)->0;
            &&& is_unit_step(d.0 as int, d.1 as int)
            &&& in_square(c, r, x + d.0, y + d.1)
            &&& at(cost, c, r, x + d.0, y + d.1) is Some
            &&& at(cost, c, r, x, y)->0 == at(cost, c, r, x + d.0, y + d.1)->0 + step_cost(
                d.0 as int,
                d.1 as int,
            )
        }
    &&& forall|x: int, y: int|
        in_square(c, r, x, y) && #[trigger] at(cost, c, r, x, y) is Some ==> at(cost, c, r, x, y)->0
            >= 10 * cheb(c, x, y)
}

/// Every queued tile lies in the square and has a cost.
pub open spec fn queue_ok(c: GridPosition, r: int, cost: Seq<Option<u32>>, queue: Seq<GridPosition>) -> bool {
    forall|j: int|
        0 <= j < queue.len() ==> in_square(c, r, #[trigger] queue[j].x as int, queue[j].y as int)
            && at(cost, c, r, queue[j].x as int, queue[j].y as int) is Some
}

/// Every tile with a cost was queued, at position `pos[(x, y)]`, and no cost exceeds 14 per
/// queued tile beyond the first.
pub open spec fn indexed(
    c: GridPosition,
    r: int,
    cost: Seq<Option<u32>>,
    queue: Seq<GridPosition>,
    pos: Map<(int, int), int>,
) -> bool {
    forall|x: int, y: int|
        in_square(c, r, x, y) && #[trigger] at(cost, c, r, x, y) is Some ==> {
            &&& pos.contains_key((x, y))
            &&& 0 <= pos[(x, y)] < queue.len()
            &&& queue[pos[(x, y)]].x == x
            &&& queue[pos[(x, y)]].y == y
            &&& at(cost, c, r, x, y)->0 <= 14 * (queue.len() - 1)
        }
}

/// The first `head` queued tiles have been expanded: all their in-square neighbours have a cost.
pub open spec fn expanded(
    c: GridPosition,
    r: int,
    cost: Seq<Option<u32>>,
    queue: Seq<GridPosition>,
    head: int,
) -> bool {
    forall|j: int, k: int|
        0 <= j < head && 0 <= k < 8 && in_square(
            c,
            r,
            queue[j].x + spec_offset(k).0,
            queue[j].y + spec_offset(k).1,
        ) ==> #[trigger] at(cost, c, r, queue[j].x + spec_offset(k).0, queue[j].y + spec_offset(k).1)
            is Some
}

/// All tiles of the square have a cost.
pub open spec fn complete(c: GridPosition, r: int, cost: Seq<Option<u32>>) -> bool {
    forall|x: int, y: int| in_square(c, r, x, y) ==> #[trigger] at(cost, c, r, x, y) is Some
}

proof fn lemma_sweep_start(
    c: GridPosition,
    r: int,
    cost0: Seq<Option<u32>>,
    dir: Seq<Option<(i32, i32)>>,
)
    requires
        r >= 0,
        cost0.len() == (2 * r + 1) * (2 * r + 1),
        dir.len() == (2 * r + 1) * (2 * r + 1),
        forall|j: int| 0 <= j < cost0.len() ==> cost0[j] is None && dir[j] is None,
    ensures
        ({
            let cost = cost0.update(cell(c, r, c.x as int, c.y as int), Some(0u32));
            let queue = seq![c];
            let pos = map![(c.x as int, c.y as int) => 0int];
            &&& sweep_consistent(c, r, cost, dir)
            &&& queue_ok(c, r, cost, queue)
            &&& indexed(c, r, cost, queue, pos)
            &&& count_some(cost) == 1
        }),
{
    reveal(sweep_consistent);
    let cost = cost0.update(cell(c, r, c.x as int, c.y as int), Some(0u32));
    lemma_cell_bounds(c, r, c.x as int, c.y as int);
    lemma_count_none(cost0);
    lemma_count_fill(cost0, cell(c, r, c.x as int, c.y as int), 0u32);
    lemma_store_write(cost0, c, r, c.x as int, c.y as int, Some(0u32));
    assert forall|x: int, y: int| in_square(c, r, x, y) implies #[trigger] at(dir, c, r, x, y) is None
        && (at(cost, c, r, x, y) is Some ==> x == c.x && y == c.y) by {
        lemma_cell_bounds(c, r, x, y);
    }
    let queue = seq![c];
    let pos = map![(c.x as int, c.y as int) => 0int];
    assert(sweep_consistent(c, r, cost, dir)) by {
        assert forall|x: int, y: int|
            in_square(c, r, x, y) && #[trigger] at(cost, c, r, x, y) is Some implies at(
            cost,
            c,
            r,
            x,
            y,
        )->0 >= 10 * cheb(c, x, y) by {
            assert(at(dir, c, r, x, y) is None);
        }
        assert(at(dir, c, r, c.x as int, c.y as int) is None);
    }
    assert(queue_ok(c, r, cost, queue)) by {
        assert forall|j: int| 0 <= j < queue.len() implies in_square(
            c,
            r,
            #[trigger] queue[j].x as int,
            queue[j].y as int,
        ) && at(cost, c, r, queue[j].x as int, queue[j].y as int) is Some by {
            assert(queue[j] == c);
        }
    }
    assert(indexed(c, r, cost, queue, pos)) by {
        assert forall|x: int, y: int|
            in_square(c, r, x, y) && #[trigger] at(cost, c, r, x, y) is Some implies {
            &&& pos.contains_key((x, y))
            &&& 0 <= pos[(x, y)] < queue.len()
            &&& queue[pos[(x, y)]].x == x
            &&& queue[pos[(x, y)]].y == y
            &&& at(cost, c, r, x, y)->0 <= 14 * (queue.len() - 1)
        } by {
            assert(at(dir, c, r, x, y) is None);
        }
    }
}

proof fn lemma_sweep_discover(
    c: GridPosition,
    r: int,
    cost: Seq<Option<u32>>,
    dir: Seq<Option<(i32, i32)>>,
    queue: Seq<GridPosition>,
    pos: Map<(int, int), int>,
    cur: GridPosition,
    cc: u32,
    k: int,
    nb: GridPosition,
    v: u32,
    d: (i32, i32),
)
    requires
        r >= 0,
        cost.len() == (2 * r + 1) * (2 * r + 1),
        dir.len() == (2 * r + 1) * (2 * r + 1),
        sweep_consistent(c, r, cost, dir),
        queue_ok(c, r, cost, queue),
        indexed(c, r, cost, queue, pos),
        count_some(cost) == queue.len(),
        in_square(c, r, cur.x as int, cur.y as int),
        at(cost, c, r, cur.x as int, cur.y as int) == Some(cc),
        0 <= k < 8,
        nb.x == cur.x + spec_offset(k).0,
        nb.y == cur.y + spec_offset(k).1,
        in_square(c, r, nb.x as int, nb.y as int),
        at(cost, c, r, nb.x as int, nb.y as int) is None,
        v == cc + step_cost(spec_offset(k).0, spec_offset(k).1),
        d.0 == cur.x - nb.x,
        d.1 == cur.y - nb.y,
    ensures
        ({
            let i = cell(c, r, nb.x as int, nb.y as int);
            let cost2 = cost.update(i, Some(v));
            let dir2 = dir.update(i, Some(d));
            let queue2 = queue.push(nb);
            let pos2 = pos.insert((nb.x as int, nb.y as int), queue.len() as int);
            &&& sweep_consistent(c, r, cost2, dir2)
            &&& queue_ok(c, r, cost2, queue2)
            &&& indexed(c, r, cost2, queue2, pos2)
            &&& count_some(cost2) == queue2.len()
            &&& forall|x: int, y: int|
                in_square(c, r, x, y) && #[trigger] at(cost, c, r, x, y) is Some ==> at(
                    cost2,
                    c,
                    r,
                    x,
                    y,
                ) == at(cost, c, r, x, y)
            &&& at(cost2, c, r, nb.x as int, nb.y as int) is Some
        }),
{
    reveal(sweep_consistent);
    let i = cell(c, r, nb.x as int, nb.y as int);
    let cost2 = cost.update(i, Some(v));
    let dir2 = dir.update(i, Some(d));
    let queue2 = queue.push(nb);
    let pos2 = pos.insert((nb.x as int, nb.y as int), queue.len() as int);
    lemma_cell_bounds(c, r, nb.x as int, nb.y as int);
    lemma_count_fill(cost, i, v);
    lemma_store_write(cost, c, r, nb.x as int, nb.y as int, Some(v));
    lemma_store_write(dir, c, r, nb.x as int, nb.y as int, Some(d));
    // The player already has a cost, so the new tile is not the player.
    assert(!(nb.x == c.x && nb.y == c.y));
    assert(sweep_consistent(c, r, cost2, dir2)) by {
        assert forall|x: int, y: int|
            in_square(c, r, x, y) && !(x == c.x && y == c.y) implies (#[trigger] at(
            dir2,
            c,
            r,
            x,
            y,
        ) is Some <==> at(cost2, c, r, x, y) is Some) by {}
        assert forall|x: int, y: int|
            in_square(c, r, x, y) && #[trigger] at(dir2, c, r, x, y) is Some implies {
            let dd = at(dir2, c, r, x, y)->0;
            &&& is_unit_step(dd.0 as int, dd.1 as int)
            &&& in_square(c, r, x + dd.0, y + dd.1)
            &&& at(cost2, c, r, x + dd.0, y + dd.1) is Some
            &&& at(cost2, c, r, x, y)->0 == at(cost2, c, r, x + dd.0, y + dd.1)->0 + step_cost(
                dd.0 as int,
                dd.1 as int,
            )
        } by {
            if x == nb.x && y == nb.y {
                assert(x + d.0 == cur.x && y + d.1 == cur.y);
            } else {
                let dd = at(dir, c, r, x, y)->0;
                assert(at(cost, c, r, x + dd.0, y + dd.1) is Some);
            }
        }
        assert forall|x: int, y: int|
            in_square(c, r, x, y) && #[trigger] at(cost2, c, r, x, y) is Some implies at(
            cost2,
            c,
            r,
            x,
            y,
        )->0 >= 10 * cheb(c, x, y) by {
            if x == nb.x && y == nb.y {
                assert(at(cost, c, r, cur.x as int, cur.y as int) is Some);
            }
        }
    }
    assert(queue_ok(c, r, cost2, queue2)) by {
        assert forall|j: int| 0 <= j < queue2.len() implies in_square(
            c,
            r,
            #[trigger] queue2[j].x as int,
            queue2[j].y as int,
        ) && at(cost2, c, r, queue2[j].x as int, queue2[j].y as int) is Some by {
            if j < queue.len() {
                assert(queue2[j] == queue[j]);
            }
        }
    }
    assert(indexed(c, r, cost2, queue2, pos2)) by {
        assert forall|x: int, y: int|
            in_square(c, r, x, y) && #[trigger] at(cost2, c, r, x, y) is Some implies {
            &&& pos2.contains_key((x, y))
            &&& 0 <= pos2[(x, y)] < queue2.len()
            &&& queue2[pos2[(x, y)]].x == x
            &&& queue2[pos2[(x, y)]].y == y
            &&& at(cost2, c, r, x, y)->0 <= 14 * (queue2.len() - 1)
        } by {
            if x == nb.x && y == nb.y {
                assert(at(cost, c, r, cur.x as int, cur.y as int) is Some);
            } else {
                assert(at(cost, c, r, x, y) is Some);
            }
        }
    }
}

/// Once every queued tile has been expanded, every tile of the square has a cost: each tile
/// off the player has a neighbour one ring closer, which by induction has a cost, so it was
/// queued and expanded.
proof fn lemma_sweep_complete(
    c: GridPosition,
    r: int,
    cost: Seq<Option<u32>>,
    queue: Seq<GridPosition>,
    pos: Map<(int, int), int>,
    x: int,
    y: int,
)
    requires
        r >= 0,
        in_square(c, r, x, y),
        at(cost, c, r, c.x as int, c.y as int) is Some,
        indexed(c, r, cost, queue, pos),
        expanded(c, r, cost, queue, queue.len() as int),
    ensures
        at(cost, c, r, x, y) is Some,
    decreases cheb(c, x, y),
{
    if !(x == c.x && y == c.y) {
        let sx: int = if x > c.x { 1 } else if x < c.x { -1 } else { 0 };
        let sy: int = if y > c.y { 1 } else if y < c.y { -1 } else { 0 };
        let px = x - sx;
        let py = y - sy;
        lemma_sweep_complete(c, r, cost, queue, pos, px, py);
        let j = pos[(px, py)];
        let k: int = if sx == 1 && sy == 0 { 0 }
            else if sx == -1 && sy == 0 { 1 }
            else if sx == 0 && sy == 1 { 2 }
            else if sx == 0 && sy == -1 { 3 }
            else if sx == 1 && sy == 1 { 4 }
            else if sx == 1 && sy == -1 { 5 }
            else if sx == -1 && sy == 1 { 6 }
            else { 7 };
        assert(queue[j].x + spec_offset(k).0 == x && queue[j].y + spec_offset(k).1 == y);
        assert(at(cost, c, r, queue[j].x + spec_offset(k).0, queue[j].y + spec_offset(k).1) is Some);
    }
}

/// Tile `p` comes before tile `q` in discovery order around the player `c`.
pub open spec fn tile_before(c: GridPosition, p: GridPosition, q: GridPosition) -> bool {
    before(p.x - c.x, p.y - c.y, q.x - c.x, q.y - c.y)
}

/// The queue starts at the player and lists tiles in strictly increasing discovery order.
pub open spec fn queue_sorted(c: GridPosition, queue: Seq<GridPosition>) -> bool {
    &&& queue.len() > 0 ==> queue[0] == c
    &&& forall|i: int, j: int|
        0 <= i < j < queue.len() ==> tile_before(c, #[trigger] queue[i], #[trigger] queue[j])
}

/// Every discovered tile other than the player has the octile cost and a step that points one
/// king move straight back toward the player.
#[verifier::opaque]
pub open spec fn exact(c: GridPosition, r: int, cost: Seq<Option<u32>>, dir: Seq<Option<(i32, i32)>>) -> bool {
    forall|x: int, y: int|
        in_square(c, r, x, y) && #[trigger] at(cost, c, r, x, y) is Some && !(x == c.x && y == c.y) ==> {
            &&& at(cost, c, r, x, y)->0 == octile(x - c.x, y - c.y)
            &&& at(dir, c, r, x, y) == Some(((-sg(x - c.x)) as i32, (-sg(y - c.y)) as i32))
        }
}

/// Queued tiles at positions `lo..hi` were reached from their predecessor, which has a cost
/// and is queued before position `bound`.
pub open spec fn reached_before(
    c: GridPosition,
    r: int,
    cost: Seq<Option<u32>>,
    queue: Seq<GridPosition>,
    pos: Map<(int, int), int>,
    lo: int,
    hi: int,
    bound: int,
) -> bool {
    forall|j: int|
        #![trigger queue[j]]
        lo <= j < hi ==> {
            let tx = queue[j].x - sg(queue[j].x - c.x);
            let ty = queue[j].y - sg(queue[j].y - c.y);
            &&& in_square(c, r, tx, ty)
            &&& at(cost, c, r, tx, ty) is Some
            &&& pos.contains_key((tx, ty))
            &&& pos[(tx, ty)] < bound
        }
}

/// Queued tiles at positions `lo..hi` were reached from `cur` by moves expanded before the
/// `k`-th.
pub open spec fn reached_from(c: GridPosition, queue: Seq<GridPosition>, lo: int, hi: int, cur: GridPosition, k: int) -> bool {
    forall|j: int|
        #![trigger queue[j]]
        lo <= j < hi ==> {
            &&& queue[j].x - sg(queue[j].x - c.x) == cur.x
            &&& queue[j].y - sg(queue[j].y - c.y) == cur.y
            &&& offset_index(sg(queue[j].x - c.x), sg(queue[j].y - c.y)) < k
        }
}

/// Every tile that comes before the tile being expanded was already discovered and expanded.
proof fn lemma_earlier_expanded(
    c: GridPosition,
    r: int,
    cost: Seq<Option<u32>>,
    queue: Seq<GridPosition>,
    pos: Map<(int, int), int>,
    head: int,
    x: int,
    y: int,
)
    requires
        r >= 0,
        0 <= head < queue.len(),
        indexed(c, r, cost, queue, pos),
        expanded(c, r, cost, queue, head),
        queue_sorted(c, queue),
        at(cost, c, r, c.x as int, c.y as int) is Some,
        in_square(c, r, x, y),
        before(x - c.x, y - c.y, queue[head].x - c.x, queue[head].y - c.y),
    ensures
        at(cost, c, r, x, y) is Some,
        pos.contains_key((x, y)),
        pos[(x, y)] < head,
    decreases ring(x - c.x, y - c.y),
{
    if !(x == c.x && y == c.y) {
        let a = x - c.x;
        let b = y - c.y;
        let tx = x - sg(a);
        let ty = y - sg(b);
        lemma_toward_before(a, b);
        lemma_before_trans(tx - c.x, ty - c.y, a, b, queue[head].x - c.x, queue[head].y - c.y);
        lemma_earlier_expanded(c, r, cost, queue, pos, head, tx, ty);
        let j = pos[(tx, ty)];
        let k = offset_index(sg(a), sg(b));
        lemma_offset_index(sg(a), sg(b));
        assert(queue[j].x + spec_offset(k).0 == x && queue[j].y + spec_offset(k).1 == y);
        assert(at(cost, c, r, queue[j].x + spec_offset(k).0, queue[j].y + spec_offset(k).1) is Some);
    }
    let p = pos[(x, y)];
    let hx = queue[head].x - c.x;
    let hy = queue[head].y - c.y;
    lemma_before_strict(x - c.x, y - c.y, hx, hy);
    if p > head {
        assert(tile_before(c, queue[head], queue[p]));
    }
}

/// The first tile to reach an undiscovered tile is its predecessor.
proof fn lemma_reached_from_predecessor(
    c: GridPosition,
    r: int,
    cost: Seq<Option<u32>>,
    queue: Seq<GridPosition>,
    pos: Map<(int, int), int>,
    head: int,
    cur: GridPosition,
    k: int,
    nb: GridPosition,
)
    requires
        r >= 0,
        0 <= head < queue.len(),
        indexed(c, r, cost, queue, pos),
        expanded(c, r, cost, queue, head),
        queue_sorted(c, queue),
        at(cost, c, r, c.x as int, c.y as int) is Some,
        cur == queue[head],
        0 <= k < 8,
        nb.x == cur.x + spec_offset(k).0,
        nb.y == cur.y + spec_offset(k).1,
        in_square(c, r, nb.x as int, nb.y as int),
        at(cost, c, r, nb.x as int, nb.y as int) is None,
    ensures
        !(nb.x == c.x && nb.y == c.y),
        spec_offset(k) == (sg(nb.x - c.x), sg(nb.y - c.y)),
{
    let a = nb.x - c.x;
    let b = nb.y - c.y;
    let (dx, dy) = spec_offset(k);
    lemma_offset_unit(k);
    if !(dx == sg(a) && dy == sg(b)) {
        lemma_toward_first(a, b, dx, dy);
        let tx = nb.x - sg(a);
        let ty = nb.y - sg(b);
        lemma_earlier_expanded(c, r, cost, queue, pos, head, tx, ty);
        let j = pos[(tx, ty)];
        let kk = offset_index(sg(a), sg(b));
        lemma_toward_before(a, b);
        lemma_offset_index(sg(a), sg(b));
        assert(queue[j].x + spec_offset(kk).0 == nb.x && queue[j].y + spec_offset(kk).1 == nb.y);
        assert(at(cost, c, r, queue[j].x + spec_offset(kk).0, queue[j].y + spec_offset(kk).1) is Some);
    }
}

/// A tile discovered from its predecessor comes after the last queued tile.
proof fn lemma_discover_after_last(
    c: GridPosition,
    queue: Seq<GridPosition>,
    pos: Map<(int, int), int>,
    head: int,
    start: int,
    cur: GridPosition,
    k: int,
    nb: GridPosition,
)
    requires
        1 <= start <= queue.len(),
        0 <= head < start,
        queue_sorted(c, queue),
        ({
            let q = queue[queue.len() - 1];
            let tx = q.x - sg(q.x - c.x);
            let ty = q.y - sg(q.y - c.y);
            queue.len() - 1 < start && queue.len() - 1 >= 1 ==> {
                &&& pos.contains_key((tx, ty))
                &&& 0 <= pos[(tx, ty)] < head
                &&& queue[pos[(tx, ty)]].x == tx
                &&& queue[pos[(tx, ty)]].y == ty
            }
        }),
        ({
            let q = queue[queue.len() - 1];
            queue.len() - 1 >= start ==> {
                &&& q.x - sg(q.x - c.x) == cur.x
                &&& q.y - sg(q.y - c.y) == cur.y
                &&& offset_index(sg(q.x - c.x), sg(q.y - c.y)) < k
            }
        }),
        cur == queue[head],
        !(nb.x == c.x && nb.y == c.y),
        nb.x - sg(nb.x - c.x) == cur.x,
        nb.y - sg(nb.y - c.y) == cur.y,
        offset_index(sg(nb.x - c.x), sg(nb.y - c.y)) == k,
    ensures
        tile_before(c, queue[queue.len() - 1], nb),
{
    let a = nb.x - c.x;
    let b = nb.y - c.y;
    let last = queue.len() - 1;
    let q = queue[last];
    if last == 0 {
        assert(q == c);
        lemma_toward_before(a, b);
        reveal(before);
    } else if last >= start {
        lemma_siblings_in_offset_order(q.x - c.x, q.y - c.y, a, b);
    } else {
        let tx = q.x - sg(q.x - c.x);
        let ty = q.y - sg(q.y - c.y);
        let pj = pos[(tx, ty)];
        assert(tile_before(c, queue[pj], queue[head]));
        assert(tile_before(c, queue[0], queue[last]));
        lemma_before_strict(0, 0, q.x - c.x, q.y - c.y);
        lemma_before_lifts(q.x - c.x, q.y - c.y, a, b);
    }
}

/// Appending a tile that comes after the last queued tile keeps the queue sorted.
proof fn lemma_push_sorted(c: GridPosition, queue: Seq<GridPosition>, nb: GridPosition)
    requires
        queue.len() >= 1,
        queue_sorted(c, queue),
        tile_before(c, queue[queue.len() - 1], nb),
    ensures
        queue_sorted(c, queue.push(nb)),
{
    let queue2 = queue.push(nb);
    let last = queue.len() - 1;
    assert forall|i1: int, j1: int| 0 <= i1 < j1 < queue2.len() implies tile_before(
        c,
        #[trigger] queue2[i1],
        #[trigger] queue2[j1],
    ) by {
        if j1 == queue.len() {
            if i1 < last {
                assert(tile_before(c, queue[i1], queue[last]));
                lemma_before_trans(
                    queue[i1].x - c.x,
                    queue[i1].y - c.y,
                    queue[last].x - c.x,
                    queue[last].y - c.y,
                    nb.x - c.x,
                    nb.y - c.y,
                );
            }
        } else {
            assert(queue2[i1] == queue[i1] && queue2[j1] == queue[j1]);
        }
    }
}

/// Discovering a tile from its predecessor gives it the octile cost and the step back.
proof fn lemma_discover_exact(
    c: GridPosition,
    r: int,
    cost: Seq<Option<u32>>,
    dir: Seq<Option<(i32, i32)>>,
    cur: GridPosition,
    cc: u32,
    k: int,
    nb: GridPosition,
    v: u32,
    d: (i32, i32),
)
    requires
        r >= 0,
        cost.len() == (2 * r + 1) * (2 * r + 1),
        dir.len() == (2 * r + 1) * (2 * r + 1),
        exact(c, r, cost, dir),
        at(cost, c, r, c.x as int, c.y as int) == Some(0u32),
        in_square(c, r, cur.x as int, cur.y as int),
        at(cost, c, r, cur.x as int, cur.y as int) == Some(cc),
        0 <= k < 8,
        nb.x == cur.x + spec_offset(k).0,
        nb.y == cur.y + spec_offset(k).1,
        in_square(c, r, nb.x as int, nb.y as int),
        !(nb.x == c.x && nb.y == c.y),
        spec_offset(k) == (sg(nb.x - c.x), sg(nb.y - c.y)),
        v == cc + step_cost(spec_offset(k).0, spec_offset(k).1),
        d.0 == cur.x - nb.x,
        d.1 == cur.y - nb.y,
    ensures
        exact(
            c,
            r,
            cost.update(cell(c, r, nb.x as int, nb.y as int), Some(v)),
            dir.update(cell(c, r, nb.x as int, nb.y as int), Some(d)),
        ),
{
    reveal(exact);
    let i = cell(c, r, nb.x as int, nb.y as int);
    let cost2 = cost.update(i, Some(v));
    let dir2 = dir.update(i, Some(d));
    let a = nb.x - c.x;
    let b = nb.y - c.y;
    lemma_store_write(cost, c, r, nb.x as int, nb.y as int, Some(v));
    lemma_store_write(dir, c, r, nb.x as int, nb.y as int, Some(d));
    assert forall|x: int, y: int|
        in_square(c, r, x, y) && #[trigger] at(cost2, c, r, x, y) is Some && !(x == c.x && y == c.y)
        implies {
        &&& at(cost2, c, r, x, y)->0 == octile(x - c.x, y - c.y)
        &&& at(dir2, c, r, x, y) == Some(((-sg(x - c.x)) as i32, (-sg(y - c.y)) as i32))
    } by {
        if x == nb.x && y == nb.y {
            lemma_octile_step(a, b);
            if !(cur.x == c.x && cur.y == c.y) {
                assert(at(cost, c, r, cur.x as int, cur.y as int) is Some);
            }
        } else {
            assert(at(cost, c, r, x, y) is Some);
        }
    }
}

/// Discovering a tile from `cur` keeps track of where every queued tile was reached from.
proof fn lemma_discover_reached(
    c: GridPosition,
    r: int,
    cost: Seq<Option<u32>>,
    queue: Seq<GridPosition>,
    pos: Map<(int, int), int>,
    head: int,
    start: int,
    cur: GridPosition,
    k: int,
    nb: GridPosition,
    v: u32,
)
    requires
        r >= 0,
        cost.len() == (2 * r + 1) * (2 * r + 1),
        1 <= start <= queue.len(),
        reached_before(c, r, cost, queue, pos, 1, start, head),
        reached_from(c, queue, start, queue.len() as int, cur, k),
        in_square(c, r, nb.x as int, nb.y as int),
        at(cost, c, r, nb.x as int, nb.y as int) is None,
        nb.x - sg(nb.x - c.x) == cur.x,
        nb.y - sg(nb.y - c.y) == cur.y,
        offset_index(sg(nb.x - c.x), sg(nb.y - c.y)) == k,
    ensures
        ({
            let cost2 = cost.update(cell(c, r, nb.x as int, nb.y as int), Some(v));
            let queue2 = queue.push(nb);
            let pos2 = pos.insert((nb.x as int, nb.y as int), queue.len() as int);
            &&& reached_before(c, r, cost2, queue2, pos2, 1, start, head)
            &&& reached_from(c, queue2, start, queue2.len() as int, cur, k + 1)
        }),
{
    let cost2 = cost.update(cell(c, r, nb.x as int, nb.y as int), Some(v));
    let queue2 = queue.push(nb);
    let pos2 = pos.insert((nb.x as int, nb.y as int), queue.len() as int);
    lemma_store_write(cost, c, r, nb.x as int, nb.y as int, Some(v));
    assert forall|j: int| #![trigger queue2[j]] 1 <= j < start implies {
        let tx = queue2[j].x - sg(queue2[j].x - c.x);
        let ty = queue2[j].y - sg(queue2[j].y - c.y);
        &&& in_square(c, r, tx, ty)
        &&& at(cost2, c, r, tx, ty) is Some
        &&& pos2.contains_key((tx, ty))
        &&& pos2[(tx, ty)] < head
    } by {
        assert(queue2[j] == queue[j]);
        let tx = queue[j].x - sg(queue[j].x - c.x);
        let ty = queue[j].y - sg(queue[j].y - c.y);
        assert(at(cost, c, r, tx, ty) is Some);
    }
    assert forall|j: int| #![trigger queue2[j]] start <= j < queue2.len() implies {
        &&& queue2[j].x - sg(queue2[j].x - c.x) == cur.x
        &&& queue2[j].y - sg(queue2[j].y - c.y) == cur.y
        &&& offset_index(sg(queue2[j].x - c.x), sg(queue2[j].y - c.y)) < k + 1
    } by {
        if j < queue.len() {
            assert(queue2[j] == queue[j]);
        }
    }
}

/// The sweep's state while it expands the tile `cur` at queue position `head` (cost `cc`),
/// its moves before the `k`-th done; `start` is the queue length when the expansion began.
spec fn expanding(
    c: GridPosition,
    r: int,
    cost: Seq<Option<u32>>,
    dir: Seq<Option<(i32, i32)>>,
    queue: Seq<GridPosition>,
    pos: Map<(int, int), int>,
    head: int,
    start: int,
    cur: GridPosition,
    cc: u32,
    k: int,
) -> bool {
    &&& expanding_core(c, r, cost, dir, queue, pos, head, start, cur, cc)
    &&& reached_from(c, queue, start, queue.len() as int, cur, k)
    &&& forall|kk: int|
        0 <= kk < k && in_square(c, r, cur.x + spec_offset(kk).0, cur.y + spec_offset(kk).1)
            ==> #[trigger] at(cost, c, r, cur.x + spec_offset(kk).0, cur.y + spec_offset(kk).1) is Some
}

/// The part of `expanding` that does not depend on how many moves are done.
#[verifier::opaque]
spec fn expanding_core(
    c: GridPosition,
    r: int,
    cost: Seq<Option<u32>>,
    dir: Seq<Option<(i32, i32)>>,
    queue: Seq<GridPosition>,
    pos: Map<(int, int), int>,
    head: int,
    start: int,
    cur: GridPosition,
    cc: u32,
) -> bool {
    &&& r >= 0
    &&& cost.len() == (2 * r + 1) * (2 * r + 1)
    &&& dir.len() == (2 * r + 1) * (2 * r + 1)
    &&& 0 <= head < queue.len()
    &&& cur == queue[head]
    &&& in_square(c, r, cur.x as int, cur.y as int)
    &&& at(cost, c, r, cur.x as int, cur.y as int) == Some(cc)
    &&& count_some(cost) == queue.len()
    &&& sweep_consistent(c, r, cost, dir)
    &&& queue_ok(c, r, cost, queue)
    &&& indexed(c, r, cost, queue, pos)
    &&& expanded(c, r, cost, queue, head)
    &&& queue_sorted(c, queue)
    &&& exact(c, r, cost, dir)
    &&& 1 <= start <= queue.len()
    &&& head < start
    &&& pos.contains_key((cur.x as int, cur.y as int))
    &&& pos[(cur.x as int, cur.y as int)] == head
    &&& reached_before(c, r, cost, queue, pos, 1, start, head)
}

/// A move that reaches a tile outside the square or an already discovered one changes nothing.
proof fn lemma_skip_step(
    c: GridPosition,
    r: int,
    cost: Seq<Option<u32>>,
    dir: Seq<Option<(i32, i32)>>,
    queue: Seq<GridPosition>,
    pos: Map<(int, int), int>,
    head: int,
    start: int,
    cur: GridPosition,
    cc: u32,
    k: int,
)
    requires
        expanding(c, r, cost, dir, queue, pos, head, start, cur, cc, k),
        0 <= k < 8,
        in_square(c, r, cur.x + spec_offset(k).0, cur.y + spec_offset(k).1) ==> at(
            cost,
            c,
            r,
            cur.x + spec_offset(k).0,
            cur.y + spec_offset(k).1,
        ) is Some,
    ensures
        expanding(c, r, cost, dir, queue, pos, head, start, cur, cc, k + 1),
{
}

/// What one discovery step of the sweep keeps, stated property by property.
#[verifier::spinoff_prover]
proof fn lemma_discover_facts(
    c: GridPosition,
    r: int,
    cost: Seq<Option<u32>>,
    dir: Seq<Option<(i32, i32)>>,
    queue: Seq<GridPosition>,
    pos: Map<(int, int), int>,
    head: int,
    start: int,
    cur: GridPosition,
    cc: u32,
    k: int,
    nb: GridPosition,
    v: u32,
    d: (i32, i32),
)
    requires
        r >= 0,
        cost.len() == (2 * r + 1) * (2 * r + 1),
        dir.len() == (2 * r + 1) * (2 * r + 1),
        0 <= head < queue.len(),
        cur == queue[head],
        in_square(c, r, cur.x as int, cur.y as int),
        at(cost, c, r, cur.x as int, cur.y as int) == Some(cc),
        count_some(cost) == queue.len(),
        sweep_consistent(c, r, cost, dir),
        queue_ok(c, r, cost, queue),
        indexed(c, r, cost, queue, pos),
        expanded(c, r, cost, queue, head),
        queue_sorted(c, queue),
        exact(c, r, cost, dir),
        1 <= start <= queue.len(),
        head < start,
        pos.contains_key((cur.x as int, cur.y as int)),
        pos[(cur.x as int, cur.y as int)] == head,
        reached_before(c, r, cost, queue, pos, 1, start, head),
        reached_from(c, queue, start, queue.len() as int, cur, k),
        forall|kk: int|
            0 <= kk < k && in_square(c, r, cur.x + spec_offset(kk).0, cur.y + spec_offset(kk).1)
                ==> #[trigger] at(cost, c, r, cur.x + spec_offset(kk).0, cur.y + spec_offset(kk).1)
                is Some,
        0 <= k < 8,
        nb.x == cur.x + spec_offset(k).0,
        nb.y == cur.y + spec_offset(k).1,
        in_square(c, r, nb.x as int, nb.y as int),
        at(cost, c, r, nb.x as int, nb.y as int) is None,
        v == cc + step_cost(spec_offset(k).0, spec_offset(k).1),
        d.0 == cur.x - nb.x,
        d.1 == cur.y - nb.y,
    ensures
        ({
            let i = cell(c, r, nb.x as int, nb.y as int);
            let cost2 = cost.update(i, Some(v));
            let dir2 = dir.update(i, Some(d));
            let queue2 = queue.push(nb);
            let pos2 = pos.insert((nb.x as int, nb.y as int), queue.len() as int);
            &&& 0 <= head < queue2.len()
            &&& cur == queue2[head]
            &&& count_some(cost2) == queue2.len()
            &&& at(cost2, c, r, cur.x as int, cur.y as int) == Some(cc)
            &&& sweep_consistent(c, r, cost2, dir2)
            &&& queue_ok(c, r, cost2, queue2)
            &&& indexed(c, r, cost2, queue2, pos2)
            &&& expanded(c, r, cost2, queue2, head)
            &&& queue_sorted(c, queue2)
            &&& exact(c, r, cost2, dir2)
            &&& 1 <= start <= queue2.len()
            &&& pos2.contains_key((cur.x as int, cur.y as int))
            &&& pos2[(cur.x as int, cur.y as int)] == head
            &&& reached_before(c, r, cost2, queue2, pos2, 1, start, head)
            &&& reached_from(c, queue2, start, queue2.len() as int, cur, k + 1)
            &&& forall|kk: int|
                0 <= kk <= k && in_square(c, r, cur.x + spec_offset(kk).0, cur.y + spec_offset(kk).1)
                    ==> #[trigger] at(cost2, c, r, cur.x + spec_offset(kk).0, cur.y + spec_offset(kk).1)
                    is Some
        }),
{
    let i = cell(c, r, nb.x as int, nb.y as int);
    let cost2 = cost.update(i, Some(v));
    let dir2 = dir.update(i, Some(d));
    let queue2 = queue.push(nb);
    let pos2 = pos.insert((nb.x as int, nb.y as int), queue.len() as int);
    assert(at(cost, c, r, c.x as int, c.y as int) == Some(0u32)) by {
        reveal(sweep_consistent);
    }
    lemma_reached_from_predecessor(c, r, cost, queue, pos, head, cur, k, nb);
    lemma_offset_unit(k);
    let last = queue.len() - 1;
    let q = queue[last];
    if last < start && last >= 1 {
        let tx = q.x - sg(q.x - c.x);
        let ty = q.y - sg(q.y - c.y);
        assert(at(cost, c, r, tx, ty) is Some);
    }
    lemma_discover_after_last(c, queue, pos, head, start, cur, k, nb);
    lemma_push_sorted(c, queue, nb);
    lemma_discover_exact(c, r, cost, dir, cur, cc, k, nb, v, d);
    lemma_discover_reached(c, r, cost, queue, pos, head, start, cur, k, nb, v);
    lemma_sweep_discover(c, r, cost, dir, queue, pos, cur, cc, k, nb, v, d);
    assert(queue2[head] == queue[head]);
    assert forall|j: int, kk: int|
        0 <= j < head && 0 <= kk < 8 && in_square(
            c,
            r,
            queue2[j].x + spec_offset(kk).0,
            queue2[j].y + spec_offset(kk).1,
        ) implies #[trigger] at(
        cost2,
        c,
        r,
        queue2[j].x + spec_offset(kk).0,
        queue2[j].y + spec_offset(kk).1,
    ) is Some by {
        assert(queue2[j] == queue[j]);
        assert(at(cost, c, r, queue[j].x + spec_offset(kk).0, queue[j].y + spec_offset(kk).1) is Some);
    }
    assert forall|kk: int|
        0 <= kk <= k && in_square(c, r, cur.x + spec_offset(kk).0, cur.y + spec_offset(kk).1)
            implies #[trigger] at(cost2, c, r, cur.x + spec_offset(kk).0, cur.y + spec_offset(kk).1)
            is Some by {
        if kk < k {
            assert(at(cost, c, r, cur.x + spec_offset(kk).0, cur.y + spec_offset(kk).1) is Some);
        }
    }
}

/// One discovery step of the sweep: queueing an undiscovered in-square neighbour `nb` of the
/// tile being expanded keeps the expansion state, now with moves up to the `k`-th done.
proof fn lemma_discover_step(
    c: GridPosition,
    r: int,
    cost: Seq<Option<u32>>,
    dir: Seq<Option<(i32, i32)>>,
    queue: Seq<GridPosition>,
    pos: Map<(int, int), int>,
    head: int,
    start: int,
    cur: GridPosition,
    cc: u32,
    k: int,
    nb: GridPosition,
    v: u32,
    d: (i32, i32),
)
    requires
        expanding(c, r, cost, dir, queue, pos, head, start, cur, cc, k),
        0 <= k < 8,
        nb.x == cur.x + spec_offset(k).0,
        nb.y == cur.y + spec_offset(k).1,
        in_square(c, r, nb.x as int, nb.y as int),
        at(cost, c, r, nb.x as int, nb.y as int) is None,
        v == cc + step_cost(spec_offset(k).0, spec_offset(k).1),
        d.0 == cur.x - nb.x,
        d.1 == cur.y - nb.y,
    ensures
        expanding(
            c,
            r,
            cost.update(cell(c, r, nb.x as int, nb.y as int), Some(v)),
            dir.update(cell(c, r, nb.x as int, nb.y as int), Some(d)),
            queue.push(nb),
            pos.insert((nb.x as int, nb.y as int), queue.len() as int),
            head,
            start,
            cur,
            cc,
            k + 1,
        ),
{
    reveal(expanding_core);
    lemma_cell_bounds(c, r, nb.x as int, nb.y as int);
    lemma_discover_facts(c, r, cost, dir, queue, pos, head, start, cur, cc, k, nb, v, d);
}

/// Expanding the tile at queue position `head` starts from the sweep's state between tiles.
proof fn lemma_expanding_start(
    c: GridPosition,
    r: int,
    cost: Seq<Option<u32>>,
    dir: Seq<Option<(i32, i32)>>,
    queue: Seq<GridPosition>,
    pos: Map<(int, int), int>,
    head: int,
    cur: GridPosition,
    cc: u32,
)
    requires
        r >= 0,
        cost.len() == (2 * r + 1) * (2 * r + 1),
        dir.len() == (2 * r + 1) * (2 * r + 1),
        0 <= head < queue.len(),
        cur == queue[head],
        at(cost, c, r, cur.x as int, cur.y as int) == Some(cc),
        count_some(cost) == queue.len(),
        sweep_consistent(c, r, cost, dir),
        queue_ok(c, r, cost, queue),
        indexed(c, r, cost, queue, pos),
        expanded(c, r, cost, queue, head),
        queue_sorted(c, queue),
        exact(c, r, cost, dir),
        reached_before(c, r, cost, queue, pos, 1, queue.len() as int, head),
    ensures
        expanding(c, r, cost, dir, queue, pos, head, queue.len() as int, cur, cc, 0),
        in_square(c, r, cur.x as int, cur.y as int),
        cc <= 14 * (queue.len() - 1),
{
    reveal(expanding_core);
    assert(in_square(c, r, queue[head].x as int, queue[head].y as int));
    let p = pos[(cur.x as int, cur.y as int)];
    if p != head {
        if p < head {
            assert(tile_before(c, queue[p], queue[head]));
        } else {
            assert(tile_before(c, queue[head], queue[p]));
        }
        lemma_before_strict(cur.x - c.x, cur.y - c.y, cur.x - c.x, cur.y - c.y);
    }
}

/// Once all eight moves of the tile at `head` are done, the tiles up to `head` are expanded.
proof fn lemma_expanding_done(
    c: GridPosition,
    r: int,
    cost: Seq<Option<u32>>,
    dir: Seq<Option<(i32, i32)>>,
    queue: Seq<GridPosition>,
    pos: Map<(int, int), int>,
    head: int,
    start: int,
    cur: GridPosition,
    cc: u32,
)
    requires
        expanding(c, r, cost, dir, queue, pos, head, start, cur, cc, 8),
    ensures
        head + 1 <= queue.len(),
        cost.len() == (2 * r + 1) * (2 * r + 1),
        dir.len() == (2 * r + 1) * (2 * r + 1),
        count_some(cost) == queue.len(),
        sweep_consistent(c, r, cost, dir),
        queue_ok(c, r, cost, queue),
        indexed(c, r, cost, queue, pos),
        expanded(c, r, cost, queue, head + 1),
        queue_sorted(c, queue),
        exact(c, r, cost, dir),
        reached_before(c, r, cost, queue, pos, 1, queue.len() as int, head + 1),
{
    reveal(expanding_core);
    assert forall|j: int, kk: int|
        0 <= j < head + 1 && 0 <= kk < 8 && in_square(
            c,
            r,
            queue[j].x + spec_offset(kk).0,
            queue[j].y + spec_offset(kk).1,
        ) implies #[trigger] at(cost, c, r, queue[j].x + spec_offset(kk).0, queue[j].y + spec_offset(kk).1)
        is Some by {
        if j == head {
            assert(queue[j] == cur);
        }
    }
    assert forall|j: int| #![trigger queue[j]] 1 <= j < queue.len() implies {
        let tx = queue[j].x - sg(queue[j].x - c.x);
        let ty = queue[j].y - sg(queue[j].y - c.y);
        &&& in_square(c, r, tx, ty)
        &&& at(cost, c, r, tx, ty) is Some
        &&& pos.contains_key((tx, ty))
        &&& pos[(tx, ty)] < head + 1
    } by {
        if j >= start {
            assert(at(cost, c, r, cur.x as int, cur.y as int) is Some);
        }
    }
}

impl FlowField {
    /// Breadth-first flow field over the square of half-width `radius` around `player`: the
    /// sweep starts at the player with cost 0 and expands each discovered tile's eight
    /// neighbours in a fixed order; a tile's cost and steering step are fixed by the tile that
    /// first reaches it (cost + 10 straight, + 14 diagonal; the step points back to it).
    fn sweep(player: GridPosition, radius: i32) -> (field: FlowField)
        requires
            0 <= radius <= 1000,
            player.x - radius - 1 >= i32::MIN,
            player.x + radius + 1 <= i32::MAX,
            player.y - radius - 1 >= i32::MIN,
            player.y + radius + 1 <= i32::MAX,
        ensures
            field.wf(),
            field.center == player,
            field.radius == radius,
            sweep_consistent(player, radius as int, field.cost@, field.direction@),
            complete(player, radius as int, field.cost@),
            exact(player, radius as int, field.cost@, field.direction@),
    {
        let ghost c = player;
        let ghost r = radius as int;
        let side: usize = (2 * radius + 1) as usize;
        proof {
            assert(side * side <= 2001 * 2001) by (nonlinear_arith)
                requires
                    side <= 2001,
            ;
        }
        let n: usize = side * side;
        let mut cost: Vec<Option<u32>> = Vec::new();
        let mut direction: Vec<Option<(i32, i32)>> = Vec::new();
        let mut i: usize = 0;
        while i < n
            invariant
                i <= n,
                cost@.len() == i,
                direction@.len() == i,
                forall|j: int| 0 <= j < i ==> cost@[j] is None && direction@[j] is None,
            decreases n - i,
        {
            cost.push(None);
            direction.push(None);
            i = i + 1;
        }
        proof {
            lemma_sweep_start(c, r, cost@, direction@);
        }
        let start = slot(player, radius, player.x, player.y);
        cost.set(start, Some(0));
        let mut queue: Vec<GridPosition> = Vec::new();
        queue.push(player);
        assert(queue@ == seq![player]);
        let ghost mut pos: Map<(int, int), int> = map![(c.x as int, c.y as int) => 0int];
        let mut head: usize = 0;
        assert(exact(c, r, cost@, direction@)) by {
            reveal(exact);
            assert forall|x: int, y: int|
                in_square(c, r, x, y) && #[trigger] at(cost@, c, r, x, y) is Some && !(x == c.x && y == c.y)
                implies {
                &&& at(cost@, c, r, x, y)->0 == octile(x - c.x, y - c.y)
                &&& at(direction@, c, r, x, y) == Some(((-sg(x - c.x)) as i32, (-sg(y - c.y)) as i32))
            } by {
                assert(pos.contains_key((x, y)));
            }
        }
        while head < queue.len()
            invariant
                c == player,
                r == radius,
                0 <= radius <= 1000,
                player.x - radius - 1 >= i32::MIN,
                player.x + radius + 1 <= i32::MAX,
                player.y - radius - 1 >= i32::MIN,
                player.y + radius + 1 <= i32::MAX,
                side == 2 * radius + 1,
                n == side * side,
                n <= 2001 * 2001,
                cost@.len() == n,
                direction@.len() == n,
                head <= queue.len(),
                count_some(cost@) == queue.len(),
                sweep_consistent(c, r, cost@, direction@),
                queue_ok(c, r, cost@, queue@),
                indexed(c, r, cost@, queue@, pos),
                expanded(c, r, cost@, queue@, head as int),
                queue_sorted(c, queue@),
                exact(c, r, cost@, direction@),
                reached_before(c, r, cost@, queue@, pos, 1, queue@.len() as int, head as int),
            decreases n - head,
        {
            proof {
                lemma_count_le_len(cost@);
            }
            let current = queue[head];
            assert(in_square(c, r, queue@[head as int].x as int, queue@[head as int].y as int));
            let cur_slot = slot(player, radius, current.x, current.y);
            let current_cost = match cost[cur_slot] {
                Some(v) => v,
                None => 0,
            };
            let ghost start = queue@.len() as int;
            proof {
                lemma_expanding_start(c, r, cost@, direction@, queue@, pos, head as int, current, current_cost);
            }
            let mut k: usize = 0;
            while k < 8
                invariant
                    c == player,
                    r == radius,
                    0 <= radius <= 1000,
                    player.x - radius - 1 >= i32::MIN,
                    player.x + radius + 1 <= i32::MAX,
                    player.y - radius - 1 >= i32::MIN,
                    player.y + radius + 1 <= i32::MAX,
                    n == (2 * radius + 1) * (2 * radius + 1),
                    cost@.len() == n,
                    direction@.len() == n,
                    k <= 8,
                    current_cost <= 14 * 2001 * 2001,
                    head < queue@.len(),
                    current == queue@[head as int],
                    in_square(c, r, current.x as int, current.y as int),
                    expanding(c, r, cost@, direction@, queue@, pos, head as int, start, current, current_cost, k as int),
                decreases 8 - k,
            {
                let (ox, oy) = neighbor_offset(k);
                let nx = current.x + ox;
                let ny = current.y + oy;
                if within_square(player, radius, nx, ny) {
                    let ni = slot(player, radius, nx, ny);
                    if cost[ni].is_none() {
                        let step: u32 = if ox != 0 && oy != 0 { 14 } else { 10 };
                        let value = current_cost + step;
                        let d = (current.x - nx, current.y - ny);
                        let nb = GridPosition { x: nx, y: ny };
                        proof {
                            lemma_discover_step(
                                c,
                                r,
                                cost@,
                                direction@,
                                queue@,
                                pos,
                                head as int,
                                start,
                                current,
                                current_cost,
                                k as int,
                                nb,
                                value,
                                d,
                            );
                            pos = pos.insert((nx as int, ny as int), queue@.len() as int);
                        }
                        cost.set(ni, Some(value));
                        direction.set(ni, Some(d));
                        queue.push(nb);
                        assert(current == queue@[head as int]);
                    } else {
                        proof {
                            lemma_skip_step(c, r, cost@, direction@, queue@, pos, head as int, start, current, current_cost, k as int);
                        }
                    }
                } else {
                    proof {
                        lemma_skip_step(c, r, cost@, direction@, queue@, pos, head as int, start, current, current_cost, k as int);
                    }
                }
                k = k + 1;
            }
            proof {
                lemma_expanding_done(c, r, cost@, direction@, queue@, pos, head as int, start, current, current_cost);
            }
            head = head + 1;
        }
        proof {
            assert(at(cost@, c, r, c.x as int, c.y as int) is Some) by {
                reveal(sweep_consistent);
            }
            assert forall|x: int, y: int| in_square(c, r, x, y) implies #[trigger] at(
                cost@,
                c,
                r,
                x,
                y,
            ) is Some by {
                lemma_sweep_complete(c, r, cost@, queue@, pos, x, y);
            }
        }
        FlowField { center: player, radius, cost, direction }
    }
}

impl FlowField {
    /// The field's own guarantees, as `from_player` establishes them for `player`: it covers
    /// exactly the square within `FLOW_RADIUS` tiles of the player; the player's tile costs 0
    /// and has no step; every other covered tile has a king-move step onto a covered tile whose
    /// cost is lower by exactly that step's cost; costs grow by at least 10 per ring. Exactly:
    /// each tile's cost is its octile distance to the player (10 per straight move, 14 per
    /// diagonal move), and its step moves diagonally toward the player while both offsets are
    /// non-zero, then straight along the remaining axis.
    pub open spec fn is_flow_field_of(&self, player: GridPosition) -> bool {
        &&& self.wf()
        &&& forall|x: int, y: int|
            #[trigger] self.spec_cost(x, y) is Some <==> in_square(player, FLOW_RADIUS as int, x, y)
        &&& self.spec_cost(player.x as int, player.y as int) == Some(0u32)
        &&& forall|x: int, y: int|
            #[trigger] self.spec_direction(x, y) is Some <==> (in_square(
                player,
                FLOW_RADIUS as int,
                x,
                y,
            ) && !(x == player.x && y == player.y))
        &&& forall|x: int, y: int|
            #[trigger] self.spec_direction(x, y) is Some ==> {
                let d = self.spec_direction(x, y)->0;
                &&& is_unit_step(d.0 as int, d.1 as int)
                &&& self.spec_cost(x + d.0, y + d.1) is Some
                &&& self.spec_cost(x, y)->0 == self.spec_cost(x + d.0, y + d.1)->0 + step_cost(
                    d.0 as int,
                    d.1 as int,
                )
            }
        &&& forall|x: int, y: int|
            #[trigger] self.spec_cost(x, y) is Some ==> self.spec_cost(x, y)->0 >= 10 * cheb(player, x, y)
        &&& forall|x: int, y: int|
            #[trigger] self.spec_cost(x, y) is Some ==> self.spec_cost(x, y)->0 == octile(
                x - player.x,
                y - player.y,
            )
        &&& forall|x: int, y: int|
            #[trigger] self.spec_direction(x, y) is Some ==> self.spec_direction(x, y) == Some(
                ((-sg(x - player.x)) as i32, (-sg(y - player.y)) as i32),
            )
    }

    /// Rebuilds the steering field from the player's tile: a breadth-first sweep over the
    /// square within `FLOW_RADIUS` tiles of the player (see `is_flow_field_of`).
    pub fn from_player(player: GridPosition) -> (field: FlowField)
        requires
            player.x - FLOW_RADIUS - 1 >= i32::MIN,
            player.x + FLOW_RADIUS + 1 <= i32::MAX,
            player.y - FLOW_RADIUS - 1 >= i32::MIN,
            player.y + FLOW_RADIUS + 1 <= i32::MAX,
        ensures
            field.is_flow_field_of(player),
    {
        let field = FlowField::sweep(player, FLOW_RADIUS);
        let ghost c = player;
        let ghost r = FLOW_RADIUS as int;
        proof {
            reveal(sweep_consistent);
            reveal(exact);
        }
        assert forall|x: int, y: int| #[trigger] field.spec_cost(x, y) is Some <==> in_square(c, r, x, y) by {
            if in_square(c, r, x, y) {
                assert(at(field.cost@, c, r, x, y) is Some);
            }
        }
        assert forall|x: int, y: int| #[trigger] field.spec_direction(x, y) is Some implies {
            let d = field.spec_direction(x, y)->0;
            &&& is_unit_step(d.0 as int, d.1 as int)
            &&& field.spec_cost(x + d.0, y + d.1) is Some
            &&& field.spec_cost(x, y)->0 == field.spec_cost(x + d.0, y + d.1)->0 + step_cost(
                d.0 as int,
                d.1 as int,
            )
        } by {
            assert(at(field.direction@, c, r, x, y) is Some);
        }
        assert forall|x: int, y: int| #[trigger] field.spec_direction(x, y) is Some <==> (in_square(
            c,
            r,
            x,
            y,
        ) && !(x == c.x && y == c.y)) by {
            if in_square(c, r, x, y) {
                assert(at(field.cost@, c, r, x, y) is Some);
            }
        }
        assert forall|x: int, y: int| #[trigger] field.spec_cost(x, y) is Some implies field.spec_cost(
            x,
            y,
        )->0 >= 10 * cheb(c, x, y) by {
            assert(at(field.cost@, c, r, x, y) is Some);
        }
        assert forall|x: int, y: int| #[trigger] field.spec_cost(x, y) is Some implies field.spec_cost(
            x,
            y,
        )->0 == octile(x - c.x, y - c.y) by {
            assert(at(field.cost@, c, r, x, y) is Some);
        }
        assert forall|x: int, y: int| #[trigger] field.spec_direction(x, y) is Some implies field.spec_direction(
            x,
            y,
        ) == Some(((-sg(x - c.x)) as i32, (-sg(y - c.y)) as i32)) by {
            assert(at(field.direction@, c, r, x, y) is Some);
            assert(at(field.cost@, c, r, x, y) is Some);
        }
        field
    }
}

impl Default for FlowField {
    fn default() -> (f: FlowField)
        ensures
            f.wf(),
            forall|x: int, y: int| f.spec_cost(x, y) is None && f.spec_direction(x, y) is None,
    {
        FlowField::empty()
    }
}

/// Where a walker standing on `(x, y)` ends up after following the field's steps `steps` times
/// (it stays put on a tile without a step).
pub open spec fn walk(f: FlowField, x: int, y: int, steps: nat) -> (int, int)
    decreases steps,
{
    if steps == 0 {
        (x, y)
    } else {
        match f.spec_direction(x, y) {
            Some(d) => walk(f, x + d.0, y + d.1, (steps - 1) as nat),
            None => (x, y),
        }
    }
}

/// Following the flow field from any covered tile reaches the player: after `cost / 10` steps
/// (or any larger number) the walker stands on the player's tile.
pub proof fn lemma_walk_reaches_player(f: FlowField, player: GridPosition, x: int, y: int, steps: nat)
    requires
        f.is_flow_field_of(player),
        f.spec_cost(x, y) is Some,
        steps >= f.spec_cost(x, y)->0 / 10,
    ensures
        walk(f, x, y, steps) == (player.x as int, player.y as int),
    decreases steps,
{
    if x == player.x && y == player.y {
        if steps > 0 {
            assert(f.spec_direction(x, y) is None);
        }
    } else {
        assert(f.spec_direction(x, y) is Some);
        let d = f.spec_direction(x, y)->0;
        assert(f.spec_cost(x + d.0, y + d.1) is Some);
        if steps == 0 {
            assert(f.spec_cost(x, y)->0 >= 10 * cheb(player, x, y));
            assert(false);
        }
        lemma_walk_reaches_player(f, player, x + d.0, y + d.1, (steps - 1) as nat);
    }
}

} // verus!
