//! Connected regions of a grid of cells.
use vstd::prelude::*;

verus! {

/// A cell: its row and its column.
pub type Cell = (usize, usize);

/// A grid of cells, each of which is set or not, row after row.
pub struct Mask {
    pub width: usize,
    pub height: usize,
    pub set: Vec<bool>,
}

/// A grid of cells, as contracts speak of it.
pub struct Grid {
    pub width: usize,
    pub height: usize,
    pub set: Seq<bool>,
}

impl View for Mask {
    type V = Grid;

    open spec fn view(&self) -> Grid {
        Grid { width: self.width, height: self.height, set: self.set@ }
    }
}

impl Grid {
    /// There is one flag for each cell.
    pub open spec fn valid(self) -> bool {
        self.set.len() == self.width * self.height
    }

    pub open spec fn inside(self, c: Cell) -> bool {
        c.0 < self.height && c.1 < self.width
    }

    /// Where the flag of a cell stands.
    pub open spec fn place(self, c: Cell) -> int {
        c.0 * self.width + c.1
    }

    /// The cell lies in the grid and is set.
    pub open spec fn has(self, c: Cell) -> bool {
        self.inside(c) && self.set[self.place(c)]
    }

    /// The cells left of, right of, above and below a cell, as far as there
    /// are such.
    pub open spec fn around(self, c: Cell) -> Seq<Cell> {
        let left = if c.1 > 0 {
            seq![(c.0, (c.1 - 1) as usize)]
        } else {
            seq![]
        };
        let right = if c.1 + 1 < self.width {
            seq![(c.0, (c.1 + 1) as usize)]
        } else {
            seq![]
        };
        let above = if c.0 > 0 {
            seq![((c.0 - 1) as usize, c.1)]
        } else {
            seq![]
        };
        let below = if c.0 + 1 < self.height {
            seq![((c.0 + 1) as usize, c.1)]
        } else {
            seq![]
        };
        left + right + above + below
    }
}

/// How many flags are down.
pub open spec fn unset(flags: Seq<bool>) -> nat
    decreases flags.len(),
{
    if flags.len() == 0 {
        0
    } else if flags.last() {
        unset(flags.drop_last())
    } else {
        1 + unset(flags.drop_last())
    }
}

pub proof fn lemma_unset_update(flags: Seq<bool>, i: int)
    requires
        0 <= i < flags.len(),
        !flags[i],
    ensures
        unset(flags.update(i, true)) + 1 == unset(flags),
    decreases flags.len(),
{
    let next = flags.update(i, true);
    if i == flags.len() - 1 {
        assert(next.drop_last() =~= flags.drop_last());
    } else {
        assert(next.drop_last() =~= flags.drop_last().update(i, true));
        lemma_unset_update(flags.drop_last(), i);
    }
}

/// What a flood leaves: the cells in the order in which it reached them, and
/// which cells have been seen.
pub struct Flood {
    pub order: Seq<Cell>,
    pub seen: Seq<bool>,
}

/// A flood over the set cells, from a stack of cells to visit next.
pub open spec fn flood(g: Grid, seen: Seq<bool>, stack: Seq<Cell>) -> Flood
    decreases unset(seen), stack.len(),
{
    if stack.len() == 0 {
        Flood { order: seq![], seen: seen }
    } else {
        let c = stack.last();
        let rest = stack.drop_last();
        let at = g.place(c);
        if !g.has(c) || !(0 <= at < seen.len()) || seen[at] {
            flood(g, seen, rest)
        } else {
            proof {
                lemma_unset_update(seen, at);
            }
            let next = flood(g, seen.update(at, true), rest + g.around(c));
            Flood { order: seq![c] + next.order, seen: next.seen }
        }
    }
}

/// The regions that start at or after the flag `from`, given the cells seen
/// so far. A region is found at its first cell, row after row.
pub open spec fn regions(g: Grid, seen: Seq<bool>, from: nat) -> Seq<Seq<Cell>>
    decreases g.set.len() - from,
{
    if from >= g.set.len() {
        seq![]
    } else if seen[from as int] || !g.set[from as int] {
        regions(g, seen, from + 1)
    } else {
        let r = flood(g, seen, seq![g.cell(from)]);
        seq![r.order] + regions(g, r.seen, from + 1)
    }
}

impl Grid {
    /// The cell of a flag.
    pub open spec fn cell(self, at: nat) -> Cell {
        ((at as int / self.width as int) as usize, (at as int % self.width as int) as usize)
    }

    /// No cell seen.
    pub open spec fn unseen(self) -> Seq<bool> {
        Seq::new(self.set.len(), |i: int| false)
    }

    /// All regions of the grid.
    pub open spec fn all_regions(self) -> Seq<Seq<Cell>> {
        regions(self, self.unseen(), 0)
    }
}

pub proof fn lemma_place(g: Grid, c: Cell)
    requires
        g.valid(),
        g.inside(c),
    ensures
        0 <= g.place(c) < g.set.len(),
        g.cell(g.place(c) as nat) == c,
{
    let w = g.width as int;
    let y = c.0 as int;
    let x = c.1 as int;
    assert(0 <= y * w + x < w * g.height) by (nonlinear_arith)
        requires
            0 <= y < g.height,
            0 <= x < w,
    ;
    vstd::arithmetic::div_mod::lemma_fundamental_div_mod_converse(y * w + x, w, y, x);
}

pub proof fn lemma_cell(g: Grid, at: nat)
    requires
        g.valid(),
        at < g.set.len(),
    ensures
        g.width > 0,
        g.inside(g.cell(at)),
        g.place(g.cell(at)) == at,
{
    let w = g.width as int;
    assert(w > 0) by (nonlinear_arith)
        requires
            w >= 0,
            at < w * g.height,
            at >= 0,
    ;
    vstd::arithmetic::div_mod::lemma_fundamental_div_mod(at as int, w);
    let y = at as int / w;
    let x = at as int % w;
    vstd::arithmetic::mul::lemma_mul_is_commutative(w, y);
    assert(0 <= y < g.height) by (nonlinear_arith)
        requires
            at == w * y + x,
            0 <= x < w,
            0 <= at < w * g.height,
    ;
}

impl Mask {
    /// The region of a cell: the cells that a flood from it reaches.
    fn region(&self, seen: &mut Vec<bool>, first: Cell) -> (order: Vec<Cell>)
        requires
            self@.valid(),
            old(seen)@.len() == self.set@.len(),
        ensures
            final(seen)@.len() == self.set@.len(),
            order@ == flood(self@, old(seen)@, seq![first]).order,
            final(seen)@ == flood(self@, old(seen)@, seq![first]).seen,
    {
        let cells = self.set.len();
        let mut order: Vec<Cell> = Vec::new();
        let mut stack: Vec<Cell> = Vec::new();
        stack.push(first);
        let ghost goal = flood(self@, seen@, seq![first]);
        assert(stack@ =~= seq![first]);
        assert(order@ + goal.order =~= goal.order);
        while stack.len() > 0
            invariant
                self@.valid(),
                cells == self.set@.len(),
                seen@.len() == self.set@.len(),
                order@ + flood(self@, seen@, stack@).order == goal.order,
                flood(self@, seen@, stack@).seen == goal.seen,
            decreases unset(seen@), stack@.len(),
        {
            let ghost before = stack@;
            let ghost seen_before = seen@;
            let c: Cell = stack[stack.len() - 1];
            stack.pop();
            assert(stack@ =~= before.drop_last());
            if c.0 < self.height && c.1 < self.width {
                proof {
                    lemma_place(self@, c);
                    assert(c.0 * self.width >= 0) by (nonlinear_arith);
                }
                let at: usize = c.0 * self.width + c.1;
                if self.set[at] && !seen[at] {
                    seen.set(at, true);
                    proof {
                        lemma_unset_update(seen_before, at as int);
                    }
                    if c.1 > 0 {
                        stack.push((c.0, c.1 - 1));
                    }
                    if c.1 + 1 < self.width {
                        stack.push((c.0, c.1 + 1));
                    }
                    if c.0 > 0 {
                        stack.push((c.0 - 1, c.1));
                    }
                    if c.0 + 1 < self.height {
                        stack.push((c.0 + 1, c.1));
                    }
                    assert(stack@ =~= before.drop_last() + self@.around(c));
                    let ghost order_before = order@;
                    order.push(c);
                    proof {
                        let next = flood(self@, seen@, stack@);
                        assert(order@ + next.order =~= order_before + (seq![c] + next.order));
                    }
                }
            }
        }
        assert(order@ + Seq::<Cell>::empty() =~= order@);
        order
    }
}

/// The sequences that a vector of vectors holds.
pub open spec fn contents(v: Seq<Vec<Cell>>) -> Seq<Seq<Cell>> {
    Seq::new(v.len(), |i: int| v[i]@)
}

impl Mask {
    /// All regions of the grid, each in the order in which a flood from its
    /// first cell reaches its cells.
    pub fn regions(&self) -> (r: Vec<Vec<Cell>>)
        requires
            self@.valid(),
        ensures
            contents(r@) == self@.all_regions(),
    {
        let cells = self.set.len();
        let mut seen: Vec<bool> = Vec::new();
        let mut i: usize = 0;
        while i < cells
            invariant
                i <= cells,
                seen@ =~= Seq::new(i as nat, |j: int| false),
            decreases cells - i,
        {
            seen.push(false);
            i = i + 1;
        }
        let mut found: Vec<Vec<Cell>> = Vec::new();
        let mut from: usize = 0;
        assert(seen@ =~= self@.unseen());
        assert(contents(found@) + self@.all_regions() =~= self@.all_regions());
        while from < cells
            invariant
                self@.valid(),
                cells == self.set@.len(),
                from <= cells,
                seen@.len() == cells,
                contents(found@) + regions(self@, seen@, from as nat) == self@.all_regions(),
            decreases cells - from,
        {
            if !seen[from] && self.set[from] {
                proof {
                    lemma_cell(self@, from as nat);
                }
                let first: Cell = (from / self.width, from % self.width);
                assert(first == self@.cell(from as nat));
                let ghost seen_before = seen@;
                let ghost found_before = found@;
                let order = self.region(&mut seen, first);
                found.push(order);
                proof {
                    let rest = regions(self@, seen@, (from + 1) as nat);
                    assert(contents(found@) =~= contents(found_before).push(order@));
                    assert(contents(found@) + rest =~= contents(found_before) + (seq![order@]
                        + rest));
                }
            }
            from = from + 1;
        }
        assert(contents(found@) + Seq::<Seq<Cell>>::empty() =~= contents(found@));
        found
    }
}

/// Two cells share a side.
pub open spec fn adjacent(a: Cell, b: Cell) -> bool {
    ||| a.0 == b.0 && (a.1 + 1 == b.1 || b.1 + 1 == a.1)
    ||| a.1 == b.1 && (a.0 + 1 == b.0 || b.0 + 1 == a.0)
}

/// A path over set cells, from one to the next across a side.
pub open spec fn is_path(g: Grid, path: Seq<Cell>) -> bool {
    &&& path.len() > 0
    &&& forall|i: int| 0 <= i < path.len() ==> g.has(#[trigger] path[i])
    &&& forall|i: int, j: int|
        0 <= i && j == i + 1 && j < path.len() ==> adjacent(#[trigger] path[i], #[trigger] path[j])
}

/// A path over set cells leads from `a` to `b`.
pub open spec fn connected(g: Grid, a: Cell, b: Cell) -> bool {
    exists|path: Seq<Cell>| #[trigger] is_path(g, path) && path[0] == a && path.last() == b
}

/// Each cell seen has all its set neighbours seen, or on the stack.
spec fn covered(g: Grid, seen: Seq<bool>, stack: Seq<Cell>) -> bool {
    forall|a: Cell, b: Cell|
        #![trigger adjacent(a, b)]
        g.has(a) && seen[g.place(a)] && g.has(b) && adjacent(a, b) ==> seen[g.place(b)]
            || stack.contains(b)
}

/// Only set cells are seen.
spec fn within(g: Grid, seen: Seq<bool>) -> bool {
    forall|c: Cell| #[trigger] g.inside(c) && seen[g.place(c)] ==> g.has(c)
}

proof fn lemma_around(g: Grid, a: Cell, b: Cell)
    requires
        g.inside(a),
    ensures
        g.inside(b) && adjacent(a, b) ==> g.around(a).contains(b),
        g.around(a).contains(b) ==> adjacent(a, b),
{
    let s = g.around(a);
    let left = if a.1 > 0 {
        seq![(a.0, (a.1 - 1) as usize)]
    } else {
        seq![]
    };
    let right = if a.1 + 1 < g.width {
        seq![(a.0, (a.1 + 1) as usize)]
    } else {
        seq![]
    };
    let above = if a.0 > 0 {
        seq![((a.0 - 1) as usize, a.1)]
    } else {
        seq![]
    };
    let below = if a.0 + 1 < g.height {
        seq![((a.0 + 1) as usize, a.1)]
    } else {
        seq![]
    };
    assert(s == left + right + above + below);
    let i = left.len() as int;
    let j = i + right.len();
    let k = j + above.len();
    if g.inside(b) && adjacent(a, b) {
        if a.0 == b.0 && b.1 + 1 == a.1 {
            assert(s[0] == b);
        } else if a.0 == b.0 {
            assert(s[i] == b);
        } else if b.0 + 1 == a.0 {
            assert(s[j] == b);
        } else {
            assert(s[k] == b);
        }
    }
    if s.contains(b) {
        let n = choose|n: int| 0 <= n < s.len() && s[n] == b;
        if n < i {
            assert(s[n] == left[n]);
        } else if n < j {
            assert(s[n] == right[n - i]);
        } else if n < k {
            assert(s[n] == above[n - j]);
        } else {
            assert(s[n] == below[n - k]);
        }
    }
}

/// A path can be led on from a neighbour of its start.
proof fn lemma_connected_step(g: Grid, a: Cell, b: Cell, c: Cell)
    requires
        g.has(a),
        adjacent(a, b),
        connected(g, b, c),
    ensures
        connected(g, a, c),
{
    let path = choose|path: Seq<Cell>|
        #[trigger] is_path(g, path) && path[0] == b && path.last() == c;
    let longer = seq![a] + path;
    assert(longer.last() == c);
    assert forall|i: int| 0 <= i < longer.len() implies g.has(#[trigger] longer[i]) by {
        if i > 0 {
            assert(longer[i] == path[i - 1]);
        }
    }
    assert forall|i: int, j: int| 0 <= i && j == i + 1 && j < longer.len() implies adjacent(
        #[trigger] longer[i],
        #[trigger] longer[j],
    ) by {
        if i > 0 {
            assert(longer[i] == path[i - 1]);
            assert(longer[j] == path[j - 1]);
        } else {
            assert(longer[j] == path[0]);
        }
    }
    assert(is_path(g, longer));
}

proof fn lemma_connected_self(g: Grid, a: Cell)
    requires
        g.has(a),
    ensures
        connected(g, a, a),
{
    let path = seq![a];
    assert(is_path(g, path));
}

/// Some cell of the stack is connected to `c`.
spec fn reached(g: Grid, stack: Seq<Cell>, c: Cell) -> bool {
    exists|i: int| 0 <= i < stack.len() && connected(g, #[trigger] stack[i], c)
}

/// What a flood does, from any state.
proof fn lemma_flood(g: Grid, seen: Seq<bool>, stack: Seq<Cell>)
    requires
        g.valid(),
        seen.len() == g.set.len(),
        within(g, seen),
        covered(g, seen, stack),
    ensures
        ({
            let r = flood(g, seen, stack);
            &&& r.seen.len() == seen.len()
            &&& within(g, r.seen)
            &&& covered(g, r.seen, seq![])
            &&& forall|c: Cell| #[trigger]
                g.inside(c) ==> (r.seen[g.place(c)] <==> seen[g.place(c)] || r.order.contains(c))
            &&& forall|c: Cell| #[trigger]
                r.order.contains(c) ==> g.has(c) && !seen[g.place(c)] && reached(g, stack, c)
            &&& forall|c: Cell|
                #![trigger stack.contains(c)]
                stack.contains(c) && g.has(c) ==> r.seen[g.place(c)]
            &&& r.order.no_duplicates()
        }),
    decreases unset(seen), stack.len(),
{
    let r = flood(g, seen, stack);
    if stack.len() == 0 {
        assert(stack =~= seq![]);
    } else {
        let c = stack.last();
        let rest = stack.drop_last();
        let at = g.place(c);
        if g.inside(c) {
            lemma_place(g, c);
        }
        if !g.has(c) || seen[at] {
            assert forall|a: Cell, b: Cell|
                #![trigger adjacent(a, b)]
                g.has(a) && seen[g.place(a)] && g.has(b) && adjacent(a, b) implies seen[g.place(b)]
                || rest.contains(b) by {
                if !seen[g.place(b)] {
                    let i = choose|i: int| 0 <= i < stack.len() && stack[i] == b;
                    assert(rest[i] == b);
                }
            }
            lemma_flood(g, seen, rest);
            assert forall|d: Cell| #[trigger] r.order.contains(d) implies g.has(d)
                && !seen[g.place(d)] && reached(g, stack, d) by {
                let i = choose|i: int| 0 <= i < rest.len() && connected(g, #[trigger] rest[i], d);
                assert(stack[i] == rest[i]);
            }
            assert forall|d: Cell|
                #![trigger stack.contains(d)]
                stack.contains(d) && g.has(d) implies r.seen[g.place(d)] by {
                let i = choose|i: int| 0 <= i < stack.len() && stack[i] == d;
                if i < rest.len() {
                    assert(rest[i] == d);
                    assert(rest.contains(d));
                } else {
                    assert(g.inside(d));
                }
            }
        } else {
            let seen1 = seen.update(at, true);
            let stack1 = rest + g.around(c);
            lemma_unset_update(seen, at);
            lemma_flood_step(g, seen, stack, c);
            lemma_flood(g, seen1, stack1);
            let next = flood(g, seen1, stack1);
            assert(r.order == seq![c] + next.order);
            assert(r.order[0] == c);
            assert forall|d: Cell| #[trigger] g.inside(d) implies (r.seen[g.place(d)]
                <==> seen[g.place(d)] || r.order.contains(d)) by {
                lemma_place(g, d);
                lemma_prefixed(c, next.order, d);
            }
            assert forall|d: Cell| #[trigger] r.order.contains(d) implies g.has(d)
                && !seen[g.place(d)] && reached(g, stack, d) by {
                lemma_prefixed(c, next.order, d);
                if d == c {
                    lemma_connected_self(g, c);
                    assert(stack[stack.len() - 1] == c);
                } else {
                    assert(next.order.contains(d));
                    lemma_place(g, d);
                    assert(!seen1[g.place(d)]);
                    assert(reached(g, stack1, d));
                    let i = choose|i: int|
                        0 <= i < stack1.len() && connected(g, #[trigger] stack1[i], d);
                    if i < rest.len() {
                        assert(stack[i] == stack1[i]);
                    } else {
                        let b = stack1[i];
                        assert(b == g.around(c)[i - rest.len()]);
                        lemma_around(g, c, b);
                        lemma_connected_step(g, c, b, d);
                        assert(stack[stack.len() - 1] == c);
                    }
                }
            }
            assert forall|d: Cell|
                #![trigger stack.contains(d)]
                stack.contains(d) && g.has(d) implies r.seen[g.place(d)] by {
                let i = choose|i: int| 0 <= i < stack.len() && stack[i] == d;
                if i < rest.len() {
                    assert(stack1[i] == d);
                    assert(stack1.contains(d));
                } else {
                    assert(g.inside(d));
                }
            }
            assert(r.order.no_duplicates()) by {
                assert(!next.order.contains(c));
                assert forall|i: int, j: int|
                    0 <= i < r.order.len() && 0 <= j < r.order.len() && i != j implies r.order[i]
                    != r.order[j] by {
                    if i > 0 && j > 0 {
                        assert(r.order[i] == next.order[i - 1]);
                        assert(r.order[j] == next.order[j - 1]);
                    } else if i == 0 {
                        assert(r.order[j] == next.order[j - 1]);
                        assert(next.order.contains(r.order[j]));
                    } else {
                        assert(r.order[i] == next.order[i - 1]);
                        assert(next.order.contains(r.order[i]));
                    }
                }
            }
        }
    }
}

proof fn lemma_prefixed(c: Cell, order: Seq<Cell>, d: Cell)
    ensures
        (seq![c] + order).contains(d) <==> d == c || order.contains(d),
{
    let s = seq![c] + order;
    assert(s[0] == c);
    if order.contains(d) {
        let i = choose|i: int| 0 <= i < order.len() && order[i] == d;
        assert(s[i + 1] == d);
    }
    if s.contains(d) && d != c {
        let i = choose|i: int| 0 <= i < s.len() && s[i] == d;
        assert(order[i - 1] == d);
    }
}

/// Seeing a cell, with its neighbours put on the stack, keeps what a flood
/// relies on.
proof fn lemma_flood_step(g: Grid, seen: Seq<bool>, stack: Seq<Cell>, c: Cell)
    requires
        g.valid(),
        seen.len() == g.set.len(),
        within(g, seen),
        covered(g, seen, stack),
        stack.len() > 0,
        c == stack.last(),
        g.has(c),
    ensures
        within(g, seen.update(g.place(c), true)),
        covered(g, seen.update(g.place(c), true), stack.drop_last() + g.around(c)),
{
    let at = g.place(c);
    let rest = stack.drop_last();
    let seen1 = seen.update(at, true);
    let stack1 = rest + g.around(c);
    lemma_place(g, c);
    assert forall|d: Cell| #[trigger] g.inside(d) && seen1[g.place(d)] implies g.has(d) by {
        lemma_place(g, d);
    }
    assert forall|a: Cell, b: Cell|
        #![trigger adjacent(a, b)]
        g.has(a) && seen1[g.place(a)] && g.has(b) && adjacent(a, b) implies seen1[g.place(b)]
        || stack1.contains(b) by {
        lemma_place(g, a);
        lemma_place(g, b);
        if a == c {
            lemma_around(g, c, b);
            let k = choose|k: int| 0 <= k < g.around(c).len() && g.around(c)[k] == b;
            assert(stack1[rest.len() + k] == b);
        } else {
            assert(seen[g.place(a)]);
            if !seen[g.place(b)] {
                let i = choose|i: int| 0 <= i < stack.len() && stack[i] == b;
                if i < rest.len() {
                    assert(stack1[i] == b);
                }
            }
        }
    }
}

/// Where one end of a path is seen, so is the other.
proof fn lemma_path_seen(g: Grid, seen: Seq<bool>, path: Seq<Cell>, i: int)
    requires
        covered(g, seen, seq![]),
        is_path(g, path),
        0 <= i < path.len(),
    ensures
        seen[g.place(path[0])] ==> seen[g.place(path[i])],
        seen[g.place(path[i])] ==> seen[g.place(path[0])],
    decreases i,
{
    if i > 0 {
        lemma_path_seen(g, seen, path, i - 1);
        let a = path[i - 1];
        let b = path[i];
        assert(adjacent(a, b));
        assert(adjacent(b, a));
        assert(g.has(a) && g.has(b));
        assert(!Seq::<Cell>::empty().contains(a));
        assert(!Seq::<Cell>::empty().contains(b));
    }
}

/// A flood from a cell not seen before reaches the cells connected to it.
proof fn lemma_region(g: Grid, seen: Seq<bool>, first: Cell)
    requires
        g.valid(),
        seen.len() == g.set.len(),
        within(g, seen),
        covered(g, seen, seq![]),
        g.has(first),
        !seen[g.place(first)],
    ensures
        ({
            let r = flood(g, seen, seq![first]);
            &&& r.seen.len() == seen.len()
            &&& within(g, r.seen)
            &&& covered(g, r.seen, seq![])
            &&& r.order.len() > 0
            &&& r.order[0] == first
            &&& r.order.no_duplicates()
            &&& forall|c: Cell| #[trigger] r.order.contains(c) <==> connected(g, first, c)
            &&& forall|c: Cell| #[trigger]
                g.inside(c) ==> (r.seen[g.place(c)] <==> seen[g.place(c)] || r.order.contains(c))
            &&& forall|c: Cell| #[trigger] r.order.contains(c) ==> g.has(c) && !seen[g.place(c)]
        }),
{
    let stack = seq![first];
    let r = flood(g, seen, stack);
    assert(stack.last() == first);
    lemma_place(g, first);
    assert(covered(g, seen, stack)) by {
        assert forall|a: Cell, b: Cell|
            #![trigger adjacent(a, b)]
            g.has(a) && seen[g.place(a)] && g.has(b) && adjacent(a, b) implies seen[g.place(b)]
            || stack.contains(b) by {
            assert(!Seq::<Cell>::empty().contains(b));
        }
    }
    lemma_flood(g, seen, stack);
    assert forall|c: Cell| #[trigger] r.order.contains(c) <==> connected(g, first, c) by {
        if r.order.contains(c) {
            assert(reached(g, stack, c));
            let i = choose|i: int| 0 <= i < stack.len() && connected(g, #[trigger] stack[i], c);
            assert(stack[i] == first);
        }
        if connected(g, first, c) {
            let path = choose|path: Seq<Cell>|
                #[trigger] is_path(g, path) && path[0] == first && path.last() == c;
            let end = path.len() - 1;
            assert(stack.contains(stack[0]));
            assert(r.seen[g.place(first)]);
            lemma_path_seen(g, r.seen, path, end);
            lemma_path_seen(g, seen, path, end);
            assert(g.has(path[end]));
            assert(g.inside(c));
        }
    }
}

/// The cells are those connected to the first, each once, and none stands
/// before the first.
pub open spec fn is_region(g: Grid, cells: Seq<Cell>) -> bool {
    &&& cells.len() > 0
    &&& cells.no_duplicates()
    &&& forall|c: Cell| #[trigger] cells.contains(c) <==> connected(g, cells[0], c)
    &&& forall|c: Cell| #[trigger] cells.contains(c) ==> g.place(cells[0]) <= g.place(c)
}

/// What the scan for regions finds, from any state.
proof fn lemma_regions(g: Grid, seen: Seq<bool>, from: nat)
    requires
        g.valid(),
        seen.len() == g.set.len(),
        within(g, seen),
        covered(g, seen, seq![]),
        forall|c: Cell| #[trigger] g.has(c) && g.place(c) < from ==> seen[g.place(c)],
    ensures
        ({
            let rs = regions(g, seen, from);
            &&& forall|i: int| 0 <= i < rs.len() ==> is_region(g, #[trigger] rs[i])
            &&& forall|i: int| 0 <= i < rs.len() ==> g.place(#[trigger] rs[i][0]) >= from
            &&& forall|i: int, j: int|
                0 <= i < j < rs.len() ==> g.place(#[trigger] rs[i][0]) < g.place(
                    #[trigger] rs[j][0],
                )
            &&& forall|i: int, c: Cell|
                0 <= i < rs.len() && #[trigger] rs[i].contains(c) ==> g.has(c) && !seen[g.place(c)]
            &&& forall|c: Cell| #[trigger]
                g.has(c) && !seen[g.place(c)] ==> exists|i: int|
                    0 <= i < rs.len() && #[trigger] rs[i].contains(c)
        }),
    decreases g.set.len() - from,
{
    let rs = regions(g, seen, from);
    if from >= g.set.len() {
        assert forall|c: Cell| #[trigger] g.has(c) && !seen[g.place(c)] implies exists|i: int|
            0 <= i < rs.len() && #[trigger] rs[i].contains(c) by {
            lemma_place(g, c);
        }
    } else {
        lemma_cell(g, from);
        let first = g.cell(from);
        if seen[from as int] || !g.set[from as int] {
            assert forall|c: Cell| #[trigger] g.has(c) && g.place(c) < from + 1 implies seen[g.place(
                c,
            )] by {
                lemma_place(g, c);
            }
            lemma_regions(g, seen, from + 1);
            let rest = regions(g, seen, from + 1);
            assert(rs == rest);
            assert forall|i: int| 0 <= i < rs.len() implies is_region(g, #[trigger] rs[i]) by {
                assert(is_region(g, rest[i]));
            }
        } else {
            lemma_region(g, seen, first);
            let r = flood(g, seen, seq![first]);
            assert forall|c: Cell| #[trigger] g.has(c) && g.place(c) < from + 1 implies r.seen[g.place(
                c,
            )] by {
                lemma_place(g, c);
                if g.place(c) == from {
                    assert(c == first);
                    assert(r.order.contains(r.order[0]));
                }
                assert(g.inside(c));
            }
            lemma_regions(g, r.seen, from + 1);
            let rest = regions(g, r.seen, from + 1);
            assert(rs == seq![r.order] + rest);
            assert(rs[0] == r.order);
            assert forall|i: int| 1 <= i < rs.len() implies rs[i] == #[trigger] rest[i - 1] by {}
            assert(is_region(g, r.order)) by {
                assert forall|c: Cell| #[trigger] r.order.contains(c) implies g.place(first)
                    <= g.place(c) by {
                    assert(g.has(c) && !seen[g.place(c)]);
                }
            }
            assert forall|i: int| 0 <= i < rs.len() implies is_region(g, #[trigger] rs[i]) by {
                if i > 0 {
                    assert(rs[i] == rest[i - 1]);
                }
            }
            assert forall|i: int| 0 <= i < rs.len() implies g.place(#[trigger] rs[i][0])
                >= from by {
                if i > 0 {
                    assert(rs[i] == rest[i - 1]);
                    assert(g.place(rest[i - 1][0]) >= from + 1);
                }
            }
            assert forall|i: int, j: int| 0 <= i < j < rs.len() implies g.place(
                #[trigger] rs[i][0],
            ) < g.place(#[trigger] rs[j][0]) by {
                assert(rs[j] == rest[j - 1]);
                assert(g.place(rest[j - 1][0]) >= from + 1);
                if i > 0 {
                    assert(rs[i] == rest[i - 1]);
                    assert(g.place(rest[i - 1][0]) < g.place(rest[j - 1][0]));
                }
            }
            assert forall|i: int, c: Cell|
                0 <= i < rs.len() && #[trigger] rs[i].contains(c) implies g.has(c)
                && !seen[g.place(c)] by {
                if i > 0 {
                    assert(rs[i] == rest[i - 1]);
                    assert(rest[i - 1].contains(c));
                    assert(g.has(c) && !r.seen[g.place(c)]);
                    assert(g.inside(c));
                }
            }
            assert forall|c: Cell| #[trigger] g.has(c) && !seen[g.place(c)] implies exists|i: int|
                0 <= i < rs.len() && #[trigger] rs[i].contains(c) by {
                assert(g.inside(c));
                if r.seen[g.place(c)] {
                    assert(rs[0].contains(c));
                } else {
                    let k = choose|k: int| 0 <= k < rest.len() && #[trigger] rest[k].contains(c);
                    assert(rs[k + 1] == rest[k]);
                    assert(rs[k + 1].contains(c));
                }
            }
        }
    }
}

/// The regions of a grid are its connected parts: each is the set of cells
/// that paths over set cells join to its first cell, every set cell lies in
/// one, no cell in two, and they come in the order of their first cells, row
/// after row.
pub proof fn regions_are_the_connected_parts(g: Grid)
    requires
        g.valid(),
    ensures
        forall|i: int| 0 <= i < g.all_regions().len() ==> is_region(g, #[trigger] g.all_regions()[i]),
        forall|i: int, j: int|
            0 <= i < j < g.all_regions().len() ==> g.place(#[trigger] g.all_regions()[i][0])
                < g.place(#[trigger] g.all_regions()[j][0]),
        forall|c: Cell|
            #[trigger] g.has(c) <==> exists|i: int|
                0 <= i < g.all_regions().len() && #[trigger] g.all_regions()[i].contains(c),
        forall|i: int, j: int, c: Cell|
            0 <= i < j < g.all_regions().len() && #[trigger] g.all_regions()[i].contains(c)
                ==> !(#[trigger] g.all_regions()[j].contains(c)),
{
    let seen = g.unseen();
    assert forall|c: Cell| #[trigger] g.inside(c) implies !seen[g.place(c)] by {
        lemma_place(g, c);
    }
    assert forall|c: Cell| #[trigger] g.has(c) implies !seen[g.place(c)] by {
        assert(g.inside(c));
    }
    lemma_regions(g, seen, 0);
    let rs = g.all_regions();
    assert forall|i: int, j: int, c: Cell|
        0 <= i < j < rs.len() && #[trigger] rs[i].contains(c) implies !(
    #[trigger] rs[j].contains(c)) by {
        if rs[j].contains(c) {
            assert(is_region(g, rs[i]) && is_region(g, rs[j]));
            let a = rs[i][0];
            let b = rs[j][0];
            lemma_connected_turned(g, b, c);
            lemma_connected_joined(g, a, c, b);
            assert(rs[i].contains(b));
            lemma_connected_turned(g, a, b);
            assert(rs[j].contains(a));
            assert(g.place(b) <= g.place(a));
        }
    }
}

/// There are cells, and they are set cells of the grid.
pub open spec fn lies_in(g: Grid, cells: Seq<Cell>) -> bool {
    &&& cells.len() > 0
    &&& forall|i: int| 0 <= i < cells.len() ==> g.has(#[trigger] cells[i])
}

pub proof fn lemma_regions_lie_in(g: Grid)
    requires
        g.valid(),
    ensures
        forall|i: int| 0 <= i < g.all_regions().len() ==> lies_in(g, #[trigger] g.all_regions()[i]),
{
    regions_are_the_connected_parts(g);
    let rs = g.all_regions();
    assert forall|i: int| 0 <= i < rs.len() implies lies_in(g, #[trigger] rs[i]) by {
        assert(is_region(g, rs[i]));
        assert forall|j: int| 0 <= j < rs[i].len() implies g.has(#[trigger] rs[i][j]) by {
            assert(rs[i].contains(rs[i][j]));
        }
    }
}

/// Paths can be walked back.
pub proof fn lemma_connected_turned(g: Grid, a: Cell, b: Cell)
    requires
        connected(g, a, b),
    ensures
        connected(g, b, a),
{
    let path = choose|path: Seq<Cell>|
        #[trigger] is_path(g, path) && path[0] == a && path.last() == b;
    let n = path.len();
    let back = Seq::new(n, |i: int| path[n - 1 - i]);
    assert forall|i: int, j: int| 0 <= i && j == i + 1 && j < back.len() implies adjacent(
        #[trigger] back[i],
        #[trigger] back[j],
    ) by {
        assert(adjacent(path[n - 1 - j], path[n - 1 - i]));
    }
    assert(is_path(g, back));
    assert(back[0] == b && back.last() == a);
}

/// Paths can be joined.
pub proof fn lemma_connected_joined(g: Grid, a: Cell, b: Cell, c: Cell)
    requires
        connected(g, a, b),
        connected(g, b, c),
    ensures
        connected(g, a, c),
{
    let p = choose|path: Seq<Cell>|
        #[trigger] is_path(g, path) && path[0] == a && path.last() == b;
    let q = choose|path: Seq<Cell>|
        #[trigger] is_path(g, path) && path[0] == b && path.last() == c;
    let m = (p.len() - 1) as int;
    let s = p + q.drop_first();
    assert forall|i: int| 0 <= i < s.len() implies g.has(#[trigger] s[i]) by {
        if i <= m {
            assert(s[i] == p[i]);
        } else {
            assert(s[i] == q[i - m]);
        }
    }
    assert forall|i: int, j: int| 0 <= i && j == i + 1 && j < s.len() implies adjacent(
        #[trigger] s[i],
        #[trigger] s[j],
    ) by {
        if j <= m {
            assert(s[i] == p[i] && s[j] == p[j]);
        } else {
            assert(s[j] == q[j - m]);
            assert(s[i] == q[i - m]);
        }
    }
    assert(is_path(g, s));
    assert(s[0] == a);
    assert(s.last() == c) by {
        if q.len() == 1 {
            assert(s.last() == p.last());
        } else {
            assert(s.last() == q.last());
        }
    }
}

/// Two set cells that share a side belong together, and only sides count: a cell
/// none of whose four neighbours is set is a region by itself, whatever lies
/// across its corners.
pub proof fn only_shared_sides_join_cells(g: Grid, a: Cell, b: Cell, i: int)
    requires
        g.valid(),
        g.has(a),
        0 <= i < g.all_regions().len(),
        g.all_regions()[i].contains(a),
    ensures
        g.has(b) && ((a.0 == b.0 && (a.1 == b.1 + 1 || b.1 == a.1 + 1)) || (a.1 == b.1 && (a.0
            == b.0 + 1 || b.0 == a.0 + 1))) ==> g.all_regions()[i].contains(b),
        (forall|c: Cell| #[trigger]
            g.has(c) ==> !(a.0 == c.0 && (a.1 == c.1 + 1 || c.1 == a.1 + 1)) && !(a.1 == c.1 && (a.0
                == c.0 + 1 || c.0 == a.0 + 1))) ==> g.all_regions()[i] == seq![a],
{
    regions_are_the_connected_parts(g);
    let region = g.all_regions()[i];
    assert(is_region(g, region));
    let first = region[0];
    assert(connected(g, first, a));
    if g.has(b) && adjacent(a, b) {
        let step = seq![a, b];
        assert(is_path(g, step)) by {
            assert forall|k: int, l: int| 0 <= k && l == k + 1 && l < step.len() implies adjacent(
                #[trigger] step[k],
                #[trigger] step[l],
            ) by {
                assert(k == 0);
            }
        }
        assert(step[0] == a && step.last() == b);
        assert(connected(g, a, b));
        lemma_connected_joined(g, first, a, b);
        assert(region.contains(b));
    }
    if forall|c: Cell| #[trigger]
        g.has(c) ==> !(a.0 == c.0 && (a.1 == c.1 + 1 || c.1 == a.1 + 1)) && !(a.1 == c.1 && (a.0
            == c.0 + 1 || c.0 == a.0 + 1)) {
        assert forall|k: int| 0 <= k < region.len() implies #[trigger] region[k] == a by {
            let c = region[k];
            assert(region.contains(c));
            lemma_connected_turned(g, first, a);
            lemma_connected_joined(g, a, first, c);
            let path = choose|path: Seq<Cell>|
                #[trigger] is_path(g, path) && path[0] == a && path.last() == c;
            if path.len() > 1 {
                assert(adjacent(path[0], path[1]));
                assert(g.has(path[1]));
            }
        }
        if region.len() > 1 {
            assert(region[0] == a && region[1] == a);
        }
        assert(region =~= seq![a]);
    }
}

} // verus!
