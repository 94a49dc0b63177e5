//! The control-flow graph of a function body and dominance over it.
//!
//! The successors of a block are the destinations of its terminator. A block
//! is reachable if a path of such edges leads to it from the entry. Block `a`
//! dominates a reachable block `b` if every path from the entry to `b` passes
//! through `a`. A block that no path reaches is dominated by itself and by
//! no other block.

use vstd::prelude::*;
use crate::entity::Block;
use crate::ir::{FunctionBody, FunctionBodyView};

verus! {

/// A control-flow graph: the entry and, for each block, the destinations
/// that its terminator lists. A destination that is no block of the graph
/// gives no edge.
pub struct Cfg {
    pub entry: Block,
    pub succs: Seq<Seq<Block>>,
}

/// The control-flow graph of a function body.
pub open spec fn cfg_of(f: FunctionBodyView) -> Cfg {
    Cfg {
        entry: f.entry,
        succs: Seq::new(f.blocks.len(), |i: int| f.blocks[i].terminator.successors()),
    }
}

impl Cfg {
    /// Whether `b` is a block of this graph.
    pub open spec fn has(self, b: Block) -> bool {
        b.0 < self.succs.len()
    }

    /// Whether control can go from `x` straight to `y`.
    pub open spec fn edge(self, x: Block, y: Block) -> bool {
        self.has(x) && self.has(y) && self.succs[x.0 as int].contains(y)
    }

    /// Whether control can go from `p[i]` straight to `p[i + 1]`.
    pub open spec fn step(self, p: Seq<Block>, i: int) -> bool {
        self.edge(p[i], p[i + 1])
    }

    /// Whether `p` is a path from the entry: it starts there and goes on
    /// along edges.
    pub open spec fn is_path(self, p: Seq<Block>) -> bool {
        &&& p.len() > 0
        &&& p[0] == self.entry
        &&& self.has(self.entry)
        &&& forall|i: int| 0 <= i < p.len() - 1 ==> #[trigger] self.step(p, i)
    }

    /// Whether `p` is a path from the entry to `b`.
    pub open spec fn path_to(self, p: Seq<Block>, b: Block) -> bool {
        self.is_path(p) && p.last() == b
    }

    /// Whether some path leads from the entry to `b`.
    pub open spec fn reachable(self, b: Block) -> bool {
        exists|p: Seq<Block>| self.path_to(p, b)
    }

    /// Whether every path from the entry to `b` passes through `a`.
    pub open spec fn on_every_path(self, a: Block, b: Block) -> bool {
        forall|p: Seq<Block>| #[trigger] self.path_to(p, b) ==> p.contains(a)
    }

    /// Whether `a` dominates `b`: for a reachable `b`, every path from the
    /// entry to `b` passes through `a`; an unreachable `b` is dominated by
    /// itself alone.
    pub open spec fn dominates(self, a: Block, b: Block) -> bool {
        if self.reachable(b) {
            self.on_every_path(a, b)
        } else {
            a == b
        }
    }

    /// Every block on a path is a block of the graph.
    pub proof fn lemma_path_in_graph(self, p: Seq<Block>, i: int)
        requires
            self.is_path(p),
            0 <= i < p.len(),
        ensures
            self.has(p[i]),
    {
        if i > 0 {
            assert(self.step(p, i - 1));
        }
    }

    /// A path that is cut off after any of its blocks is a path to that
    /// block.
    pub proof fn lemma_path_prefix(self, p: Seq<Block>, i: int)
        requires
            self.is_path(p),
            0 <= i < p.len(),
        ensures
            self.path_to(p.subrange(0, i + 1), p[i]),
    {
        let q = p.subrange(0, i + 1);
        assert forall|j: int| 0 <= j < q.len() - 1 implies #[trigger] self.step(q, j) by {
            assert(self.step(p, j));
        }
    }

    /// A path to `x` with a successor of `x` added is a path to that
    /// successor.
    pub proof fn lemma_path_extend(self, p: Seq<Block>, y: Block)
        requires
            self.is_path(p),
            self.edge(p.last(), y),
        ensures
            self.path_to(p.push(y), y),
    {
        let q = p.push(y);
        assert forall|j: int| 0 <= j < q.len() - 1 implies #[trigger] self.step(q, j) by {
            if j < p.len() - 1 {
                assert(self.step(p, j));
            }
        }
    }

    /// The entry is reachable, and only the entry is on every path to it.
    pub proof fn lemma_entry(self)
        requires
            self.has(self.entry),
        ensures
            self.reachable(self.entry),
            forall|a: Block| self.on_every_path(a, self.entry) ==> a == self.entry,
    {
        let p = seq![self.entry];
        assert(self.path_to(p, self.entry));
        assert forall|a: Block| self.on_every_path(a, self.entry) implies a == self.entry by {
            assert(self.path_to(p, self.entry));
            assert(p.contains(a));
        }
    }

    /// A reachable block and everything that is on every path to it are
    /// blocks of the graph.
    pub proof fn lemma_reachable_in_graph(self, a: Block, b: Block)
        requires
            self.reachable(b),
        ensures
            self.has(b),
            self.on_every_path(a, b) ==> self.has(a),
    {
        let p = choose|p: Seq<Block>| self.path_to(p, b);
        self.lemma_path_in_graph(p, p.len() - 1);
        if self.on_every_path(a, b) {
            assert(p.contains(a));
            let i = choose|i: int| 0 <= i < p.len() && p[i] == a;
            self.lemma_path_in_graph(p, i);
        }
    }

    /// What is on every path to a block, and is not that block, is on every
    /// path to each of its predecessors.
    pub proof fn lemma_on_every_path_to_predecessor(self, a: Block, x: Block, y: Block)
        requires
            self.edge(x, y),
            self.on_every_path(a, y),
            a != y,
        ensures
            self.on_every_path(a, x),
    {
        assert forall|q: Seq<Block>| #[trigger] self.path_to(q, x) implies q.contains(a) by {
            self.lemma_path_extend(q, y);
            let p = q.push(y);
            assert(self.path_to(p, y));
            assert(p.contains(a));
            let i = choose|i: int| 0 <= i < p.len() && p[i] == a;
            assert(q[i] == a);
        }
    }

    /// Every block dominates itself.
    pub proof fn lemma_dominates_reflexive(self, a: Block)
        ensures
            self.dominates(a, a),
    {
        assert forall|p: Seq<Block>| #[trigger] self.path_to(p, a) implies p.contains(a) by {
            assert(p[p.len() - 1] == a);
        }
    }

    /// Dominance is transitive: a dominator of a dominator of `c` dominates
    /// `c`.
    pub proof fn lemma_dominates_transitive(self, a: Block, b: Block, c: Block)
        requires
            self.dominates(a, b),
            self.dominates(b, c),
        ensures
            self.dominates(a, c),
    {
        if self.reachable(c) {
            assert forall|p: Seq<Block>| #[trigger] self.path_to(p, c) implies p.contains(a) by {
                assert(p.contains(b));
                let i = choose|i: int| 0 <= i < p.len() && p[i] == b;
                self.lemma_path_prefix(p, i);
                let q = p.subrange(0, i + 1);
                assert(self.path_to(q, b));
                assert(q.contains(a));
                let j = choose|j: int| 0 <= j < q.len() && q[j] == a;
                assert(p[j] == a);
            }
        }
    }

    /// The entry dominates every reachable block.
    pub proof fn lemma_entry_dominates(self, b: Block)
        requires
            self.reachable(b),
        ensures
            self.dominates(self.entry, b),
    {
        assert forall|p: Seq<Block>| #[trigger] self.path_to(p, b) implies p.contains(self.entry) by {
            assert(p[0] == self.entry);
        }
    }
}


/// The number of `true` items of `s`.
spec fn count_true(s: Seq<bool>) -> nat
    decreases s.len(),
{
    if s.len() == 0 {
        0
    } else {
        count_true(s.drop_last()) + if s.last() {
            1nat
        } else {
            0nat
        }
    }
}

/// The number of `true` items of all rows of `rows`.
spec fn total_true(rows: Seq<Seq<bool>>) -> nat
    decreases rows.len(),
{
    if rows.len() == 0 {
        0
    } else {
        total_true(rows.drop_last()) + count_true(rows.last())
    }
}

/// No more items are `true` than there are items.
proof fn lemma_count_bound(s: Seq<bool>)
    ensures
        count_true(s) <= s.len(),
    decreases s.len(),
{
    if s.len() > 0 {
        lemma_count_bound(s.drop_last());
    }
}

/// Changing one item changes the count by one.
proof fn lemma_count_flip(s: Seq<bool>, i: int)
    requires
        0 <= i < s.len(),
    ensures
        s[i] ==> count_true(s.update(i, false)) + 1 == count_true(s),
        !s[i] ==> count_true(s.update(i, true)) == count_true(s) + 1,
    decreases s.len(),
{
    let t = s.update(i, !s[i]);
    if i == s.len() - 1 {
        assert(t.drop_last() =~= s.drop_last());
    } else {
        assert(t.drop_last() =~= s.drop_last().update(i, !s[i]));
        lemma_count_flip(s.drop_last(), i);
    }
}

/// A row that loses one `true` item takes one from the total.
proof fn lemma_total_flip(rows: Seq<Seq<bool>>, y: int, row: Seq<bool>)
    requires
        0 <= y < rows.len(),
        count_true(row) + 1 == count_true(rows[y]),
    ensures
        total_true(rows.update(y, row)) + 1 == total_true(rows),
    decreases rows.len(),
{
    let t = rows.update(y, row);
    if y == rows.len() - 1 {
        assert(t.drop_last() =~= rows.drop_last());
    } else {
        assert(t.drop_last() =~= rows.drop_last().update(y, row));
        lemma_total_flip(rows.drop_last(), y, row);
    }
}

/// The successor lists as sequences.
spec fn lists_view(lists: Seq<Vec<Block>>) -> Seq<Seq<Block>> {
    lists.map_values(|l: Vec<Block>| l@)
}

/// The rows of a table as sequences.
spec fn rows_view(rows: Seq<Vec<bool>>) -> Seq<Seq<bool>> {
    rows.map_values(|r: Vec<bool>| r@)
}

/// Whether the marks are closed under the edges: each successor of a marked
/// block is marked.
spec fn marks_closed(g: Cfg, marks: Seq<bool>) -> bool {
    forall|x: int, k: int|
        0 <= x < g.succs.len() && marks[x] && 0 <= k < g.succs[x].len() && (
        #[trigger] g.succs[x][k]).0 < g.succs.len() ==> marks[g.succs[x][k].0 as int]
}

/// A set of marks that holds the entry and is closed under the edges holds
/// the end of every path.
proof fn lemma_closed_marks_hold_paths(g: Cfg, marks: Seq<bool>, p: Seq<Block>)
    requires
        g.is_path(p),
        marks.len() == g.succs.len(),
        marks[g.entry.0 as int],
        marks_closed(g, marks),
    ensures
        marks[p.last().0 as int],
    decreases p.len(),
{
    if p.len() > 1 {
        let last = p.len() - 1;
        let q = p.subrange(0, last);
        g.lemma_path_prefix(p, last - 1);
        lemma_closed_marks_hold_paths(g, marks, q);
        assert(g.step(p, last - 1));
        let x = p[last - 1];
        let y = p[last];
        let k = choose|k: int| 0 <= k < g.succs[x.0 as int].len() && g.succs[x.0 as int][k] == y;
        assert(g.succs[x.0 as int][k].0 < g.succs.len());
    }
}

/// Whether the set of `y` has settled against that of `x`: it holds nothing
/// but `y` itself that the set of `x` lacks.
spec fn edge_settled(rows: Seq<Seq<bool>>, x: int, y: int) -> bool {
    forall|a: int| 0 <= a < rows.len() && #[trigger] rows[y][a] ==> rows[x][a] || a == y
}

/// Whether the sets have settled along every edge that leaves a marked block
/// and does not enter the entry.
spec fn sets_settled(g: Cfg, marks: Seq<bool>, rows: Seq<Seq<bool>>) -> bool {
    forall|x: int, k: int|
        0 <= x < g.succs.len() && marks[x] && 0 <= k < g.succs[x].len() && (
        #[trigger] g.succs[x][k]).0 < g.succs.len() && g.succs[x][k] != g.entry ==> edge_settled(
            rows,
            x,
            g.succs[x][k].0 as int,
        )
}

/// Whether the set of the entry holds the entry and nothing else.
spec fn entry_set_single(g: Cfg, rows: Seq<Seq<bool>>) -> bool {
    forall|a: int| 0 <= a < rows.len() ==> (#[trigger] rows[g.entry.0 as int][a]) == (a == g.entry.0)
}

/// Once the sets have settled, whatever the set of a block holds is on every
/// path to that block.
proof fn lemma_settled_sets_hold_paths(
    g: Cfg,
    marks: Seq<bool>,
    rows: Seq<Seq<bool>>,
    p: Seq<Block>,
    a: int,
)
    requires
        g.is_path(p),
        marks.len() == g.succs.len(),
        rows.len() == g.succs.len(),
        forall|i: int| 0 <= i < marks.len() && g.reachable(Block(i as usize)) ==> marks[i],
        entry_set_single(g, rows),
        sets_settled(g, marks, rows),
        0 <= a < rows.len(),
        rows[p.last().0 as int][a],
    ensures
        p.contains(Block(a as usize)),
    decreases p.len(),
{
    let last = p.len() - 1;
    let y = p[last];
    if y == g.entry {
        assert(p[0] == Block(a as usize));
    } else {
        assert(p.len() > 1);
        let q = p.subrange(0, last);
        let x = p[last - 1];
        g.lemma_path_prefix(p, last - 1);
        assert(g.path_to(q, x));
        assert(g.step(p, last - 1));
        let k = choose|k: int| 0 <= k < g.succs[x.0 as int].len() && g.succs[x.0 as int][k] == y;
        assert(g.reachable(Block(x.0 as int as usize)));
        assert(g.succs[x.0 as int][k].0 < g.succs.len());
        assert(edge_settled(rows, x.0 as int, y.0 as int));
        if a == y.0 {
            assert(p[last] == Block(a as usize));
        } else {
            assert(rows[x.0 as int][a]);
            lemma_settled_sets_hold_paths(g, marks, rows, q, a);
            let j = choose|j: int| 0 <= j < q.len() && q[j] == Block(a as usize);
            assert(p[j] == Block(a as usize));
        }
    }
}

/// The successor lists of the blocks of `f`, as their terminators give them.
fn successor_lists(f: &FunctionBody) -> (succs: Vec<Vec<Block>>)
    ensures
        lists_view(succs@) == cfg_of(f@).succs,
{
    let n = f.blocks.len();
    let mut succs: Vec<Vec<Block>> = Vec::new();
    let mut i: usize = 0;
    while i < n
        invariant
            i <= n,
            n == f.blocks@.len(),
            succs@.len() == i,
            forall|j: int| 0 <= j < i ==> (#[trigger] succs@[j])@ == f@.blocks[j].terminator.successors(),
        decreases n - i,
    {
        succs.push(f.blocks.at(Block(i)).terminator.successors());
        i += 1;
    }
    assert(lists_view(succs@) =~= cfg_of(f@).succs);
    succs
}

/// Marks the blocks that some path from the entry reaches: the entry is
/// marked, then the successors of marked blocks, until nothing changes.
fn reachable_from(entry: Block, succs: &Vec<Vec<Block>>) -> (reach: Vec<bool>)
    ensures
        reach@.len() == succs@.len(),
        forall|i: int|
            0 <= i < reach@.len() ==> (#[trigger] reach@[i]) == (Cfg {
                entry,
                succs: lists_view(succs@),
            }).reachable(Block(i as usize)),
{
    let n = succs.len();
    let ghost g = Cfg { entry, succs: lists_view(succs@) };
    let mut reach: Vec<bool> = Vec::new();
    let mut i: usize = 0;
    while i < n
        invariant
            i <= n,
            reach@.len() == i,
            forall|j: int| 0 <= j < i ==> !(#[trigger] reach@[j]),
        decreases n - i,
    {
        reach.push(false);
        i += 1;
    }
    if entry.0 < n {
        reach[entry.0] = true;
        proof {
            g.lemma_entry();
        }
    }
    loop
        invariant
            n == succs@.len(),
            reach@.len() == n,
            g == (Cfg { entry, succs: lists_view(succs@) }),
            forall|i: int| 0 <= i < n && #[trigger] reach@[i] ==> g.reachable(Block(i as usize)),
            entry.0 < n ==> reach@[entry.0 as int],
        ensures
            reach@.len() == n,
            forall|i: int| 0 <= i < n && #[trigger] reach@[i] ==> g.reachable(Block(i as usize)),
            entry.0 < n ==> reach@[entry.0 as int],
            marks_closed(g, reach@),
        decreases n - count_true(reach@),
    {
        let ghost start = reach@;
        let mut changed = false;
        let mut x: usize = 0;
        while x < n
            invariant
                x <= n,
                n == succs@.len(),
                reach@.len() == n,
                start.len() == n,
                g == (Cfg { entry, succs: lists_view(succs@) }),
                forall|i: int| 0 <= i < n && #[trigger] reach@[i] ==> g.reachable(Block(i as usize)),
                entry.0 < n ==> reach@[entry.0 as int],
                count_true(reach@) >= count_true(start),
                changed ==> count_true(reach@) > count_true(start),
                !changed ==> forall|x1: int, k: int|
                    0 <= x1 < x && reach@[x1] && 0 <= k < g.succs[x1].len() && (
                    #[trigger] g.succs[x1][k]).0 < n ==> reach@[g.succs[x1][k].0 as int],
            decreases n - x,
        {
            if reach[x] {
                let m = succs[x].len();
                let mut k: usize = 0;
                assert(g.succs[x as int] == succs@[x as int]@);
                while k < m
                    invariant
                        k <= m,
                        x < n,
                        n == succs@.len(),
                        m == succs@[x as int]@.len(),
                        g.succs[x as int] == succs@[x as int]@,
                        reach@.len() == n,
                        start.len() == n,
                        reach@[x as int],
                        g == (Cfg { entry, succs: lists_view(succs@) }),
                        forall|i: int|
                            0 <= i < n && #[trigger] reach@[i] ==> g.reachable(Block(i as usize)),
                        entry.0 < n ==> reach@[entry.0 as int],
                        count_true(reach@) >= count_true(start),
                        changed ==> count_true(reach@) > count_true(start),
                        !changed ==> forall|x1: int, k1: int|
                            0 <= x1 < x && reach@[x1] && 0 <= k1 < g.succs[x1].len() && (
                            #[trigger] g.succs[x1][k1]).0 < n ==> reach@[g.succs[x1][k1].0 as int],
                        !changed ==> forall|k1: int|
                            0 <= k1 < k && (#[trigger] g.succs[x as int][k1]).0 < n
                                ==> reach@[g.succs[x as int][k1].0 as int],
                    decreases m - k,
                {
                    let y = succs[x][k];
                    if y.0 < n && !reach[y.0] {
                        proof {
                            let bx = Block(x);
                            let p = choose|p: Seq<Block>| g.path_to(p, bx);
                            assert(g.succs[x as int][k as int] == y);
                            assert(g.edge(bx, y));
                            g.lemma_path_extend(p, y);
                            assert(g.reachable(y));
                            lemma_count_flip(reach@, y.0 as int);
                        }
                        reach[y.0] = true;
                        changed = true;
                    }
                    k += 1;
                }
            }
            x += 1;
        }
        proof {
            lemma_count_bound(reach@);
        }
        if !changed {
            break ;
        }
    }
    proof {
        assert forall|i: int| 0 <= i < n && g.reachable(Block(i as usize)) implies reach@[i] by {
            let b = Block(i as usize);
            let p = choose|p: Seq<Block>| g.path_to(p, b);
            lemma_closed_marks_hold_paths(g, reach@, p);
        }
    }
    reach
}

/// Computes, for each reachable block, the set of the blocks that are on
/// every path to it. The set of the entry starts as the entry alone and
/// every other set as all blocks; then, along each edge from a reachable
/// block `x` to a block `y` other than the entry, whatever the set of `y`
/// holds besides `y` and the set of `x` lacks is removed, until nothing
/// changes.
fn dominator_sets(entry: Block, succs: &Vec<Vec<Block>>, reach: &Vec<bool>) -> (dom: Vec<Vec<bool>>)
    requires
        reach@.len() == succs@.len(),
        forall|i: int|
            0 <= i < reach@.len() ==> (#[trigger] reach@[i]) == (Cfg {
                entry,
                succs: lists_view(succs@),
            }).reachable(Block(i as usize)),
    ensures
        dom@.len() == succs@.len(),
        forall|b: int| 0 <= b < dom@.len() ==> (#[trigger] dom@[b])@.len() == succs@.len(),
        forall|b: int, a: int|
            0 <= b < dom@.len() && 0 <= a < dom@.len() && reach@[b] ==> (#[trigger] dom@[b]@[a]) == (Cfg {
                entry,
                succs: lists_view(succs@),
            }).on_every_path(Block(a as usize), Block(b as usize)),
{
    let n = succs.len();
    let ghost g = Cfg { entry, succs: lists_view(succs@) };
    let mut dom: Vec<Vec<bool>> = Vec::new();
    let mut b: usize = 0;
    while b < n
        invariant
            b <= n,
            dom@.len() == b,
            forall|b1: int| 0 <= b1 < b ==> (#[trigger] dom@[b1])@.len() == n,
            forall|b1: int, a1: int|
                0 <= b1 < b && 0 <= a1 < n ==> (#[trigger] dom@[b1]@[a1]) == (b1 != entry.0 || a1
                    == b1),
        decreases n - b,
    {
        let mut row: Vec<bool> = Vec::new();
        let mut a: usize = 0;
        while a < n
            invariant
                a <= n,
                b < n,
                row@.len() == a,
                forall|a1: int| 0 <= a1 < a ==> (#[trigger] row@[a1]) == (b != entry.0 || a1 == b),
            decreases n - a,
        {
            row.push(b != entry.0 || a == b);
            a += 1;
        }
        dom.push(row);
        b += 1;
    }
    proof {
        if entry.0 < n {
            g.lemma_entry();
            assert forall|a1: int| 0 <= a1 < n implies (#[trigger] rows_view(dom@)[entry.0 as int][a1])
                == (a1 == entry.0) by {
                assert(dom@[entry.0 as int]@[a1] == (a1 == entry.0));
            }
        }
    }
    loop
        invariant
            n == succs@.len(),
            reach@.len() == n,
            dom@.len() == n,
            g == (Cfg { entry, succs: lists_view(succs@) }),
            forall|i: int| 0 <= i < n ==> (#[trigger] reach@[i]) == g.reachable(Block(i as usize)),
            forall|b1: int| 0 <= b1 < n ==> (#[trigger] dom@[b1])@.len() == n,
            forall|b1: int, a1: int|
                0 <= b1 < n && 0 <= a1 < n && g.reachable(Block(b1 as usize)) && g.on_every_path(
                    Block(a1 as usize),
                    Block(b1 as usize),
                ) ==> #[trigger] dom@[b1]@[a1],
            entry.0 < n ==> entry_set_single(g, rows_view(dom@)),
        ensures
            dom@.len() == n,
            forall|b1: int| 0 <= b1 < n ==> (#[trigger] dom@[b1])@.len() == n,
            forall|b1: int, a1: int|
                0 <= b1 < n && 0 <= a1 < n && g.reachable(Block(b1 as usize)) && g.on_every_path(
                    Block(a1 as usize),
                    Block(b1 as usize),
                ) ==> #[trigger] dom@[b1]@[a1],
            entry.0 < n ==> entry_set_single(g, rows_view(dom@)),
            sets_settled(g, reach@, rows_view(dom@)),
        decreases total_true(rows_view(dom@)),
    {
        let ghost start = rows_view(dom@);
        let mut changed = false;
        let mut x: usize = 0;
        while x < n
            invariant
                x <= n,
                n == succs@.len(),
                reach@.len() == n,
                dom@.len() == n,
                g == (Cfg { entry, succs: lists_view(succs@) }),
                forall|i: int| 0 <= i < n ==> (#[trigger] reach@[i]) == g.reachable(Block(i as usize)),
                forall|b1: int| 0 <= b1 < n ==> (#[trigger] dom@[b1])@.len() == n,
                forall|b1: int, a1: int|
                    0 <= b1 < n && 0 <= a1 < n && g.reachable(Block(b1 as usize))
                        && g.on_every_path(Block(a1 as usize), Block(b1 as usize))
                        ==> #[trigger] dom@[b1]@[a1],
                entry.0 < n ==> entry_set_single(g, rows_view(dom@)),
                total_true(rows_view(dom@)) <= total_true(start),
                changed ==> total_true(rows_view(dom@)) < total_true(start),
                !changed ==> forall|x1: int, k1: int|
                    0 <= x1 < x && reach@[x1] && 0 <= k1 < g.succs[x1].len() && (
                    #[trigger] g.succs[x1][k1]).0 < n && g.succs[x1][k1] != entry ==> edge_settled(
                        rows_view(dom@),
                        x1,
                        g.succs[x1][k1].0 as int,
                    ),
            decreases n - x,
        {
            if reach[x] {
                let m = succs[x].len();
                let mut k: usize = 0;
                assert(g.succs[x as int] == succs@[x as int]@);
                while k < m
                    invariant
                        k <= m,
                        x < n,
                        n == succs@.len(),
                        m == succs@[x as int]@.len(),
                        g.succs[x as int] == succs@[x as int]@,
                        reach@.len() == n,
                        reach@[x as int],
                        dom@.len() == n,
                        g == (Cfg { entry, succs: lists_view(succs@) }),
                        forall|i: int|
                            0 <= i < n ==> (#[trigger] reach@[i]) == g.reachable(Block(i as usize)),
                        forall|b1: int| 0 <= b1 < n ==> (#[trigger] dom@[b1])@.len() == n,
                        forall|b1: int, a1: int|
                            0 <= b1 < n && 0 <= a1 < n && g.reachable(Block(b1 as usize))
                                && g.on_every_path(Block(a1 as usize), Block(b1 as usize))
                                ==> #[trigger] dom@[b1]@[a1],
                        entry.0 < n ==> entry_set_single(g, rows_view(dom@)),
                        total_true(rows_view(dom@)) <= total_true(start),
                        changed ==> total_true(rows_view(dom@)) < total_true(start),
                        !changed ==> forall|x1: int, k1: int|
                            0 <= x1 < x && reach@[x1] && 0 <= k1 < g.succs[x1].len() && (
                            #[trigger] g.succs[x1][k1]).0 < n && g.succs[x1][k1] != entry
                                ==> edge_settled(rows_view(dom@), x1, g.succs[x1][k1].0 as int),
                        !changed ==> forall|k1: int|
                            0 <= k1 < k && (#[trigger] g.succs[x as int][k1]).0 < n
                                && g.succs[x as int][k1] != entry ==> edge_settled(
                                rows_view(dom@),
                                x as int,
                                g.succs[x as int][k1].0 as int,
                            ),
                    decreases m - k,
                {
                    let y = succs[x][k];
                    if y.0 < n && y != entry {
                        let mut a: usize = 0;
                        while a < n
                            invariant
                                a <= n,
                                k < m,
                                x < n,
                                y.0 < n,
                                y != entry,
                                y == succs@[x as int]@[k as int],
                                n == succs@.len(),
                                m == succs@[x as int]@.len(),
                                g.succs[x as int] == succs@[x as int]@,
                                reach@.len() == n,
                                reach@[x as int],
                                dom@.len() == n,
                                g == (Cfg { entry, succs: lists_view(succs@) }),
                                forall|i: int|
                                    0 <= i < n ==> (#[trigger] reach@[i]) == g.reachable(
                                        Block(i as usize),
                                    ),
                                forall|b1: int| 0 <= b1 < n ==> (#[trigger] dom@[b1])@.len() == n,
                                forall|b1: int, a1: int|
                                    0 <= b1 < n && 0 <= a1 < n && g.reachable(Block(b1 as usize))
                                        && g.on_every_path(Block(a1 as usize), Block(b1 as usize))
                                        ==> #[trigger] dom@[b1]@[a1],
                                entry.0 < n ==> entry_set_single(g, rows_view(dom@)),
                                total_true(rows_view(dom@)) <= total_true(start),
                                changed ==> total_true(rows_view(dom@)) < total_true(start),
                                !changed ==> forall|x1: int, k1: int|
                                    0 <= x1 < x && reach@[x1] && 0 <= k1 < g.succs[x1].len() && (
                                    #[trigger] g.succs[x1][k1]).0 < n && g.succs[x1][k1] != entry
                                        ==> edge_settled(
                                        rows_view(dom@),
                                        x1,
                                        g.succs[x1][k1].0 as int,
                                    ),
                                !changed ==> forall|k1: int|
                                    0 <= k1 < k && (#[trigger] g.succs[x as int][k1]).0 < n
                                        && g.succs[x as int][k1] != entry ==> edge_settled(
                                        rows_view(dom@),
                                        x as int,
                                        g.succs[x as int][k1].0 as int,
                                    ),
                                !changed ==> forall|a1: int|
                                    0 <= a1 < a && #[trigger] dom@[y.0 as int]@[a1] ==> dom@[x as int]@[a1]
                                        || a1 == y.0,
                            decreases n - a,
                        {
                            if dom[y.0][a] && !dom[x][a] && a != y.0 {
                                proof {
                                    let bx = Block(x);
                                    let ba = Block(a);
                                    assert(g.succs[x as int][k as int] == y);
                                    assert(g.edge(bx, y));
                                    if g.on_every_path(ba, y) {
                                        g.lemma_on_every_path_to_predecessor(ba, bx, y);
                                        assert(dom@[x as int]@[a as int]);
                                    }
                                    lemma_count_flip(dom@[y.0 as int]@, a as int);
                                    lemma_total_flip(
                                        rows_view(dom@),
                                        y.0 as int,
                                        dom@[y.0 as int]@.update(a as int, false),
                                    );
                                }
                                let ghost before = dom@;
                                dom[y.0][a] = false;
                                changed = true;
                                proof {
                                    assert(rows_view(dom@) =~= rows_view(before).update(
                                        y.0 as int,
                                        before[y.0 as int]@.update(a as int, false),
                                    ));
                                    if entry.0 < n {
                                        assert forall|a1: int| 0 <= a1 < n implies (
                                        #[trigger] rows_view(dom@)[entry.0 as int][a1]) == (a1
                                            == entry.0) by {
                                            assert(rows_view(before)[entry.0 as int][a1] == (a1
                                                == entry.0));
                                        }
                                    }
                                }
                            }
                            a += 1;
                        }
                        proof {
                            if !changed {
                                assert(edge_settled(rows_view(dom@), x as int, y.0 as int));
                            }
                        }
                    }
                    k += 1;
                }
            }
            x += 1;
        }
        if !changed {
            break ;
        }
    }
    proof {
        let rows = rows_view(dom@);
        assert forall|b1: int, a1: int|
            0 <= b1 < n && 0 <= a1 < n && reach@[b1] implies (#[trigger] dom@[b1]@[a1])
                == g.on_every_path(Block(a1 as usize), Block(b1 as usize)) by {
            let ba = Block(a1 as usize);
            let bb = Block(b1 as usize);
            if dom@[b1]@[a1] {
                assert forall|p: Seq<Block>| #[trigger] g.path_to(p, bb) implies p.contains(ba) by {
                    assert(rows[p.last().0 as int][a1]);
                    lemma_settled_sets_hold_paths(g, reach@, rows, p, a1);
                }
            }
        }
    }
    dom
}

/// Whether the handles of `s` go strictly up.
pub open spec fn strictly_increasing(s: Seq<Block>) -> bool {
    forall|i: int, j: int| 0 <= i < j < s.len() ==> (#[trigger] s[i]).0 < (#[trigger] s[j]).0
}

/// Whether `list` holds the predecessors of `y` among the blocks below
/// `bound`, each once and in the order of their handles, and nothing else.
spec fn holds_predecessors(g: Cfg, list: Seq<Block>, y: Block, bound: int) -> bool {
    &&& strictly_increasing(list)
    &&& forall|x: Block| #[trigger] list.contains(x) <==> x.0 < bound && g.edge(x, y)
}

/// The predecessor lists: for each block, the blocks that have it among
/// their successors.
fn predecessor_lists(entry: Block, succs: &Vec<Vec<Block>>) -> (preds: Vec<Vec<Block>>)
    ensures
        preds@.len() == succs@.len(),
        forall|y: int|
            0 <= y < preds@.len() ==> holds_predecessors(
                Cfg { entry, succs: lists_view(succs@) },
                (#[trigger] preds@[y])@,
                Block(y as usize),
                succs@.len() as int,
            ),
{
    let n = succs.len();
    let ghost g = Cfg { entry, succs: lists_view(succs@) };
    let mut preds: Vec<Vec<Block>> = Vec::new();
    let mut y: usize = 0;
    while y < n
        invariant
            y <= n,
            preds@.len() == y,
            forall|y1: int| 0 <= y1 < y ==> (#[trigger] preds@[y1])@.len() == 0,
        decreases n - y,
    {
        preds.push(Vec::new());
        y += 1;
    }
    let mut x: usize = 0;
    while x < n
        invariant
            x <= n,
            n == succs@.len(),
            preds@.len() == n,
            g == (Cfg { entry, succs: lists_view(succs@) }),
            forall|y1: int|
                0 <= y1 < n ==> holds_predecessors(
                    g,
                    (#[trigger] preds@[y1])@,
                    Block(y1 as usize),
                    x as int,
                ),
        decreases n - x,
    {
        let m = succs[x].len();
        let mut k: usize = 0;
        assert(g.succs[x as int] == succs@[x as int]@);
        while k < m
            invariant
                k <= m,
                x < n,
                n == succs@.len(),
                m == succs@[x as int]@.len(),
                g.succs[x as int] == succs@[x as int]@,
                preds@.len() == n,
                g == (Cfg { entry, succs: lists_view(succs@) }),
                forall|y1: int|
                    0 <= y1 < n ==> strictly_increasing((#[trigger] preds@[y1])@),
                forall|y1: int, x1: Block|
                    0 <= y1 < n ==> (#[trigger] preds@[y1]@.contains(x1) <==> (x1.0 < x && g.edge(
                        x1,
                        Block(y1 as usize),
                    )) || (x1.0 == x && exists|k1: int|
                        0 <= k1 < k && #[trigger] succs@[x as int]@[k1] == Block(y1 as usize))),
            decreases m - k,
        {
            let y = succs[x][k];
            if y.0 < n {
                let count = preds[y.0].len();
                let seen = count > 0 && preds[y.0][count - 1].0 == x;
                if !seen {
                    let ghost before = preds@;
                    proof {
                        let list = preds@[y.0 as int]@;
                        assert forall|i: int| 0 <= i < list.len() implies (#[trigger] list[i]).0
                            < x by {
                            assert(list.contains(list[i]));
                            if list[i].0 == x {
                                assert(list[i] == Block(x));
                                if i < count - 1 {
                                    assert(list[i].0 < list[count - 1].0);
                                    assert(list.contains(list[count - 1]));
                                }
                            }
                        }
                    }
                    preds[y.0].push(Block(x));
                    proof {
                        let list = before[y.0 as int]@;
                        let list2 = preds@[y.0 as int]@;
                        assert(list2 == list.push(Block(x)));
                        assert forall|y1: int, x1: Block| 0 <= y1 < n implies (
                        #[trigger] preds@[y1]@.contains(x1) <==> (x1.0 < x && g.edge(
                            x1,
                            Block(y1 as usize),
                        )) || (x1.0 == x && exists|k1: int|
                            0 <= k1 < k + 1 && #[trigger] succs@[x as int]@[k1] == Block(
                                y1 as usize,
                            ))) by {
                            if y1 == y.0 {
                                assert(Block(y1 as usize) == y);
                                if list2.contains(x1) {
                                    let i = choose|i: int| 0 <= i < list2.len() && list2[i] == x1;
                                    if i < list.len() {
                                        assert(list[i] == x1);
                                        assert(list.contains(x1));
                                    } else {
                                        assert(succs@[x as int]@[k as int] == y);
                                    }
                                }
                                if x1.0 < x && g.edge(x1, y) {
                                    assert(list.contains(x1));
                                    let i = choose|i: int| 0 <= i < list.len() && list[i] == x1;
                                    assert(list2[i] == x1);
                                }
                                if x1.0 == x {
                                    assert(x1 == Block(x));
                                    assert(list2[list.len() as int] == x1);
                                }
                            } else {
                                assert(preds@[y1] == before[y1]);
                                assert(succs@[x as int]@[k as int] != Block(y1 as usize));
                            }
                        }
                    }
                } else {
                    proof {
                        let list = preds@[y.0 as int]@;
                        assert(list[count - 1] == Block(x));
                        assert(list.contains(Block(x)));
                        assert forall|y1: int, x1: Block| 0 <= y1 < n implies (
                        #[trigger] preds@[y1]@.contains(x1) <==> (x1.0 < x && g.edge(
                            x1,
                            Block(y1 as usize),
                        )) || (x1.0 == x && exists|k1: int|
                            0 <= k1 < k + 1 && #[trigger] succs@[x as int]@[k1] == Block(
                                y1 as usize,
                            ))) by {
                            if y1 != y.0 {
                                assert(succs@[x as int]@[k as int] != Block(y1 as usize));
                            } else {
                                assert(Block(y1 as usize) == y);
                            }
                        }
                    }
                }
            } else {
                proof {
                    assert forall|y1: int, x1: Block| 0 <= y1 < n implies (
                    #[trigger] preds@[y1]@.contains(x1) <==> (x1.0 < x && g.edge(
                        x1,
                        Block(y1 as usize),
                    )) || (x1.0 == x && exists|k1: int|
                        0 <= k1 < k + 1 && #[trigger] succs@[x as int]@[k1] == Block(y1 as usize)))
                        by {
                        assert(succs@[x as int]@[k as int] != Block(y1 as usize));
                    }
                }
            }
            k += 1;
        }
        proof {
            assert forall|y1: int| 0 <= y1 < n implies holds_predecessors(
                g,
                (#[trigger] preds@[y1])@,
                Block(y1 as usize),
                x + 1,
            ) by {
                let by1 = Block(y1 as usize);
                assert forall|x1: Block| #[trigger] preds@[y1]@.contains(x1) <==> x1.0 < x + 1
                    && g.edge(x1, by1) by {
                    if x1.0 == x {
                        assert(x1 == Block(x));
                        if g.edge(x1, by1) {
                            let k1 = choose|k1: int|
                                0 <= k1 < g.succs[x as int].len() && g.succs[x as int][k1] == by1;
                            assert(succs@[x as int]@[k1] == by1);
                        }
                    }
                }
            }
        }
        x += 1;
    }
    preds
}

/// The control-flow graph of a function body with its dominance relation,
/// computed once and then queried.
#[derive(Debug)]
pub struct CFGInfo {
    entry: Block,
    succs: Vec<Vec<Block>>,
    preds: Vec<Vec<Block>>,
    reach: Vec<bool>,
    dom: Vec<Vec<bool>>,
}

impl View for CFGInfo {
    type V = Cfg;

    /// The graph that this analysis is of.
    closed spec fn view(&self) -> Cfg {
        Cfg { entry: self.entry, succs: lists_view(self.succs@) }
    }
}

impl CFGInfo {
    #[verifier::type_invariant]
    spec fn tables_hold(&self) -> bool {
        &&& self.reach@.len() == self.succs@.len()
        &&& self.dom@.len() == self.succs@.len()
        &&& self.preds@.len() == self.succs@.len()
        &&& forall|y: int|
            0 <= y < self.preds@.len() ==> holds_predecessors(
                self@,
                (#[trigger] self.preds@[y])@,
                Block(y as usize),
                self.succs@.len() as int,
            )
        &&& forall|i: int|
            0 <= i < self.reach@.len() ==> (#[trigger] self.reach@[i]) == self@.reachable(
                Block(i as usize),
            )
        &&& forall|b: int| 0 <= b < self.dom@.len() ==> (#[trigger] self.dom@[b])@.len() == self.succs@.len()
        &&& forall|b: int, a: int|
            0 <= b < self.dom@.len() && 0 <= a < self.dom@.len() && self.reach@[b] ==> (
            #[trigger] self.dom@[b]@[a]) == self@.on_every_path(Block(a as usize), Block(b as usize))
    }

    /// Analyses the body `f` as it is now. Later changes to `f` are not
    /// seen: build the analysis anew after them.
    pub fn new(f: &FunctionBody) -> (c: CFGInfo)
        ensures
            c@ == cfg_of(f@),
    {
        let succs = successor_lists(f);
        let preds = predecessor_lists(f.entry, &succs);
        let reach = reachable_from(f.entry, &succs);
        let dom = dominator_sets(f.entry, &succs, &reach);
        CFGInfo { entry: f.entry, succs, preds, reach, dom }
    }

    /// The number of blocks of the graph.
    pub fn len(&self) -> (n: usize)
        ensures
            n == self@.succs.len(),
    {
        self.succs.len()
    }

    /// The destinations that the terminator of `b` lists, in its order;
    /// nothing if `b` is no block of the graph.
    pub fn succs(&self, b: Block) -> (r: Vec<Block>)
        ensures
            r@ == (if self@.has(b) {
                self@.succs[b.0 as int]
            } else {
                Seq::empty()
            }),
    {
        if b.0 < self.succs.len() {
            let r = self.succs[b.0].clone();
            assert(r@ =~= self@.succs[b.0 as int]);
            r
        } else {
            Vec::new()
        }
    }

    /// The blocks from which control can go straight to `b`, each once, in
    /// the order of their handles.
    pub fn preds(&self, b: Block) -> (r: Vec<Block>)
        ensures
            forall|x: Block| r@.contains(x) <==> self@.edge(x, b),
            strictly_increasing(r@),
    {
        proof {
            use_type_invariant(self);
        }
        if b.0 < self.preds.len() {
            let r = self.preds[b.0].clone();
            assert(r@ =~= self.preds@[b.0 as int]@);
            assert(Block(b.0 as int as usize) == b);
            assert forall|x: Block| r@.contains(x) <==> self@.edge(x, b) by {
                if self@.edge(x, b) {
                    assert(x.0 < self.succs@.len());
                }
            }
            r
        } else {
            let r: Vec<Block> = Vec::new();
            assert forall|x: Block| r@.contains(x) <==> self@.edge(x, b) by {}
            r
        }
    }

    /// Whether some path leads from the entry to `b`.
    pub fn is_reachable(&self, b: Block) -> (r: bool)
        ensures
            r == self@.reachable(b),
    {
        proof {
            use_type_invariant(self);
            if self@.reachable(b) {
                self@.lemma_reachable_in_graph(b, b);
            }
        }
        b.0 < self.reach.len() && self.reach[b.0]
    }

    /// Whether `a` dominates `b`.
    pub fn dominates(&self, a: Block, b: Block) -> (r: bool)
        ensures
            r == self@.dominates(a, b),
    {
        proof {
            use_type_invariant(self);
            if self@.reachable(b) {
                self@.lemma_reachable_in_graph(a, b);
            }
        }
        if b.0 < self.reach.len() && self.reach[b.0] {
            a.0 < self.dom.len() && self.dom[b.0][a.0]
        } else {
            a == b
        }
    }
}

} // verus!
