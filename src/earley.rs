//! Earley chart recognizer: decides whether a word is in a grammar's language.
use vstd::prelude::*;
use vstd::set_lib::{lemma_int_range, lemma_len_subset, set_int_range};

use crate::derivation::{
    derives_seq, forest_ok, forest_push, forest_yield, generates, lemma_forest_push, tree_ok,
    tree_yield, Forest, Tree,
};
use crate::grammar::{Grammar, Symbol};

verus! {

/// A recognizer item: production `prod` of nonterminal `nt`, with its first
/// `dot` symbols matched from input position `origin` on.
#[derive(Clone, Copy, Debug, PartialEq, Eq, Structural)]
pub struct Item {
    pub nt: usize,
    pub prod: usize,
    pub dot: usize,
    pub origin: usize,
}

impl Item {
    /// The same item with its dot moved one symbol to the right.
    pub open spec fn advanced(self) -> Item {
        Item { nt: self.nt, prod: self.prod, dot: (self.dot + 1) as usize, origin: self.origin }
    }
}

/// The right-hand side that `it` tracks.
pub open spec fn item_rhs(g: Grammar, it: Item) -> Seq<Symbol> {
    g.rhs(it.nt as int, it.prod as int)
}

/// `it` names an existing production and a dot inside it.
pub open spec fn valid_item(g: Grammar, it: Item) -> bool {
    &&& it.nt < g.num_nonterminals()
    &&& it.prod < g.num_productions(it.nt as int)
    &&& it.dot <= item_rhs(g, it).len()
}

/// The symbol right after the dot, if any.
pub open spec fn next_symbol(g: Grammar, it: Item) -> Option<Symbol> {
    if it.dot < item_rhs(g, it).len() {
        Some(item_rhs(g, it)[it.dot as int])
    } else {
        None
    }
}

/// One item set per input position, each kept in insertion order. The items
/// of a position that have not been processed yet form its agenda.
pub struct Chart {
    rows: Vec<Vec<Item>>,
}

impl View for Chart {
    type V = Seq<Seq<Item>>;

    closed spec fn view(&self) -> Seq<Seq<Item>> {
        self.rows@.map_values(|r: Vec<Item>| r@)
    }
}

impl Chart {
    /// A chart with `positions` empty item sets.
    pub fn new(positions: usize) -> (c: Chart)
        ensures
            c@.len() == positions,
            forall|j: int| 0 <= j < positions ==> #[trigger] c@[j] == Seq::<Item>::empty(),
    {
        let mut rows: Vec<Vec<Item>> = Vec::new();
        let mut j: usize = 0;
        while j < positions
            invariant
                j <= positions,
                rows@.len() == j,
                forall|m: int| 0 <= m < j ==> (#[trigger] rows@[m])@ == Seq::<Item>::empty(),
            decreases positions - j,
        {
            rows.push(Vec::new());
            j += 1;
        }
        let c = Chart { rows };
        assert forall|m: int| 0 <= m < positions implies #[trigger] c@[m] == Seq::<Item>::empty() by {
            assert(c@[m] == rows@[m]@);
        }
        c
    }

    pub fn num_positions(&self) -> (r: usize)
        ensures
            r == self@.len(),
    {
        self.rows.len()
    }

    pub fn row_len(&self, pos: usize) -> (r: usize)
        requires
            pos < self@.len(),
        ensures
            r == self@[pos as int].len(),
    {
        self.rows[pos].len()
    }

    pub fn get(&self, pos: usize, m: usize) -> (r: Item)
        requires
            pos < self@.len(),
            m < self@[pos as int].len(),
        ensures
            r == self@[pos as int][m as int],
    {
        self.rows[pos][m]
    }

    /// Whether the item set at `pos` holds `it`.
    pub fn has(&self, pos: usize, it: Item) -> (r: bool)
        requires
            pos < self@.len(),
        ensures
            r == self@[pos as int].contains(it),
    {
        let row = &self.rows[pos];
        assert(row@ == self@[pos as int]);
        let mut m: usize = 0;
        while m < row.len()
            invariant
                pos < self@.len(),
                row@ == self@[pos as int],
                m <= row@.len(),
                forall|x: int| 0 <= x < m ==> row@[x] != it,
            decreases row@.len() - m,
        {
            if row[m] == it {
                assert(row@[m as int] == it);
                return true;
            }
            m += 1;
        }
        false
    }

    /// Adds `it` to the item set at `pos`. Item sets only grow: the item is
    /// appended, and so enqueued for processing, exactly when it is new, and
    /// nothing already present moves or changes.
    pub fn insert(&mut self, pos: usize, it: Item) -> (added: bool)
        requires
            pos < old(self)@.len(),
        ensures
            added == !old(self)@[pos as int].contains(it),
            final(self)@ == old(self)@.update(
                pos as int,
                if added {
                    old(self)@[pos as int].push(it)
                } else {
                    old(self)@[pos as int]
                },
            ),
    {
        let present = self.has(pos, it);
        if !present {
            self.rows[pos].push(it);
            assert(self@ =~= old(self)@.update(pos as int, old(self)@[pos as int].push(it)));
        }
        !present
    }
}

/// `it`, recorded at position `j`, is backed by a derivation: the symbols
/// before its dot derive the input between its origin and `j`.
pub open spec fn item_sound(g: Grammar, w: Seq<u8>, it: Item, j: int) -> bool {
    derives_seq(g, item_rhs(g, it).take(it.dot as int), w.subrange(it.origin as int, j))
}

/// What holds of every item recorded at position `j`.
pub open spec fn item_ok(g: Grammar, w: Seq<u8>, it: Item, j: int) -> bool {
    &&& valid_item(g, it)
    &&& it.origin <= j
    &&& item_sound(g, w, it, j)
}

/// The item set at position `j` is duplicate-free and every item in it is sound.
pub open spec fn row_ok(g: Grammar, w: Seq<u8>, row: Seq<Item>, j: int) -> bool {
    &&& row.no_duplicates()
    &&& forall|m: int| 0 <= m < row.len() ==> item_ok(g, w, #[trigger] row[m], j)
}

/// Invariant of a chart for the word `w`.
pub open spec fn chart_ok(g: Grammar, w: Seq<u8>, c: Seq<Seq<Item>>) -> bool {
    &&& c.len() == w.len() + 1
    &&& forall|j: int| 0 <= j < c.len() ==> row_ok(g, w, #[trigger] c[j], j)
}

/// `it` is a finished item of nonterminal `x` that began at position `j`.
pub open spec fn finished_at(g: Grammar, it: Item, x: usize, j: int) -> bool {
    it.nt == x && it.origin == j && it.dot == item_rhs(g, it).len()
}

/// Prediction has been applied to `it`, the `k`-th item at position `j`:
/// every production of the nonterminal after its dot is predicted, and the
/// dot has moved over it if a finished item of it that began at `j` comes
/// before `it`.
pub open spec fn predicted(g: Grammar, c: Seq<Seq<Item>>, j: int, it: Item, k: int) -> bool {
    match next_symbol(g, it) {
        Some(Symbol::Nonterminal(x)) => {
            &&& forall|q: usize|
                q < g.num_productions(x as int) ==> #[trigger] c[j].contains(
                    Item { nt: x, prod: q, dot: 0, origin: j as usize },
                )
            &&& forall|m: int|
                0 <= m < k && m < c[j].len() && finished_at(g, #[trigger] c[j][m], x, j) ==> c[j].contains(
                    it.advanced(),
                )
        },
        _ => true,
    }
}

/// Scanning has been applied to `it` at position `j`.
pub open spec fn scanned(g: Grammar, w: Seq<u8>, c: Seq<Seq<Item>>, j: int, it: Item) -> bool {
    match next_symbol(g, it) {
        Some(Symbol::Terminal(t)) => (j < w.len() && w[j] == t) ==> c[j + 1].contains(
            it.advanced(),
        ),
        _ => true,
    }
}

/// Completion has been applied to `it`, the `k`-th item at position `j`:
/// every item waiting for its nonterminal at its origin has advanced (when
/// the origin is `j` itself, every such item up to index `k`).
pub open spec fn completed(g: Grammar, c: Seq<Seq<Item>>, j: int, it: Item, k: int) -> bool {
    &&& (it.dot == item_rhs(g, it).len() && it.origin < j) ==> forall|p: Item|
        #[trigger] c[it.origin as int].contains(p) && next_symbol(g, p) == Some(
            Symbol::Nonterminal(it.nt),
        ) ==> c[j].contains(p.advanced())
    &&& (it.dot == item_rhs(g, it).len() && it.origin == j) ==> forall|m: int|
        0 <= m <= k && m < c[j].len() && next_symbol(g, #[trigger] c[j][m]) == Some(
            Symbol::Nonterminal(it.nt),
        ) ==> c[j].contains(c[j][m].advanced())
}

pub open spec fn closed_item(g: Grammar, w: Seq<u8>, c: Seq<Seq<Item>>, j: int, it: Item, k: int) -> bool {
    &&& predicted(g, c, j, it, k)
    &&& scanned(g, w, c, j, it)
    &&& completed(g, c, j, it, k)
}

/// Every item at a position before `i` has been processed.
pub open spec fn closed_before(g: Grammar, w: Seq<u8>, c: Seq<Seq<Item>>, i: int) -> bool {
    forall|j: int, m: int|
        0 <= j < i && 0 <= m < c[j].len() ==> closed_item(g, w, c, j, #[trigger] c[j][m], m)
}

/// The first `k` items at position `i` have been processed.
pub open spec fn closed_prefix(g: Grammar, w: Seq<u8>, c: Seq<Seq<Item>>, i: int, k: int) -> bool {
    forall|m: int| 0 <= m < k ==> closed_item(g, w, c, i, #[trigger] c[i][m], m)
}

/// `c2` grows from `c1` by appending items, and leaves the positions before
/// `i` untouched.
pub open spec fn extends(c1: Seq<Seq<Item>>, c2: Seq<Seq<Item>>, i: int) -> bool {
    &&& c1.len() == c2.len()
    &&& forall|j: int|
        0 <= j < c1.len() ==> #[trigger] c1[j].len() <= c2[j].len() && forall|m: int|
            0 <= m < c1[j].len() ==> #[trigger] c2[j][m] == c1[j][m]
    &&& forall|j: int| 0 <= j < i ==> #[trigger] c2[j] == c1[j]
}

proof fn lemma_extends_contains(c1: Seq<Seq<Item>>, c2: Seq<Seq<Item>>, i: int, j: int, x: Item)
    requires
        extends(c1, c2, i),
        0 <= j < c1.len(),
        c1[j].contains(x),
    ensures
        c2[j].contains(x),
{
    let m = choose|m: int| 0 <= m < c1[j].len() && c1[j][m] == x;
    assert(c2[j][m] == x);
}

proof fn lemma_extends_trans(c1: Seq<Seq<Item>>, c2: Seq<Seq<Item>>, c3: Seq<Seq<Item>>, i: int)
    requires
        extends(c1, c2, i),
        extends(c2, c3, i),
    ensures
        extends(c1, c3, i),
{
    assert forall|j: int| 0 <= j < c1.len() implies #[trigger] c1[j].len() <= c3[j].len() && forall|m: int|
        0 <= m < c1[j].len() ==> #[trigger] c3[j][m] == c1[j][m] by {
        assert(c1[j].len() <= c2[j].len());
        assert forall|m: int| 0 <= m < c1[j].len() implies #[trigger] c3[j][m] == c1[j][m] by {
            assert(c2[j][m] == c1[j][m]);
        }
    }
}

proof fn lemma_closed_item_mono(
    g: Grammar,
    w: Seq<u8>,
    c1: Seq<Seq<Item>>,
    c2: Seq<Seq<Item>>,
    i: int,
    j: int,
    it: Item,
    k: int,
)
    requires
        extends(c1, c2, i),
        c1.len() == w.len() + 1,
        0 <= j <= i < c1.len(),
        it.origin <= j,
        0 <= k < c1[j].len(),
        closed_item(g, w, c1, j, it, k),
    ensures
        closed_item(g, w, c2, j, it, k),
{
    match next_symbol(g, it) {
        Some(Symbol::Nonterminal(x)) => {
            assert forall|q: usize| q < g.num_productions(x as int) implies #[trigger] c2[j].contains(
                Item { nt: x, prod: q, dot: 0, origin: j as usize },
            ) by {
                lemma_extends_contains(c1, c2, i, j, Item { nt: x, prod: q, dot: 0, origin: j as usize });
            }
            assert forall|m: int|
                0 <= m < k && m < c2[j].len() && finished_at(g, #[trigger] c2[j][m], x, j) implies c2[j].contains(
                it.advanced(),
            ) by {
                assert(c2[j][m] == c1[j][m]);
                lemma_extends_contains(c1, c2, i, j, it.advanced());
            }
        },
        Some(Symbol::Terminal(t)) => {
            if j < w.len() && w[j] == t {
                lemma_extends_contains(c1, c2, i, j + 1, it.advanced());
            }
        },
        None => {},
    }
    if it.dot == item_rhs(g, it).len() && it.origin < j {
        assert(c2[it.origin as int] == c1[it.origin as int]);
        assert forall|p: Item|
            #[trigger] c2[it.origin as int].contains(p) && next_symbol(g, p) == Some(
                Symbol::Nonterminal(it.nt),
            ) implies c2[j].contains(p.advanced()) by {
            lemma_extends_contains(c1, c2, i, j, p.advanced());
        }
    }
    if it.dot == item_rhs(g, it).len() && it.origin == j {
        assert forall|m: int|
            0 <= m <= k && m < c2[j].len() && next_symbol(g, #[trigger] c2[j][m]) == Some(
                Symbol::Nonterminal(it.nt),
            ) implies c2[j].contains(c2[j][m].advanced()) by {
            assert(c2[j][m] == c1[j][m]);
            lemma_extends_contains(c1, c2, i, j, c1[j][m].advanced());
        }
    }
}

/// Growing the chart at positions `i` and later keeps the processed items closed.
proof fn lemma_closed_mono(
    g: Grammar,
    w: Seq<u8>,
    c1: Seq<Seq<Item>>,
    c2: Seq<Seq<Item>>,
    i: int,
    k: int,
)
    requires
        extends(c1, c2, i),
        chart_ok(g, w, c1),
        0 <= i < c1.len(),
        0 <= k <= c1[i].len(),
        closed_before(g, w, c1, i),
        closed_prefix(g, w, c1, i, k),
    ensures
        closed_before(g, w, c2, i),
        closed_prefix(g, w, c2, i, k),
{
    assert forall|j: int, m: int| 0 <= j < i && 0 <= m < c2[j].len() implies closed_item(
        g,
        w,
        c2,
        j,
        #[trigger] c2[j][m],
        m,
    ) by {
        assert(c2[j] == c1[j]);
        assert(row_ok(g, w, c1[j], j));
        assert(item_ok(g, w, c1[j][m], j));
        lemma_closed_item_mono(g, w, c1, c2, i, j, c1[j][m], m);
    }
    assert forall|m: int| 0 <= m < k implies closed_item(g, w, c2, i, #[trigger] c2[i][m], m) by {
        assert(c2[i][m] == c1[i][m]);
        assert(row_ok(g, w, c1[i], i));
        assert(item_ok(g, w, c1[i][m], i));
        lemma_closed_item_mono(g, w, c1, c2, i, i, c1[i][m], m);
    }
}

/// Inserting an item that satisfies the invariant at position `pos` keeps
/// the chart invariant.
proof fn lemma_insert_ok(g: Grammar, w: Seq<u8>, c: Seq<Seq<Item>>, pos: int, x: Item, added: bool, lo: int)
    requires
        0 <= lo <= pos,
        chart_ok(g, w, c),
        0 <= pos < c.len(),
        item_ok(g, w, x, pos),
        added == !c[pos].contains(x),
    ensures
        chart_ok(
            g,
            w,
            c.update(pos, if added { c[pos].push(x) } else { c[pos] }),
        ),
        extends(c, c.update(pos, if added { c[pos].push(x) } else { c[pos] }), lo),
{
    let c2 = c.update(pos, if added { c[pos].push(x) } else { c[pos] });
    if added {
        let row = c[pos].push(x);
        assert(row_ok(g, w, c[pos], pos));
        assert forall|a: int, b: int| 0 <= a < row.len() && 0 <= b < row.len() && a != b implies row[a] != row[b] by {
            if a < c[pos].len() && b < c[pos].len() {
            } else if a == c[pos].len() {
                assert(row[b] == c[pos][b]);
            } else {
                assert(row[a] == c[pos][a]);
            }
        }
        assert forall|j: int| 0 <= j < c2.len() implies row_ok(g, w, #[trigger] c2[j], j) by {
            if j != pos {
                assert(c2[j] == c[j]);
            } else {
                assert forall|m: int| 0 <= m < row.len() implies item_ok(g, w, #[trigger] row[m], j) by {
                    if m < c[pos].len() {
                        assert(row[m] == c[pos][m]);
                    }
                }
            }
        }
    } else {
        assert(c2 =~= c);
    }
}

/// Scanning keeps items sound: a matched terminal extends the derivation.
proof fn lemma_scan_sound(g: Grammar, w: Seq<u8>, it: Item, i: int)
    requires
        valid_item(g, it),
        it.origin <= i < w.len(),
        item_sound(g, w, it, i),
        next_symbol(g, it) == Some(Symbol::Terminal(w[i])),
        it.dot < usize::MAX,
    ensures
        item_sound(g, w, it.advanced(), i + 1),
{
    let rhs = item_rhs(g, it);
    let u = w.subrange(it.origin as int, i);
    let f = choose|f: Forest| #[trigger] forest_ok(g, f, rhs.take(it.dot as int)) && forest_yield(f) == u;
    let t = Tree::Leaf(w[i]);
    lemma_forest_push(g, f, rhs.take(it.dot as int), t, rhs[it.dot as int]);
    assert(rhs.take(it.dot as int).push(rhs[it.dot as int]) =~= rhs.take(it.dot + 1));
    assert(u + tree_yield(t) =~= w.subrange(it.origin as int, i + 1));
    assert(forest_ok(g, forest_push(f, t), item_rhs(g, it.advanced()).take(it.advanced().dot as int)));
}

/// Completion keeps items sound: a finished production of the nonterminal
/// after `parent`'s dot extends `parent`'s derivation.
proof fn lemma_complete_sound(g: Grammar, w: Seq<u8>, parent: Item, child: Item, i: int)
    requires
        valid_item(g, parent),
        valid_item(g, child),
        parent.origin <= child.origin <= i <= w.len(),
        item_sound(g, w, parent, child.origin as int),
        item_sound(g, w, child, i),
        child.dot == item_rhs(g, child).len(),
        next_symbol(g, parent) == Some(Symbol::Nonterminal(child.nt)),
        parent.dot < usize::MAX,
    ensures
        item_sound(g, w, parent.advanced(), i),
{
    let o = child.origin as int;
    let prhs = item_rhs(g, parent);
    let crhs = item_rhs(g, child);
    let u = w.subrange(parent.origin as int, o);
    let v = w.subrange(o, i);
    let fp = choose|f: Forest| #[trigger] forest_ok(g, f, prhs.take(parent.dot as int)) && forest_yield(f) == u;
    assert(crhs.take(child.dot as int) =~= crhs);
    let fc = choose|f: Forest| #[trigger] forest_ok(g, f, crhs.take(child.dot as int)) && forest_yield(f) == v;
    let t = Tree::Node { nt: child.nt, prod: child.prod, kids: Box::new(fc) };
    assert(tree_ok(g, t, Symbol::Nonterminal(child.nt)));
    lemma_forest_push(g, fp, prhs.take(parent.dot as int), t, prhs[parent.dot as int]);
    assert(prhs.take(parent.dot as int).push(prhs[parent.dot as int]) =~= prhs.take(parent.dot + 1));
    assert(u + tree_yield(t) =~= w.subrange(parent.origin as int, i));
    assert(forest_ok(g, forest_push(fp, t), item_rhs(g, parent.advanced()).take(parent.advanced().dot as int)));
}

/// A freshly predicted item is sound: nothing is matched yet.
proof fn lemma_predict_sound(g: Grammar, w: Seq<u8>, it: Item, i: int)
    requires
        it.dot == 0,
        it.origin == i,
        0 <= i <= w.len(),
    ensures
        item_sound(g, w, it, i),
{
    assert(item_rhs(g, it).take(0) =~= Seq::<Symbol>::empty());
    assert(w.subrange(i, i) =~= Seq::<u8>::empty());
    assert(forest_ok(g, Forest::Nil, item_rhs(g, it).take(0)));
}

/// The largest number of productions among nonterminals below `a`.
pub open spec fn max_prods(g: Grammar, a: int) -> nat
    decreases a,
{
    if a <= 0 {
        0
    } else {
        let m = max_prods(g, a - 1);
        if g.num_productions(a - 1) > m {
            g.num_productions(a - 1)
        } else {
            m
        }
    }
}

/// The longest right-hand side among the first `p` productions of `a`.
pub open spec fn max_rhs_of(g: Grammar, a: int, p: int) -> nat
    decreases p,
{
    if p <= 0 {
        0
    } else {
        let m = max_rhs_of(g, a, p - 1);
        if g.rhs(a, p - 1).len() > m {
            g.rhs(a, p - 1).len()
        } else {
            m
        }
    }
}

/// The longest right-hand side among nonterminals below `a`.
pub open spec fn max_rhs(g: Grammar, a: int) -> nat
    decreases a,
{
    if a <= 0 {
        0
    } else {
        let m = max_rhs(g, a - 1);
        let r = max_rhs_of(g, a - 1, g.num_productions(a - 1) as int);
        if r > m {
            r
        } else {
            m
        }
    }
}

proof fn lemma_max_prods(g: Grammar, a: int, b: int)
    requires
        0 <= b < a,
    ensures
        g.num_productions(b) <= max_prods(g, a),
    decreases a,
{
    if b < a - 1 {
        lemma_max_prods(g, a - 1, b);
    }
}

proof fn lemma_max_rhs_of(g: Grammar, a: int, p: int, q: int)
    requires
        0 <= q < p,
    ensures
        g.rhs(a, q).len() <= max_rhs_of(g, a, p),
    decreases p,
{
    if q < p - 1 {
        lemma_max_rhs_of(g, a, p - 1, q);
    }
}

proof fn lemma_max_rhs(g: Grammar, a: int, b: int)
    requires
        0 <= b < a,
    ensures
        max_rhs_of(g, b, g.num_productions(b) as int) <= max_rhs(g, a),
    decreases a,
{
    if b < a - 1 {
        lemma_max_rhs(g, a - 1, b);
    }
}

/// An upper bound on the number of distinct valid items whose origin is at
/// most `i`.
pub open spec fn item_bound(g: Grammar, i: int) -> int {
    (i + 1) * g.num_nonterminals() * max_prods(g, g.num_nonterminals() as int) * (max_rhs(
        g,
        g.num_nonterminals() as int,
    ) + 1)
}

/// A numbering of valid items with origin at most `i`, one to one, below
/// `item_bound(g, i)`.
spec fn item_code(g: Grammar, it: Item) -> int {
    ((it.origin * g.num_nonterminals() + it.nt) * max_prods(g, g.num_nonterminals() as int)
        + it.prod) * (max_rhs(g, g.num_nonterminals() as int) + 1) + it.dot
}

proof fn lemma_digit(x1: int, d1: int, x2: int, d2: int, base: int)
    requires
        0 <= x1,
        0 <= x2,
        0 <= d1 < base,
        0 <= d2 < base,
        x1 * base + d1 == x2 * base + d2,
    ensures
        x1 == x2,
        d1 == d2,
{
    if x1 < x2 {
        assert((x1 + 1) * base <= x2 * base) by (nonlinear_arith)
            requires
                x1 + 1 <= x2,
                base >= 0,
        ;
        assert((x1 + 1) * base == x1 * base + base) by (nonlinear_arith);
    } else if x2 < x1 {
        assert((x2 + 1) * base <= x1 * base) by (nonlinear_arith)
            requires
                x2 + 1 <= x1,
                base >= 0,
        ;
        assert((x2 + 1) * base == x2 * base + base) by (nonlinear_arith);
    }
}

proof fn lemma_digit_bound(x: int, d: int, hi: int, base: int)
    requires
        0 <= x < hi,
        0 <= d < base,
    ensures
        0 <= x * base + d < hi * base,
{
    assert((x + 1) * base <= hi * base) by (nonlinear_arith)
        requires
            x + 1 <= hi,
            base >= 0,
    ;
    assert((x + 1) * base == x * base + base) by (nonlinear_arith);
    assert(x * base >= 0) by (nonlinear_arith)
        requires
            x >= 0,
            base >= 0,
    ;
}

proof fn lemma_code_facts(g: Grammar, it: Item, i: int)
    requires
        valid_item(g, it),
        it.origin <= i,
    ensures
        0 <= item_code(g, it) < item_bound(g, i),
{
    let nts = g.num_nonterminals() as int;
    let np = max_prods(g, nts) as int;
    let nl = max_rhs(g, nts) + 1int;
    lemma_max_prods(g, nts, it.nt as int);
    lemma_max_rhs_of(g, it.nt as int, g.num_productions(it.nt as int) as int, it.prod as int);
    lemma_max_rhs(g, nts, it.nt as int);
    lemma_digit_bound(it.origin as int, it.nt as int, i + 1, nts);
    lemma_digit_bound(it.origin * nts + it.nt, it.prod as int, (i + 1) * nts, np);
    lemma_digit_bound(
        (it.origin * nts + it.nt) * np + it.prod,
        it.dot as int,
        (i + 1) * nts * np,
        nl,
    );
}

proof fn lemma_code_injective(g: Grammar, a: Item, b: Item, i: int)
    requires
        valid_item(g, a),
        valid_item(g, b),
        a.origin <= i,
        b.origin <= i,
        item_code(g, a) == item_code(g, b),
    ensures
        a == b,
{
    let nts = g.num_nonterminals() as int;
    let np = max_prods(g, nts) as int;
    let nl = max_rhs(g, nts) + 1int;
    lemma_code_facts(g, a, i);
    lemma_code_facts(g, b, i);
    lemma_max_prods(g, nts, a.nt as int);
    lemma_max_prods(g, nts, b.nt as int);
    lemma_max_rhs_of(g, a.nt as int, g.num_productions(a.nt as int) as int, a.prod as int);
    lemma_max_rhs(g, nts, a.nt as int);
    lemma_max_rhs_of(g, b.nt as int, g.num_productions(b.nt as int) as int, b.prod as int);
    lemma_max_rhs(g, nts, b.nt as int);
    lemma_digit_bound(a.origin as int, a.nt as int, i + 1, nts);
    lemma_digit_bound(b.origin as int, b.nt as int, i + 1, nts);
    lemma_digit_bound(a.origin * nts + a.nt, a.prod as int, (i + 1) * nts, np);
    lemma_digit_bound(b.origin * nts + b.nt, b.prod as int, (i + 1) * nts, np);
    lemma_digit(
        (a.origin * nts + a.nt) * np + a.prod,
        a.dot as int,
        (b.origin * nts + b.nt) * np + b.prod,
        b.dot as int,
        nl,
    );
    lemma_digit(a.origin * nts + a.nt, a.prod as int, b.origin * nts + b.nt, b.prod as int, np);
    lemma_digit(a.origin as int, a.nt as int, b.origin as int, b.nt as int, nts);
}

/// A duplicate-free set of valid items with origins at most `i` has at most
/// `item_bound(g, i)` elements.
proof fn lemma_row_bounded(g: Grammar, row: Seq<Item>, i: int)
    requires
        0 <= i,
        row.no_duplicates(),
        forall|m: int| 0 <= m < row.len() ==> valid_item(g, #[trigger] row[m]) && row[m].origin <= i,
    ensures
        row.len() <= item_bound(g, i),
{
    let codes = row.map_values(|it: Item| item_code(g, it));
    assert forall|a: int, b: int| 0 <= a < codes.len() && 0 <= b < codes.len() && a != b implies codes[a] != codes[b] by {
        if codes[a] == codes[b] {
            lemma_code_injective(g, row[a], row[b], i);
        }
    }
    assert(codes.no_duplicates());
    codes.unique_seq_to_set();
    let bound = item_bound(g, i);
    lemma_bound_nonneg(g, i);
    assert(bound >= 0);
    lemma_int_range(0, bound);
    assert forall|x: int| codes.to_set().contains(x) implies set_int_range(0, bound).contains(x) by {
        let m = choose|m: int| 0 <= m < codes.len() && codes[m] == x;
        lemma_code_facts(g, row[m], i);
    }
    lemma_len_subset(codes.to_set(), set_int_range(0, bound));
}

proof fn lemma_bound_nonneg(g: Grammar, i: int)
    requires
        0 <= i,
    ensures
        item_bound(g, i) >= 0,
{
    let nts = g.num_nonterminals() as int;
    let np = max_prods(g, nts) as int;
    let nl = max_rhs(g, nts) + 1int;
    assert((i + 1) * nts * np * nl >= 0) by (nonlinear_arith)
        requires
            i + 1 >= 0,
            nts >= 0,
            np >= 0,
            nl >= 0,
    ;
}

/// Advances over `it`'s finished production every item at its origin that
/// waits for its nonterminal.
fn complete_item(g: &Grammar, word: &[u8], chart: &mut Chart, i: usize, k: usize)
    requires
        g.wf(),
        chart_ok(*g, word@, old(chart)@),
        i < old(chart)@.len(),
        k < old(chart)@[i as int].len(),
        old(chart)@[i as int][k as int].dot == item_rhs(*g, old(chart)@[i as int][k as int]).len(),
    ensures
        chart_ok(*g, word@, final(chart)@),
        extends(old(chart)@, final(chart)@, i as int),
        completed(*g, final(chart)@, i as int, old(chart)@[i as int][k as int], k as int),
{
    let ghost c0 = chart@;
    let it = chart.get(i, k);
    assert(row_ok(*g, word@, c0[i as int], i as int));
    assert(item_ok(*g, word@, it, i as int));
    let o = it.origin;
    let lim = chart.row_len(o);
    let mut m: usize = 0;
    while m < lim
        invariant
            g.wf(),
            chart_ok(*g, word@, chart@),
            extends(c0, chart@, i as int),
            i < c0.len(),
            k < c0[i as int].len(),
            it == c0[i as int][k as int],
            o == it.origin,
            o <= i,
            item_ok(*g, word@, it, i as int),
            it.dot == item_rhs(*g, it).len(),
            lim == c0[o as int].len(),
            m <= lim,
            forall|x: int|
                0 <= x < m && next_symbol(*g, #[trigger] c0[o as int][x]) == Some(
                    Symbol::Nonterminal(it.nt),
                ) ==> chart@[i as int].contains(c0[o as int][x].advanced()),
        decreases lim - m,
    {
        let parent = chart.get(o, m);
        assert(parent == c0[o as int][m as int]);
        assert(row_ok(*g, word@, chart@[o as int], o as int));
        assert(item_ok(*g, word@, parent, o as int));
        let prhs = &g.productions[parent.nt][parent.prod];
        assert(prhs@ == item_rhs(*g, parent));
        if parent.dot < prhs.len() {
            if let Symbol::Nonterminal(x) = prhs[parent.dot] {
                if x == it.nt {
                    let next = Item {
                        nt: parent.nt,
                        prod: parent.prod,
                        dot: parent.dot + 1,
                        origin: parent.origin,
                    };
                    assert(next == parent.advanced());
                    let ghost before = chart@;
                    proof {
                        lemma_complete_sound(*g, word@, parent, it, i as int);
                    }
                    let added = chart.insert(i, next);
                    proof {
                        lemma_insert_ok(*g, word@, before, i as int, next, added, i as int);
                        lemma_extends_trans(c0, before, chart@, i as int);
                        assert forall|x: int|
                            0 <= x < m && next_symbol(*g, #[trigger] c0[o as int][x]) == Some(
                                Symbol::Nonterminal(it.nt),
                            ) implies chart@[i as int].contains(c0[o as int][x].advanced()) by {
                            lemma_extends_contains(before, chart@, i as int, i as int, c0[o as int][x].advanced());
                        }
                        if added {
                            assert(chart@[i as int][before[i as int].len() as int] == next);
                        }
                    }
                }
            }
        }
        m += 1;
    }
    proof {
        if it.origin < i {
            assert(chart@[o as int] == c0[o as int]);
            assert forall|p: Item|
                #[trigger] chart@[it.origin as int].contains(p) && next_symbol(*g, p) == Some(
                    Symbol::Nonterminal(it.nt),
                ) implies chart@[i as int].contains(p.advanced()) by {
                let x = choose|x: int| 0 <= x < chart@[o as int].len() && chart@[o as int][x] == p;
                assert(c0[o as int][x] == p);
            }
        }
        if it.origin == i {
            assert forall|x: int|
                0 <= x <= k && x < chart@[i as int].len() && next_symbol(*g, #[trigger] chart@[i as int][x]) == Some(
                    Symbol::Nonterminal(it.nt),
                ) implies chart@[i as int].contains(chart@[i as int][x].advanced()) by {
                assert(chart@[i as int][x] == c0[o as int][x]);
            }
        }
    }
}

/// Adds, at position `i`, a fresh item for every production of `x`.
fn predict_item(g: &Grammar, word: &[u8], chart: &mut Chart, i: usize, x: usize)
    requires
        g.wf(),
        chart_ok(*g, word@, old(chart)@),
        i < old(chart)@.len(),
        x < g.num_nonterminals(),
    ensures
        chart_ok(*g, word@, final(chart)@),
        extends(old(chart)@, final(chart)@, i as int),
        forall|q: usize|
            q < g.num_productions(x as int) ==> #[trigger] final(chart)@[i as int].contains(
                Item { nt: x, prod: q, dot: 0, origin: i },
            ),
{
    let ghost c0 = chart@;
    let np = g.productions[x].len();
    let mut q: usize = 0;
    while q < np
        invariant
            g.wf(),
            chart_ok(*g, word@, chart@),
            extends(c0, chart@, i as int),
            i < c0.len(),
            x < g.num_nonterminals(),
            np == g.num_productions(x as int),
            q <= np,
            forall|r: usize|
                r < q ==> #[trigger] chart@[i as int].contains(Item { nt: x, prod: r, dot: 0, origin: i }),
        decreases np - q,
    {
        let fresh = Item { nt: x, prod: q, dot: 0, origin: i };
        let ghost before = chart@;
        proof {
            lemma_predict_sound(*g, word@, fresh, i as int);
        }
        let added = chart.insert(i, fresh);
        proof {
            lemma_insert_ok(*g, word@, before, i as int, fresh, added, i as int);
            lemma_extends_trans(c0, before, chart@, i as int);
            assert forall|r: usize| r < q + 1 implies #[trigger] chart@[i as int].contains(
                Item { nt: x, prod: r, dot: 0, origin: i },
            ) by {
                if r < q {
                    lemma_extends_contains(before, chart@, i as int, i as int, Item { nt: x, prod: r, dot: 0, origin: i });
                } else if added {
                    assert(chart@[i as int][before[i as int].len() as int] == fresh);
                }
            }
        }
        q += 1;
    }
}

/// Moves the dot of `it` over the nonterminal `x` when a finished item of
/// `x` that began at position `i` is already recorded there: `x` then
/// derives the empty word at `i`.
fn advance_over_nullable(g: &Grammar, word: &[u8], chart: &mut Chart, i: usize, it: Item, x: usize)
    requires
        g.wf(),
        chart_ok(*g, word@, old(chart)@),
        i < old(chart)@.len(),
        item_ok(*g, word@, it, i as int),
        next_symbol(*g, it) == Some(Symbol::Nonterminal(x)),
    ensures
        chart_ok(*g, word@, final(chart)@),
        extends(old(chart)@, final(chart)@, i as int),
        forall|m: int|
            0 <= m < old(chart)@[i as int].len() && finished_at(*g, #[trigger] old(chart)@[i as int][m], x, i as int)
                ==> final(chart)@[i as int].contains(it.advanced()),
{
    let ghost c0 = chart@;
    assert(g.symbol_in_range(g.rhs(it.nt as int, it.prod as int)[it.dot as int]));
    let np = g.productions[x].len();
    let mut q: usize = 0;
    while q < np
        invariant
            g.wf(),
            chart_ok(*g, word@, chart@),
            extends(c0, chart@, i as int),
            i < c0.len(),
            item_ok(*g, word@, it, i as int),
            next_symbol(*g, it) == Some(Symbol::Nonterminal(x)),
            x < g.num_nonterminals(),
            np == g.num_productions(x as int),
            q <= np,
            forall|m: int|
                0 <= m < c0[i as int].len() && finished_at(*g, #[trigger] c0[i as int][m], x, i as int)
                    && c0[i as int][m].prod < q ==> chart@[i as int].contains(it.advanced()),
        decreases np - q,
    {
        let len = g.productions[x][q].len();
        let done = Item { nt: x, prod: q, dot: len, origin: i };
        if chart.has(i, done) {
            let next = Item { nt: it.nt, prod: it.prod, dot: it.dot + 1, origin: it.origin };
            assert(next == it.advanced());
            let ghost before = chart@;
            proof {
                let md = choose|md: int| 0 <= md < chart@[i as int].len() && chart@[i as int][md] == done;
                assert(row_ok(*g, word@, chart@[i as int], i as int));
                assert(item_ok(*g, word@, chart@[i as int][md], i as int));
                lemma_complete_sound(*g, word@, it, done, i as int);
            }
            let added = chart.insert(i, next);
            proof {
                lemma_insert_ok(*g, word@, before, i as int, next, added, i as int);
                lemma_extends_trans(c0, before, chart@, i as int);
                if added {
                    assert(chart@[i as int][before[i as int].len() as int] == next);
                }
                assert(chart@[i as int].contains(it.advanced()));
            }
        } else {
            proof {
                assert forall|m: int|
                    0 <= m < c0[i as int].len() && finished_at(*g, #[trigger] c0[i as int][m], x, i as int)
                        && c0[i as int][m].prod < q + 1 implies chart@[i as int].contains(it.advanced()) by {
                    if c0[i as int][m].prod == q {
                        assert(c0[i as int][m] == done);
                        assert(chart@[i as int][m] == c0[i as int][m]);
                        assert(chart@[i as int].contains(done));
                    }
                }
            }
        }
        q += 1;
    }
    proof {
        assert forall|m: int|
            0 <= m < c0[i as int].len() && finished_at(*g, #[trigger] c0[i as int][m], x, i as int)
                implies chart@[i as int].contains(it.advanced()) by {
            assert(row_ok(*g, word@, c0[i as int], i as int));
            assert(item_ok(*g, word@, c0[i as int][m], i as int));
        }
    }
}

/// Processes the `k`-th item recorded at position `i`: completion,
/// prediction or scanning, depending on what follows its dot.
fn process_item(g: &Grammar, word: &[u8], chart: &mut Chart, i: usize, k: usize)
    requires
        g.wf(),
        chart_ok(*g, word@, old(chart)@),
        i < old(chart)@.len(),
        k < old(chart)@[i as int].len(),
    ensures
        chart_ok(*g, word@, final(chart)@),
        extends(old(chart)@, final(chart)@, i as int),
        closed_item(*g, word@, final(chart)@, i as int, old(chart)@[i as int][k as int], k as int),
{
    let ghost c0 = chart@;
    let it = chart.get(i, k);
    assert(row_ok(*g, word@, c0[i as int], i as int));
    assert(item_ok(*g, word@, it, i as int));
    let rhs = &g.productions[it.nt][it.prod];
    assert(rhs@ == item_rhs(*g, it));
    if it.dot >= rhs.len() {
        complete_item(g, word, chart, i, k);
    } else {
        match rhs[it.dot] {
            Symbol::Nonterminal(x) => {
                assert(g.symbol_in_range(g.rhs(it.nt as int, it.prod as int)[it.dot as int]));
                predict_item(g, word, chart, i, x);
                let ghost c1 = chart@;
                advance_over_nullable(g, word, chart, i, it, x);
                proof {
                    lemma_extends_trans(c0, c1, chart@, i as int);
                    assert forall|q: usize| q < g.num_productions(x as int) implies #[trigger] chart@[i as int].contains(
                        Item { nt: x, prod: q, dot: 0, origin: i },
                    ) by {
                        lemma_extends_contains(c1, chart@, i as int, i as int, Item { nt: x, prod: q, dot: 0, origin: i });
                    }
                    assert forall|m: int|
                        0 <= m < k && m < chart@[i as int].len() && finished_at(*g, #[trigger] chart@[i as int][m], x, i as int)
                            implies chart@[i as int].contains(it.advanced()) by {
                        assert(chart@[i as int][m] == c1[i as int][m]);
                    }
                }
            },
            Symbol::Terminal(t) => {
                if i < word.len() && word[i] == t {
                    let next = Item { nt: it.nt, prod: it.prod, dot: it.dot + 1, origin: it.origin };
                    assert(next == it.advanced());
                    let ghost before = chart@;
                    proof {
                        lemma_scan_sound(*g, word@, it, i as int);
                    }
                    let added = chart.insert(i + 1, next);
                    proof {
                        lemma_insert_ok(*g, word@, before, i + 1, next, added, i as int);
                        assert(chart@[i as int] == before[i as int]);
                        if added {
                            assert(chart@[i + 1][before[i + 1].len() as int] == next);
                        }
                    }
                }
            },
        }
    }
}

/// On a closed chart, an item at position `j` whose next symbols derive the
/// input from `j` to `k` has its advanced form at position `k`.
proof fn lemma_complete_run(
    g: Grammar,
    w: Seq<u8>,
    c: Seq<Seq<Item>>,
    j: int,
    it: Item,
    e: int,
    k: int,
    f: Forest,
)
    requires
        g.wf(),
        chart_ok(g, w, c),
        c.len() <= usize::MAX,
        closed_before(g, w, c, c.len() as int),
        0 <= j <= k < c.len(),
        c[j].contains(it),
        it.dot <= e <= item_rhs(g, it).len(),
        forest_ok(g, f, item_rhs(g, it).subrange(it.dot as int, e)),
        forest_yield(f) == w.subrange(j, k),
    ensures
        c[k].contains(Item { nt: it.nt, prod: it.prod, dot: e as usize, origin: it.origin }),
    decreases f,
{
    let rhs = item_rhs(g, it);
    let m0 = choose|m: int| 0 <= m < c[j].len() && c[j][m] == it;
    assert(row_ok(g, w, c[j], j));
    assert(item_ok(g, w, c[j][m0], j));
    assert(closed_item(g, w, c, j, c[j][m0], m0));
    match f {
        Forest::Nil => {
            assert(w.subrange(j, k).len() == 0);
            assert(Item { nt: it.nt, prod: it.prod, dot: e as usize, origin: it.origin } == it);
        },
        Forest::Cons(t, rest) => {
            let syms = rhs.subrange(it.dot as int, e);
            assert(syms[0] == rhs[it.dot as int]);
            assert(syms.drop_first() =~= rhs.subrange(it.dot + 1, e));
            let m = j + tree_yield(*t).len();
            assert(w.subrange(j, k) =~= tree_yield(*t) + forest_yield(*rest));
            assert(tree_yield(*t) =~= w.subrange(j, m));
            let whole = w.subrange(j, k);
            let tl = tree_yield(*t).len() as int;
            assert(whole.subrange(tl, whole.len() as int) =~= forest_yield(*rest));
            assert(whole.subrange(tl, whole.len() as int) =~= w.subrange(m, k));
            assert(next_symbol(g, it) == Some(rhs[it.dot as int]));
            assert(tree_ok(g, *t, syms[0]));
            assert(forest_ok(g, *rest, syms.drop_first()));
            match *t {
                Tree::Leaf(b) => {
                    assert(tree_yield(*t) == seq![b]);
                    assert(w.subrange(j, m)[0] == w[j]);
                    assert(w[j] == b);
                    assert(c[j + 1].contains(it.advanced()));
                    lemma_complete_run(g, w, c, j + 1, it.advanced(), e, k, *rest);
                },
                Tree::Node { nt: x, prod: q, kids } => {
                    let fresh = Item { nt: x, prod: q, dot: 0, origin: j as usize };
                    assert(forest_ok(g, *kids, g.rhs(x as int, q as int)));
                    assert(q < g.num_productions(x as int));
                    assert(c[j].contains(fresh));
                    let len = g.rhs(x as int, q as int).len();
                    assert(g.rhs(x as int, q as int).subrange(0, len as int) =~= g.rhs(x as int, q as int));
                    lemma_complete_run(g, w, c, j, fresh, len as int, m, *kids);
                    let done = Item { nt: x, prod: q, dot: len as usize, origin: j as usize };
                    assert(c[m].contains(done));
                    let kd = choose|kd: int| 0 <= kd < c[m].len() && c[m][kd] == done;
                    assert(closed_item(g, w, c, m, c[m][kd], kd));
                    assert(next_symbol(g, it) == Some(Symbol::Nonterminal(x)));
                    assert(done.origin as int == j);
                    if j < m {
                        assert(completed(g, c, m, done, kd));
                        assert(c[m].contains(it.advanced()));
                    } else if m0 <= kd {
                        assert(completed(g, c, j, done, kd));
                        assert(c[j][m0] == it);
                        assert(c[m].contains(it.advanced()));
                    } else {
                        assert(predicted(g, c, j, it, m0));
                        assert(finished_at(g, c[j][kd], x, j));
                        assert(c[m].contains(it.advanced()));
                    }
                    lemma_complete_run(g, w, c, m, it.advanced(), e, k, *rest);
                },
            }
        },
    }
}

/// Decides whether `word` is in the language of `grammar`, by Earley
/// recognition: exactly the words that some derivation tree of the start
/// symbol yields are accepted.
pub fn contains(grammar: &Grammar, word: &[u8]) -> (r: bool)
    requires
        grammar.wf(),
        word@.len() < usize::MAX,
    ensures
        r == generates(*grammar, word@),
{
    let ghost g = *grammar;
    let ghost w = word@;
    let n = word.len();
    let mut chart = Chart::new(n + 1);
    let start = grammar.start;
    let nstart = grammar.productions[start].len();
    let mut p: usize = 0;
    while p < nstart
        invariant
            g == *grammar,
            w == word@,
            n == w.len(),
            g.wf(),
            start == g.start,
            nstart == g.num_productions(start as int),
            p <= nstart,
            chart_ok(g, w, chart@),
            forall|q: usize|
                q < p ==> #[trigger] chart@[0].contains(Item { nt: start, prod: q, dot: 0, origin: 0 }),
        decreases nstart - p,
    {
        let seed = Item { nt: start, prod: p, dot: 0, origin: 0 };
        let ghost before = chart@;
        proof {
            lemma_predict_sound(g, w, seed, 0);
        }
        let added = chart.insert(0, seed);
        proof {
            lemma_insert_ok(g, w, before, 0, seed, added, 0);
            assert forall|q: usize| q < p + 1 implies #[trigger] chart@[0].contains(
                Item { nt: start, prod: q, dot: 0, origin: 0 },
            ) by {
                if q < p {
                    lemma_extends_contains(before, chart@, 0, 0, Item { nt: start, prod: q, dot: 0, origin: 0 });
                } else if added {
                    assert(chart@[0][before[0].len() as int] == seed);
                }
            }
        }
        p += 1;
    }
    let mut i: usize = 0;
    while i <= n
        invariant
            g == *grammar,
            w == word@,
            n == w.len(),
            n < usize::MAX,
            g.wf(),
            start == g.start,
            nstart == g.num_productions(start as int),
            i <= n + 1,
            chart_ok(g, w, chart@),
            closed_before(g, w, chart@, i as int),
            forall|q: usize|
                q < nstart ==> #[trigger] chart@[0].contains(Item { nt: start, prod: q, dot: 0, origin: 0 }),
        decreases n + 1 - i,
    {
        let mut k: usize = 0;
        while k < chart.row_len(i)
            invariant
                g == *grammar,
                w == word@,
                n == w.len(),
                n < usize::MAX,
                g.wf(),
                start == g.start,
                nstart == g.num_productions(start as int),
                i <= n,
                k <= chart@[i as int].len(),
                chart_ok(g, w, chart@),
                closed_before(g, w, chart@, i as int),
                closed_prefix(g, w, chart@, i as int, k as int),
                forall|q: usize|
                    q < nstart ==> #[trigger] chart@[0].contains(Item { nt: start, prod: q, dot: 0, origin: 0 }),
            decreases item_bound(g, i as int) - k,
        {
            let ghost c0 = chart@;
            process_item(grammar, word, &mut chart, i, k);
            proof {
                lemma_closed_mono(g, w, c0, chart@, i as int, k as int);
                assert(chart@[i as int][k as int] == c0[i as int][k as int]);
                assert forall|q: usize| q < nstart implies #[trigger] chart@[0].contains(
                    Item { nt: start, prod: q, dot: 0, origin: 0 },
                ) by {
                    lemma_extends_contains(c0, chart@, i as int, 0, Item { nt: start, prod: q, dot: 0, origin: 0 });
                }
                assert(row_ok(g, w, chart@[i as int], i as int));
                lemma_row_bounded(g, chart@[i as int], i as int);
            }
            k += 1;
        }
        proof {
            let c = chart@;
            assert forall|j: int, m: int| 0 <= j < i + 1 && 0 <= m < c[j].len() implies closed_item(
                g,
                w,
                c,
                j,
                #[trigger] c[j][m],
                m,
            ) by {
            }
        }
        i += 1;
    }
    let ghost c = chart@;
    let mut q: usize = 0;
    while q < nstart
        invariant
            g == *grammar,
            w == word@,
            n == w.len(),
            g.wf(),
            start == g.start,
            nstart == g.num_productions(start as int),
            chart@ == c,
            chart_ok(g, w, c),
            q <= nstart,
            forall|r: usize|
                r < q ==> !(#[trigger] c[n as int].contains(
                    Item { nt: start, prod: r, dot: g.rhs(start as int, r as int).len() as usize, origin: 0 },
                )),
        decreases nstart - q,
    {
        let len = grammar.productions[start][q].len();
        let done = Item { nt: start, prod: q, dot: len, origin: 0 };
        if chart.has(n, done) {
            proof {
                let md = choose|md: int| 0 <= md < c[n as int].len() && c[n as int][md] == done;
                assert(row_ok(g, w, c[n as int], n as int));
                assert(item_ok(g, w, c[n as int][md], n as int));
                let rhs = g.rhs(start as int, q as int);
                assert(rhs.take(len as int) =~= rhs);
                assert(w.subrange(0, n as int) =~= w);
                let f = choose|f: Forest| #[trigger] forest_ok(g, f, rhs.take(len as int)) && forest_yield(f) == w.subrange(0, n as int);
                let t = Tree::Node { nt: start, prod: q, kids: Box::new(f) };
                assert(tree_ok(g, t, Symbol::Nonterminal(g.start)));
            }
            return true;
        }
        q += 1;
    }
    proof {
        if generates(g, w) {
            let t = choose|t: Tree| #[trigger] tree_ok(g, t, Symbol::Nonterminal(g.start)) && tree_yield(t) == w;
            if let Tree::Node { nt, prod, kids } = t {
                let seed = Item { nt: start, prod, dot: 0, origin: 0 };
                assert(c[0].contains(seed));
                let len = g.rhs(start as int, prod as int).len();
                assert(g.rhs(start as int, prod as int).subrange(0, len as int) =~= g.rhs(start as int, prod as int));
                assert(w.subrange(0, n as int) =~= w);
                lemma_complete_run(g, w, c, 0, seed, len as int, n as int, *kids);
                assert(c[n as int].contains(
                    Item { nt: start, prod: prod, dot: g.rhs(start as int, prod as int).len() as usize, origin: 0 },
                ));
            }
        }
    }
    false
}
} // verus!
