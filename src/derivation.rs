//! Derivation-tree semantics of a grammar: a word is in the language when a
//! derivation tree rooted at the start nonterminal has it as its yield.
use vstd::prelude::*;

use crate::grammar::{Grammar, Symbol};

verus! {

/// A derivation tree: a terminal leaf, or a nonterminal expanded by one of its
/// productions, with one subtree per right-hand-side symbol.
pub enum Tree {
    Leaf(u8),
    Node { nt: usize, prod: usize, kids: Box<Forest> },
}

/// An ordered list of derivation trees.
pub enum Forest {
    Nil,
    Cons(Box<Tree>, Box<Forest>),
}

/// `t` is a derivation tree of `g` for the symbol `s`.
pub open spec fn tree_ok(g: Grammar, t: Tree, s: Symbol) -> bool
    decreases t,
{
    match t {
        Tree::Leaf(b) => s == Symbol::Terminal(b),
        Tree::Node { nt, prod, kids } => {
            &&& s == Symbol::Nonterminal(nt)
            &&& nt < g.num_nonterminals()
            &&& prod < g.num_productions(nt as int)
            &&& forest_ok(g, *kids, g.rhs(nt as int, prod as int))
        },
    }
}

/// `f` holds one derivation tree for each symbol of `syms`, in order.
pub open spec fn forest_ok(g: Grammar, f: Forest, syms: Seq<Symbol>) -> bool
    decreases f,
{
    match f {
        Forest::Nil => syms.len() == 0,
        Forest::Cons(t, rest) => {
            &&& syms.len() > 0
            &&& tree_ok(g, *t, syms[0])
            &&& forest_ok(g, *rest, syms.drop_first())
        },
    }
}

/// The word spelled by the leaves of `t`, left to right.
pub open spec fn tree_yield(t: Tree) -> Seq<u8>
    decreases t,
{
    match t {
        Tree::Leaf(b) => seq![b],
        Tree::Node { kids, .. } => forest_yield(*kids),
    }
}

/// The concatenated yields of the trees of `f`.
pub open spec fn forest_yield(f: Forest) -> Seq<u8>
    decreases f,
{
    match f {
        Forest::Nil => Seq::empty(),
        Forest::Cons(t, rest) => tree_yield(*t) + forest_yield(*rest),
    }
}

/// The sequence of symbols `syms` derives the word `w`.
pub open spec fn derives_seq(g: Grammar, syms: Seq<Symbol>, w: Seq<u8>) -> bool {
    exists|f: Forest| #[trigger] forest_ok(g, f, syms) && forest_yield(f) == w
}

/// `w` is in the language of `g`: some derivation tree for the start
/// nonterminal yields it.
pub open spec fn generates(g: Grammar, w: Seq<u8>) -> bool {
    exists|t: Tree| #[trigger] tree_ok(g, t, Symbol::Nonterminal(g.start)) && tree_yield(t) == w
}

/// `f` with `t` appended at its end.
pub open spec fn forest_push(f: Forest, t: Tree) -> Forest
    decreases f,
{
    match f {
        Forest::Nil => Forest::Cons(Box::new(t), Box::new(Forest::Nil)),
        Forest::Cons(h, rest) => Forest::Cons(h, Box::new(forest_push(*rest, t))),
    }
}

/// Appending a tree for `s` to a forest for `syms` gives a forest for
/// `syms.push(s)`, whose yield is extended by the tree's yield.
pub proof fn lemma_forest_push(g: Grammar, f: Forest, syms: Seq<Symbol>, t: Tree, s: Symbol)
    requires
        forest_ok(g, f, syms),
        tree_ok(g, t, s),
    ensures
        forest_ok(g, forest_push(f, t), syms.push(s)),
        forest_yield(forest_push(f, t)) == forest_yield(f) + tree_yield(t),
    decreases f,
{
    match f {
        Forest::Nil => {
            assert(syms.push(s).drop_first() =~= Seq::<Symbol>::empty());
            assert(syms.push(s)[0] == s);
            assert(forest_ok(g, Forest::Nil, syms.push(s).drop_first()));
            assert(forest_yield(forest_push(f, t)) =~= forest_yield(f) + tree_yield(t));
        },
        Forest::Cons(h, rest) => {
            lemma_forest_push(g, *rest, syms.drop_first(), t, s);
            assert(syms.push(s).drop_first() =~= syms.drop_first().push(s));
            assert(forest_yield(forest_push(f, t)) =~= forest_yield(f) + tree_yield(t));
        },
    }
}

/// Every byte that a derivation tree for `s` yields is a terminal of `g`,
/// provided `s` itself, if a terminal, is one.
proof fn lemma_tree_bytes(g: Grammar, t: Tree, s: Symbol)
    requires
        tree_ok(g, t, s),
        s matches Symbol::Terminal(b) ==> g.has_terminal(b),
    ensures
        forall|k: int| 0 <= k < tree_yield(t).len() ==> g.has_terminal(#[trigger] tree_yield(t)[k]),
    decreases t,
{
    match t {
        Tree::Leaf(b) => {
            assert(tree_yield(t) == seq![b]);
        },
        Tree::Node { nt, prod, kids } => {
            let rhs = g.rhs(nt as int, prod as int);
            assert forall|k: int| 0 <= k < rhs.len() && (#[trigger] rhs[k] matches Symbol::Terminal(b)) implies g.has_terminal(
                rhs[k]->Terminal_0,
            ) by {
                assert(g.rhs(nt as int, prod as int)[k] == Symbol::Terminal(rhs[k]->Terminal_0));
            }
            lemma_forest_bytes(g, *kids, rhs);
            assert(tree_yield(t) == forest_yield(*kids));
        },
    }
}

proof fn lemma_forest_bytes(g: Grammar, f: Forest, syms: Seq<Symbol>)
    requires
        forest_ok(g, f, syms),
        forall|k: int| 0 <= k < syms.len() && (#[trigger] syms[k] matches Symbol::Terminal(b)) ==> g.has_terminal(
            syms[k]->Terminal_0,
        ),
    ensures
        forall|k: int| 0 <= k < forest_yield(f).len() ==> g.has_terminal(#[trigger] forest_yield(f)[k]),
    decreases f,
{
    match f {
        Forest::Nil => {},
        Forest::Cons(t, rest) => {
            if let Symbol::Terminal(b) = syms[0] {
                assert(g.has_terminal(syms[0]->Terminal_0));
            }
            lemma_tree_bytes(g, *t, syms[0]);
            assert forall|k: int| 0 <= k < syms.drop_first().len() && (#[trigger] syms.drop_first()[k] matches Symbol::Terminal(b)) implies g.has_terminal(
                syms.drop_first()[k]->Terminal_0,
            ) by {
                assert(syms.drop_first()[k] == syms[k + 1]);
            }
            lemma_forest_bytes(g, *rest, syms.drop_first());
            let y = forest_yield(f);
            let ty = tree_yield(*t);
            assert forall|k: int| 0 <= k < y.len() implies g.has_terminal(#[trigger] y[k]) by {
                if k < ty.len() {
                    assert(y[k] == ty[k]);
                } else {
                    assert(y[k] == forest_yield(*rest)[k - ty.len()]);
                }
            }
        },
    }
}

/// A word that holds a byte occurring in no production of `g` is not in
/// the language of `g`.
pub proof fn lemma_foreign_byte_not_generated(g: Grammar, w: Seq<u8>, i: int)
    requires
        0 <= i < w.len(),
        !g.has_terminal(w[i]),
    ensures
        !generates(g, w),
{
    if generates(g, w) {
        let t = choose|t: Tree| #[trigger] tree_ok(g, t, Symbol::Nonterminal(g.start)) && tree_yield(t) == w;
        lemma_tree_bytes(g, t, Symbol::Nonterminal(g.start));
        assert(g.has_terminal(tree_yield(t)[i]));
    }
}

/// Whether a tree is a derivation tree depends only on the start symbol
/// and the productions.
proof fn lemma_tree_same_rules(g1: Grammar, g2: Grammar, t: Tree, s: Symbol)
    requires
        same_rules(g1, g2),
    ensures
        tree_ok(g1, t, s) == tree_ok(g2, t, s),
    decreases t,
{
    if let Tree::Node { nt, prod, kids } = t {
        if nt < g1.num_nonterminals() && prod < g1.num_productions(nt as int) {
            assert(g1.rhs(nt as int, prod as int) == g2.rhs(nt as int, prod as int));
            lemma_forest_same_rules(g1, g2, *kids, g1.rhs(nt as int, prod as int));
        }
    }
}

proof fn lemma_forest_same_rules(g1: Grammar, g2: Grammar, f: Forest, syms: Seq<Symbol>)
    requires
        same_rules(g1, g2),
    ensures
        forest_ok(g1, f, syms) == forest_ok(g2, f, syms),
    decreases f,
{
    if let Forest::Cons(t, rest) = f {
        if syms.len() > 0 {
            lemma_tree_same_rules(g1, g2, *t, syms[0]);
            lemma_forest_same_rules(g1, g2, *rest, syms.drop_first());
        }
    }
}

/// `g1` and `g2` have the same start symbol and the same productions.
pub open spec fn same_rules(g1: Grammar, g2: Grammar) -> bool {
    &&& g1.start == g2.start
    &&& g1.num_nonterminals() == g2.num_nonterminals()
    &&& forall|a: int| 0 <= a < g1.num_nonterminals() ==> #[trigger] g1.num_productions(a) == g2.num_productions(a)
    &&& forall|a: int, p: int|
        0 <= a < g1.num_nonterminals() && 0 <= p < g1.num_productions(a) ==> #[trigger] g1.rhs(a, p)
            == g2.rhs(a, p)
}

/// Grammars with the same start symbol and productions generate the same words.
pub proof fn lemma_same_rules_same_language(g1: Grammar, g2: Grammar, w: Seq<u8>)
    requires
        same_rules(g1, g2),
    ensures
        generates(g1, w) == generates(g2, w),
{
    if generates(g1, w) {
        let t = choose|t: Tree| #[trigger] tree_ok(g1, t, Symbol::Nonterminal(g1.start)) && tree_yield(t) == w;
        lemma_tree_same_rules(g1, g2, t, Symbol::Nonterminal(g1.start));
    }
    if generates(g2, w) {
        let t = choose|t: Tree| #[trigger] tree_ok(g2, t, Symbol::Nonterminal(g2.start)) && tree_yield(t) == w;
        lemma_tree_same_rules(g1, g2, t, Symbol::Nonterminal(g2.start));
    }
}

/// The first `n` trees of `f`.
pub open spec fn forest_take(f: Forest, n: nat) -> Forest
    decreases n,
{
    if n == 0 {
        Forest::Nil
    } else {
        match f {
            Forest::Nil => Forest::Nil,
            Forest::Cons(t, rest) => Forest::Cons(t, Box::new(forest_take(*rest, (n - 1) as nat))),
        }
    }
}

/// `f` without its first `n` trees.
pub open spec fn forest_skip(f: Forest, n: nat) -> Forest
    decreases n,
{
    if n == 0 {
        f
    } else {
        match f {
            Forest::Nil => Forest::Nil,
            Forest::Cons(_, rest) => forest_skip(*rest, (n - 1) as nat),
        }
    }
}

/// The trees of `f1` followed by those of `f2`.
pub open spec fn forest_append(f1: Forest, f2: Forest) -> Forest
    decreases f1,
{
    match f1 {
        Forest::Nil => f2,
        Forest::Cons(t, rest) => Forest::Cons(t, Box::new(forest_append(*rest, f2))),
    }
}

/// A forest for `syms` splits into forests for its first `n` symbols and for
/// the rest, whose yields make up the whole yield.
pub proof fn lemma_forest_split(g: Grammar, f: Forest, syms: Seq<Symbol>, n: nat)
    requires
        forest_ok(g, f, syms),
        n <= syms.len(),
    ensures
        forest_ok(g, forest_take(f, n), syms.take(n as int)),
        forest_ok(g, forest_skip(f, n), syms.skip(n as int)),
        forest_yield(f) == forest_yield(forest_take(f, n)) + forest_yield(forest_skip(f, n)),
    decreases n,
{
    if n == 0 {
        assert(syms.take(0) =~= Seq::<Symbol>::empty());
        assert(syms.skip(0) =~= syms);
        assert(forest_yield(f) =~= Seq::<u8>::empty() + forest_yield(f));
    } else {
        if let Forest::Cons(t, rest) = f {
            let tail = syms.drop_first();
            lemma_forest_split(g, *rest, tail, (n - 1) as nat);
            assert(syms.take(n as int).drop_first() =~= tail.take(n - 1));
            assert(syms.take(n as int)[0] == syms[0]);
            assert(syms.skip(n as int) =~= tail.skip(n - 1));
            assert(forest_yield(f) =~= forest_yield(forest_take(f, n)) + forest_yield(forest_skip(f, n)));
        }
    }
}

/// Forests for two symbol sequences join into a forest for their concatenation.
pub proof fn lemma_forest_append(g: Grammar, f1: Forest, s1: Seq<Symbol>, f2: Forest, s2: Seq<Symbol>)
    requires
        forest_ok(g, f1, s1),
        forest_ok(g, f2, s2),
    ensures
        forest_ok(g, forest_append(f1, f2), s1 + s2),
        forest_yield(forest_append(f1, f2)) == forest_yield(f1) + forest_yield(f2),
    decreases f1,
{
    match f1 {
        Forest::Nil => {
            assert(s1 + s2 =~= s2);
            assert(forest_yield(f1) + forest_yield(f2) =~= forest_yield(f2));
        },
        Forest::Cons(t, rest) => {
            lemma_forest_append(g, *rest, s1.drop_first(), f2, s2);
            assert((s1 + s2).drop_first() =~= s1.drop_first() + s2);
            assert((s1 + s2)[0] == s1[0]);
            assert(forest_yield(forest_append(f1, f2)) =~= forest_yield(f1) + forest_yield(f2));
        },
    }
}

/// Replacing a nonterminal by one of its productions is a derivation step:
/// whatever the rewritten form derives, the form before the step derives too.
pub proof fn lemma_expand_step(
    g: Grammar,
    pre: Seq<Symbol>,
    x: usize,
    p: usize,
    post: Seq<Symbol>,
    w: Seq<u8>,
)
    requires
        x < g.num_nonterminals(),
        p < g.num_productions(x as int),
        derives_seq(g, pre + g.rhs(x as int, p as int) + post, w),
    ensures
        derives_seq(g, pre + seq![Symbol::Nonterminal(x)] + post, w),
{
    let rhs = g.rhs(x as int, p as int);
    let whole = pre + rhs + post;
    let f = choose|f: Forest| #[trigger] forest_ok(g, f, whole) && forest_yield(f) == w;
    lemma_forest_split(g, f, whole, pre.len());
    assert(whole.take(pre.len() as int) =~= pre);
    assert(whole.skip(pre.len() as int) =~= rhs + post);
    let f1 = forest_take(f, pre.len());
    let fr = forest_skip(f, pre.len());
    lemma_forest_split(g, fr, rhs + post, rhs.len());
    assert((rhs + post).take(rhs.len() as int) =~= rhs);
    assert((rhs + post).skip(rhs.len() as int) =~= post);
    let f2 = forest_take(fr, rhs.len());
    let f3 = forest_skip(fr, rhs.len());
    let node = Tree::Node { nt: x, prod: p, kids: Box::new(f2) };
    assert(tree_ok(g, node, Symbol::Nonterminal(x)));
    let mid = Forest::Cons(Box::new(node), Box::new(Forest::Nil));
    let one = seq![Symbol::Nonterminal(x)];
    assert(one.drop_first() =~= Seq::<Symbol>::empty());
    assert(forest_ok(g, Forest::Nil, one.drop_first()));
    assert(one[0] == Symbol::Nonterminal(x));
    assert(forest_ok(g, mid, one));
    assert(tree_yield(node) == forest_yield(f2));
    assert(forest_yield(Forest::Nil) =~= Seq::<u8>::empty());
    assert(forest_yield(mid) =~= forest_yield(f2));
    lemma_forest_append(g, f1, pre, mid, one);
    lemma_forest_append(g, forest_append(f1, mid), pre + one, f3, post);
    let joined = forest_append(forest_append(f1, mid), f3);
    assert(forest_yield(joined) =~= w);
    assert(forest_ok(g, joined, pre + one + post));
}

/// A form of terminals only derives the word they spell.
pub proof fn lemma_terminal_form(g: Grammar, form: Seq<Symbol>, w: Seq<u8>)
    requires
        form.len() == w.len(),
        forall|k: int| 0 <= k < form.len() ==> #[trigger] form[k] == Symbol::Terminal(w[k]),
    ensures
        derives_seq(g, form, w),
    decreases form.len(),
{
    if form.len() == 0 {
        assert(forest_ok(g, Forest::Nil, form));
        assert(forest_yield(Forest::Nil) =~= w);
    } else {
        let rest = form.drop_first();
        assert forall|k: int| 0 <= k < rest.len() implies #[trigger] rest[k] == Symbol::Terminal(w.drop_first()[k]) by {
            assert(rest[k] == form[k + 1]);
        }
        lemma_terminal_form(g, rest, w.drop_first());
        let fr = choose|f: Forest| #[trigger] forest_ok(g, f, rest) && forest_yield(f) == w.drop_first();
        let leaf = Tree::Leaf(w[0]);
        assert(form[0] == Symbol::Terminal(w[0]));
        let f = Forest::Cons(Box::new(leaf), Box::new(fr));
        assert(tree_ok(g, leaf, form[0]));
        assert(rest == form.drop_first());
        assert(forest_ok(g, fr, form.drop_first()));
        assert(forest_ok(g, f, form));
        assert(tree_yield(leaf) == seq![w[0]]);
        assert(forest_yield(f) =~= w);
    }
}

} // verus!
