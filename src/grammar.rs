//! Grammar symbols and compiled grammars.
use vstd::prelude::*;

verus! {

/// A grammar symbol: a nonterminal by its id, or a single terminal byte.
#[derive(Clone, Copy, Debug, PartialEq, Eq, Structural)]
pub enum Symbol {
    Nonterminal(usize),
    Terminal(u8),
}

/// A compiled grammar: for each nonterminal id its ordered alternatives,
/// the start nonterminal and the sorted, deduplicated terminal alphabet.
#[derive(Debug)]
pub struct Grammar {
    pub start: usize,
    pub productions: Vec<Vec<Vec<Symbol>>>,
    pub alphabet: Vec<u8>,
}

impl Grammar {
    pub open spec fn num_nonterminals(&self) -> nat {
        self.productions@.len()
    }

    pub open spec fn num_productions(&self, a: int) -> nat {
        self.productions@[a]@.len()
    }

    /// Right-hand side of the `p`-th production of nonterminal `a`.
    pub open spec fn rhs(&self, a: int, p: int) -> Seq<Symbol> {
        self.productions@[a]@[p]@
    }

    pub open spec fn symbol_in_range(&self, s: Symbol) -> bool {
        match s {
            Symbol::Nonterminal(x) => x < self.num_nonterminals(),
            Symbol::Terminal(_) => true,
        }
    }

    /// Every referenced nonterminal has an entry, the start symbol exists,
    /// and every right-hand side's length fits in `usize`.
    pub open spec fn wf(&self) -> bool {
        &&& self.start < self.num_nonterminals()
        &&& forall|a: int, p: int|
            0 <= a < self.num_nonterminals() && 0 <= p < self.num_productions(a) ==> #[trigger] self.rhs(
                a,
                p,
            ).len() <= usize::MAX
        &&& forall|a: int, p: int, k: int|
            0 <= a < self.num_nonterminals() && 0 <= p < self.num_productions(a) && 0 <= k
                < self.rhs(a, p).len() ==> self.symbol_in_range(#[trigger] self.rhs(a, p)[k])
    }

    /// No production has an empty right-hand side.
    pub open spec fn no_empty_productions(&self) -> bool {
        forall|a: int, p: int|
            0 <= a < self.num_nonterminals() && 0 <= p < self.num_productions(a) ==> #[trigger] self.rhs(
                a,
                p,
            ).len() > 0
    }

    /// `b` occurs as a terminal in some production.
    pub open spec fn has_terminal(&self, b: u8) -> bool {
        exists|a: int, p: int, k: int|
            0 <= a < self.num_nonterminals() && 0 <= p < self.num_productions(a) && 0 <= k
                < self.rhs(a, p).len() && #[trigger] self.rhs(a, p)[k] == Symbol::Terminal(b)
    }
}

} // verus!
