//! Equivalence fuzzing of grammars: random words are derived from one
//! grammar, words outside it are made from them, and three grammars must
//! agree on every word.
use vstd::prelude::*;
use vstd::string::StringSliceAdditionalSpecFns;

use crate::compile::{
    bytes_equal, compile, compiled, copy_range, lemma_equal_tables_same_rules, table_view, CompileError,
    CompileFault,
};
use crate::derivation::{
    derives_seq, forest_ok, forest_yield, generates, lemma_expand_step, lemma_same_rules_same_language,
    lemma_terminal_form,
    tree_ok, tree_yield, Forest,
};
use crate::earley::contains;
use crate::grammar::{Grammar, Symbol};

verus! {

/// Relies on `rand::rng` and `Rng::random_range`: a value drawn from `0..n`,
/// so below `n` (the call panics on an empty range, which `requires` excludes).
#[verifier::external_body]
fn random_below(n: usize) -> (r: usize)
    requires
        n > 0,
    ensures
        r < n,
{
    rand::Rng::random_range(&mut rand::rng(), 0..n)
}

/// The limits of one fuzzing run.
pub struct Fuzzer {
    pub tests_count: usize,
    pub min_len: usize,
    pub max_len: usize,
}

/// Three grammars disagree on a word.
#[derive(Debug)]
pub struct Mismatch {
    pub index: usize,
    pub word: Vec<u8>,
    pub before: bool,
    pub after1: bool,
    pub after2: bool,
}

/// Why a fuzzing run stopped.
#[derive(Debug)]
pub enum FuzzError {
    Compile(CompileError),
    EmptyAlphabet,
    Generation { got: usize, wanted: usize },
    Mismatch(Mismatch),
}

/// What a successful run tested.
#[derive(Debug)]
pub struct FuzzReport {
    pub before: Grammar,
    pub after1: Grammar,
    pub after2: Grammar,
    pub alphabet: Vec<u8>,
    pub in_words: Vec<Vec<u8>>,
    pub out_words: Vec<Vec<u8>>,
    pub passed: usize,
}

/// The most steps one random derivation may take.
pub const MAX_STEPS: usize = 50000;

/// The most derivations tried while collecting words.
pub const MAX_ATTEMPTS: usize = 300000;

/// The byte vectors of `v` as sequences.
pub open spec fn words_of(v: Seq<Vec<u8>>) -> Seq<Seq<u8>> {
    v.map_values(|x: Vec<u8>| x@)
}

/// `w` prefixed with `cab`.
pub open spec fn out_word(w: Seq<u8>) -> Seq<u8> {
    seq![99u8, 97u8, 98u8] + w
}

/// Each word of `ws` prefixed with `cab`.
pub open spec fn out_words_of(ws: Seq<Seq<u8>>) -> Seq<Seq<u8>> {
    ws.map_values(|w: Seq<u8>| out_word(w))
}

/// The sentential form with the symbol at `pos` replaced by `rhs`.
fn rewrite_at(form: &Vec<Symbol>, pos: usize, rhs: &Vec<Symbol>) -> (r: Vec<Symbol>)
    requires
        pos < form@.len(),
    ensures
        r@ == form@.subrange(0, pos as int) + rhs@ + form@.subrange(pos + 1, form@.len() as int),
{
    let n = form.len();
    let mut r: Vec<Symbol> = Vec::new();
    let mut i: usize = 0;
    while i < pos
        invariant
            i <= pos < form@.len(),
            r@ == form@.subrange(0, i as int),
        decreases pos - i,
    {
        r.push(form[i]);
        assert(r@ =~= form@.subrange(0, i + 1));
        i += 1;
    }
    let mut k: usize = 0;
    while k < rhs.len()
        invariant
            i == pos < form@.len(),
            n == form@.len(),
            k <= rhs@.len(),
            r@ == form@.subrange(0, pos as int) + rhs@.subrange(0, k as int),
        decreases rhs@.len() - k,
    {
        r.push(rhs[k]);
        assert(r@ =~= form@.subrange(0, pos as int) + rhs@.subrange(0, k + 1));
        k += 1;
    }
    assert(rhs@.subrange(0, rhs@.len() as int) =~= rhs@);
    let mut j: usize = pos + 1;
    while j < form.len()
        invariant
            pos < j <= form@.len(),
            r@ == form@.subrange(0, pos as int) + rhs@ + form@.subrange(pos + 1, j as int),
        decreases form@.len() - j,
    {
        r.push(form[j]);
        assert(r@ =~= form@.subrange(0, pos as int) + rhs@ + form@.subrange(pos + 1, j + 1));
        j += 1;
    }
    r
}

/// Indices of the nonterminals of `form`, in order.
pub open spec fn nonterminal_positions(form: Seq<Symbol>) -> Seq<int>
    decreases form.len(),
{
    if form.len() == 0 {
        Seq::empty()
    } else {
        let ps = nonterminal_positions(form.drop_last());
        if form.last() is Nonterminal {
            ps.push(form.len() - 1)
        } else {
            ps
        }
    }
}

/// The bytes of the terminals of `form`.
pub open spec fn terminal_word(form: Seq<Symbol>) -> Seq<u8> {
    form.map_values(
        |s: Symbol|
            match s {
                Symbol::Terminal(b) => b,
                Symbol::Nonterminal(_) => 0u8,
            },
    )
}

proof fn lemma_positions(form: Seq<Symbol>)
    ensures
        forall|k: int|
            0 <= k < nonterminal_positions(form).len() ==> 0 <= #[trigger] nonterminal_positions(form)[k]
                < form.len() && form[nonterminal_positions(form)[k]] is Nonterminal,
        nonterminal_positions(form).len() == 0 ==> forall|j: int| 0 <= j < form.len() ==> #[trigger] form[j] is Terminal,
    decreases form.len(),
{
    if form.len() > 0 {
        let rest = form.drop_last();
        lemma_positions(rest);
        let ps = nonterminal_positions(form);
        assert forall|k: int| 0 <= k < ps.len() implies 0 <= #[trigger] ps[k] < form.len()
            && form[ps[k]] is Nonterminal by {
            if k < nonterminal_positions(rest).len() {
                assert(ps[k] == nonterminal_positions(rest)[k]);
                assert(form[ps[k]] == rest[ps[k]]);
            }
        }
        if ps.len() == 0 {
            assert forall|j: int| 0 <= j < form.len() implies #[trigger] form[j] is Terminal by {
                if j < rest.len() {
                    assert(form[j] == rest[j]);
                }
            }
        }
    }
}

/// What one derivation step on `form` gives, for the draws `pick` (which
/// nonterminal) and `alt` (which of its productions): the word once the form
/// holds terminals only; a stop when the form is longer than `max_form`,
/// a draw is out of range or the chosen nonterminal has no production; else
/// the form with the chosen nonterminal replaced.
pub enum DeriveStep {
    Word(Vec<u8>),
    Stop,
    Form(Vec<Symbol>),
}

pub open spec fn derive_step_ok(
    g: Grammar,
    form: Seq<Symbol>,
    pick: int,
    alt: int,
    max_form: int,
    r: DeriveStep,
) -> bool {
    let ps = nonterminal_positions(form);
    if ps.len() == 0 {
        r matches DeriveStep::Word(w) && w@ == terminal_word(form)
    } else if form.len() > max_form || pick >= ps.len() {
        r is Stop
    } else {
        let pos = ps[pick];
        let x = form[pos]->Nonterminal_0;
        if alt >= g.num_productions(x as int) {
            r is Stop
        } else {
            r matches DeriveStep::Form(f) && f@ == form.subrange(0, pos) + g.rhs(x as int, alt) + form.subrange(
                pos + 1,
                form.len() as int,
            )
        }
    }
}

/// The indices of the nonterminals of `form`.
fn positions_of(form: &Vec<Symbol>) -> (r: Vec<usize>)
    ensures
        r@.len() == nonterminal_positions(form@).len(),
        forall|k: int| 0 <= k < r@.len() ==> #[trigger] r@[k] as int == nonterminal_positions(form@)[k],
{
    let mut r: Vec<usize> = Vec::new();
    let mut i: usize = 0;
    while i < form.len()
        invariant
            i <= form@.len(),
            r@.len() == nonterminal_positions(form@.subrange(0, i as int)).len(),
            forall|k: int| 0 <= k < r@.len() ==> #[trigger] r@[k] as int == nonterminal_positions(form@.subrange(0, i as int))[k],
        decreases form@.len() - i,
    {
        assert(form@.subrange(0, i + 1).drop_last() =~= form@.subrange(0, i as int));
        assert(form@.subrange(0, i + 1).last() == form@[i as int]);
        if let Symbol::Nonterminal(_) = form[i] {
            r.push(i);
        }
        i += 1;
    }
    assert(form@.subrange(0, form@.len() as int) =~= form@);
    r
}

/// One derivation step with the draws given.
pub fn derive_step(g: &Grammar, form: &Vec<Symbol>, pick: usize, alt: usize, max_form: usize) -> (r: DeriveStep)
    requires
        g.wf(),
        forall|k: int| 0 <= k < form@.len() ==> g.symbol_in_range(#[trigger] form@[k]),
    ensures
        derive_step_ok(*g, form@, pick as int, alt as int, max_form as int, r),
{
    proof {
        lemma_positions(form@);
    }
    let positions = positions_of(form);
    if positions.len() == 0 {
        let mut word: Vec<u8> = Vec::new();
        let mut k: usize = 0;
        while k < form.len()
            invariant
                k <= form@.len(),
                word@ == terminal_word(form@).subrange(0, k as int),
                forall|j: int| 0 <= j < form@.len() ==> #[trigger] form@[j] is Terminal,
            decreases form@.len() - k,
        {
            if let Symbol::Terminal(b) = form[k] {
                word.push(b);
            }
            assert(word@ =~= terminal_word(form@).subrange(0, k + 1));
            k += 1;
        }
        assert(terminal_word(form@).subrange(0, form@.len() as int) =~= terminal_word(form@));
        return DeriveStep::Word(word);
    }
    if form.len() > max_form || pick >= positions.len() {
        return DeriveStep::Stop;
    }
    let pos = positions[pick];
    assert(pos as int == nonterminal_positions(form@)[pick as int]);
    let x = match form[pos] {
        Symbol::Nonterminal(x) => x,
        Symbol::Terminal(_) => {
            assert(false);
            0
        },
    };
    assert(g.symbol_in_range(form@[pos as int]));
    let alternatives = &g.productions[x];
    if alt >= alternatives.len() {
        return DeriveStep::Stop;
    }
    DeriveStep::Form(rewrite_at(form, pos, &alternatives[alt]))
}

/// One random derivation from the start symbol of `g`: each step draws a
/// nonterminal of the sentential form and one of its productions, and
/// `derive_step` does the rest. Gives the word, or nothing when a step
/// stops or the step budget runs out.
fn random_derivation(g: &Grammar, max_form: usize) -> (r: Option<Vec<u8>>)
    requires
        g.wf(),
    ensures
        r matches Some(w) ==> generates(*g, w@),
{
    let mut form: Vec<Symbol> = Vec::new();
    form.push(Symbol::Nonterminal(g.start));
    proof {
        assert forall|u: Seq<u8>| #[trigger] derives_seq(*g, form@, u) implies generates(*g, u) by {
            let f = choose|f: Forest| #[trigger] forest_ok(*g, f, form@) && forest_yield(f) == u;
            if let Forest::Cons(t, rest) = f {
                assert(form@[0] == Symbol::Nonterminal(g.start));
                assert(forest_ok(*g, *rest, form@.drop_first()));
                assert(form@.drop_first().len() == 0);
                assert(forest_yield(*rest) =~= Seq::<u8>::empty());
                assert(tree_yield(*t) =~= u);
                assert(tree_ok(*g, *t, Symbol::Nonterminal(g.start)));
            }
        }
    }
    let mut steps: usize = 0;
    while steps < MAX_STEPS
        invariant
            g.wf(),
            forall|k: int| 0 <= k < form@.len() ==> g.symbol_in_range(#[trigger] form@[k]),
            forall|u: Seq<u8>| #[trigger] derives_seq(*g, form@, u) ==> generates(*g, u),
        decreases MAX_STEPS - steps,
    {
        steps += 1;
        proof {
            lemma_positions(form@);
        }
        let positions = positions_of(&form);
        let mut pick: usize = 0;
        let mut alt: usize = 0;
        if positions.len() > 0 && form.len() <= max_form {
            pick = random_below(positions.len());
            let pos = positions[pick];
            assert(form@[pos as int] is Nonterminal);
            if let Symbol::Nonterminal(x) = form[pos] {
                assert(g.symbol_in_range(form@[pos as int]));
                let n = g.productions[x].len();
                if n > 0 {
                    alt = random_below(n);
                }
            }
        }
        match derive_step(g, &form, pick, alt, max_form) {
            DeriveStep::Word(w) => {
                proof {
                    assert forall|k: int| 0 <= k < form@.len() implies #[trigger] form@[k] == Symbol::Terminal(w@[k]) by {
                        assert(form@[k] is Terminal);
                    }
                    lemma_terminal_form(*g, form@, w@);
                }
                return Some(w);
            },
            DeriveStep::Stop => {
                return None;
            },
            DeriveStep::Form(next) => {
                proof {
                    let ps = nonterminal_positions(form@);
                    let pos = ps[pick as int];
                    let x = form@[pos]->Nonterminal_0;
                    let pre = form@.subrange(0, pos);
                    let post = form@.subrange(pos + 1, form@.len() as int);
                    assert(form@ =~= pre + seq![Symbol::Nonterminal(x)] + post);
                    assert(g.symbol_in_range(form@[pos]));
                    assert forall|u: Seq<u8>| #[trigger] derives_seq(*g, next@, u) implies generates(*g, u) by {
                        lemma_expand_step(*g, pre, x, alt, post, u);
                    }
                    assert forall|k: int| 0 <= k < next@.len() implies g.symbol_in_range(#[trigger] next@[k]) by {
                        let rhs = g.rhs(x as int, alt as int);
                        if k < pos {
                            assert(next@[k] == form@[k]);
                        } else if k < pos + rhs.len() {
                            assert(next@[k] == rhs[k - pos]);
                        } else {
                            assert(next@[k] == form@[k - rhs.len() + 1]);
                        }
                    }
                }
                form = next;
            },
        }
    }
    None
}

/// Whether `words` holds `w`.
fn has_word(words: &Vec<Vec<u8>>, w: &Vec<u8>) -> (r: bool)
    ensures
        r == words_of(words@).contains(w@),
{
    let mut i: usize = 0;
    while i < words.len()
        invariant
            i <= words@.len(),
            forall|j: int| 0 <= j < i ==> words_of(words@)[j] != w@,
        decreases words@.len() - i,
    {
        if bytes_equal(words[i].as_slice(), w.as_slice()) {
            assert(words_of(words@)[i as int] == w@);
            return true;
        }
        i += 1;
    }
    false
}

impl Fuzzer {
    pub fn new(tests_count: usize, min_len: usize, max_len: usize) -> (r: Fuzzer)
        ensures
            r.tests_count == tests_count,
            r.min_len == min_len,
            r.max_len == max_len,
    {
        Fuzzer { tests_count, min_len, max_len }
    }

    /// Adds the derived word `candidate`, if any, to `words` when fewer than
    /// `tests_count` words are kept, its length is between `min_len` and
    /// `max_len`, `contains` accepts it and it is not kept yet.
    pub fn keep_word(&self, g: &Grammar, words: &mut Vec<Vec<u8>>, candidate: &Option<Vec<u8>>)
        requires
            g.wf(),
            self.max_len < usize::MAX,
        ensures
            words_of(final(words)@) == keep(*self, *g, words_of(old(words)@), opt_view(*candidate)),
    {
        if words.len() >= self.tests_count {
            return;
        }
        if let Some(w) = candidate {
            if w.len() < self.min_len || w.len() > self.max_len {
                return;
            }
            if contains(g, w.as_slice()) && !has_word(words, w) {
                let copy = copy_range(w.as_slice(), 0, w.len());
                assert(w@.subrange(0, w@.len() as int) =~= w@);
                let ghost before = words@;
                words.push(copy);
                assert(words_of(words@) =~= words_of(before).push(w@));
            }
        }
    }

    /// The words that `keep_word` keeps from the derivation results, in order.
    pub fn collect_words(&self, g: &Grammar, results: &Vec<Option<Vec<u8>>>) -> (r: Vec<Vec<u8>>)
        requires
            g.wf(),
            self.max_len < usize::MAX,
        ensures
            words_of(r@) == kept(*self, *g, opts_view(results@)),
    {
        let mut words: Vec<Vec<u8>> = Vec::new();
        let mut i: usize = 0;
        assert(opts_view(results@).subrange(0, 0) =~= Seq::<Option<Seq<u8>>>::empty());
        assert(words_of(words@) =~= Seq::<Seq<u8>>::empty());
        while i < results.len()
            invariant
                g.wf(),
                self.max_len < usize::MAX,
                i <= results@.len(),
                words_of(words@) == kept(*self, *g, opts_view(results@).subrange(0, i as int)),
            decreases results@.len() - i,
        {
            assert(opts_view(results@).subrange(0, i + 1).drop_last() =~= opts_view(results@).subrange(0, i as int));
            self.keep_word(g, &mut words, &results[i]);
            i += 1;
        }
        assert(opts_view(results@).subrange(0, results@.len() as int) =~= opts_view(results@));
        words
    }

    /// Draws random derivations of `g`, at most `MAX_ATTEMPTS` of them, and
    /// keeps words with `keep_word` until `tests_count` are kept.
    pub fn generate_in_words(&self, g: &Grammar) -> (r: Result<Vec<Vec<u8>>, FuzzError>)
        requires
            g.wf(),
            self.max_len < usize::MAX,
        ensures
            exists|results: Seq<Option<Seq<u8>>>| #[trigger] generation_outcome(*self, *g, results, r),
            self.tests_count == 0 ==> r is Ok,
            r matches Ok(ws) ==> {
                &&& ws@.len() == self.tests_count
                &&& words_of(ws@).no_duplicates()
                &&& forall|i: int|
                    0 <= i < ws@.len() ==> generates(*g, #[trigger] ws@[i]@) && self.min_len
                        <= ws@[i]@.len() <= self.max_len
            },
            r matches Err(e) ==> (e matches FuzzError::Generation { got, wanted } && wanted
                == self.tests_count && got < wanted),
    {
        let max_form = if self.max_len <= usize::MAX / 4 {
            4 * self.max_len
        } else {
            usize::MAX
        };
        let mut words: Vec<Vec<u8>> = Vec::new();
        let ghost mut results: Seq<Option<Seq<u8>>> = Seq::empty();
        assert(words_of(words@) =~= Seq::<Seq<u8>>::empty());
        let mut attempts: usize = 0;
        while words.len() < self.tests_count
            invariant
                g.wf(),
                self.max_len < usize::MAX,
                attempts <= MAX_ATTEMPTS,
                results.len() == attempts,
                forall|k: int| 0 <= k < results.len() ==> (#[trigger] results[k] matches Some(w) ==> generates(*g, w)),
                words_of(words@) == kept(*self, *g, results),
            decreases MAX_ATTEMPTS - attempts,
        {
            if attempts >= MAX_ATTEMPTS {
                proof {
                    lemma_kept(*self, *g, results);
                    assert(generation_outcome(
                        *self,
                        *g,
                        results,
                        Err::<Vec<Vec<u8>>, FuzzError>(FuzzError::Generation { got: words.len(), wanted: self.tests_count }),
                    ));
                }
                return Err(FuzzError::Generation { got: words.len(), wanted: self.tests_count });
            }
            attempts += 1;
            let candidate = random_derivation(g, max_form);
            self.keep_word(g, &mut words, &candidate);
            proof {
                let old_results = results;
                results = results.push(opt_view(candidate));
                assert(results.drop_last() =~= old_results);
                assert forall|k: int| 0 <= k < results.len() implies (#[trigger] results[k] matches Some(w) ==> generates(*g, w)) by {
                    if k < old_results.len() {
                        assert(results[k] == old_results[k]);
                    }
                }
            }
        }
        proof {
            lemma_kept(*self, *g, results);
            assert(words_of(words@).len() == words@.len());
            assert(generation_outcome(*self, *g, results, Ok::<Vec<Vec<u8>>, FuzzError>(words)));
            assert forall|i: int| 0 <= i < words@.len() implies generates(*g, #[trigger] words@[i]@) && self.min_len
                <= words@[i]@.len() <= self.max_len by {
                assert(words_of(words@)[i] == words@[i]@);
            }
        }
        Ok(words)
    }
}

/// The optional byte vector as an optional sequence.
pub open spec fn opt_view(o: Option<Vec<u8>>) -> Option<Seq<u8>> {
    match o {
        Some(v) => Some(v@),
        None => None,
    }
}

pub open spec fn opts_view(v: Seq<Option<Vec<u8>>>) -> Seq<Option<Seq<u8>>> {
    v.map_values(|o: Option<Vec<u8>>| opt_view(o))
}

/// `words` after one derivation result: the word is kept when fewer than
/// `tests_count` words are kept, its length is in range, it is in the
/// language of `g` and not kept yet.
pub open spec fn keep(f: Fuzzer, g: Grammar, words: Seq<Seq<u8>>, c: Option<Seq<u8>>) -> Seq<Seq<u8>> {
    match c {
        Some(w) => if words.len() < f.tests_count && f.min_len <= w.len() <= f.max_len && generates(g, w)
            && !words.contains(w) {
            words.push(w)
        } else {
            words
        },
        None => words,
    }
}

/// The words kept from a sequence of derivation results.
pub open spec fn kept(f: Fuzzer, g: Grammar, results: Seq<Option<Seq<u8>>>) -> Seq<Seq<u8>>
    decreases results.len(),
{
    if results.len() == 0 {
        Seq::empty()
    } else {
        keep(f, g, kept(f, g, results.drop_last()), results.last())
    }
}

/// What `generate_in_words` returns after the derivation results `results`:
/// the kept words once there are `tests_count` of them, else, after
/// `MAX_ATTEMPTS` derivations, the count of kept words.
pub open spec fn generation_outcome(
    f: Fuzzer,
    g: Grammar,
    results: Seq<Option<Seq<u8>>>,
    r: Result<Vec<Vec<u8>>, FuzzError>,
) -> bool {
    &&& results.len() <= MAX_ATTEMPTS
    &&& forall|k: int| 0 <= k < results.len() ==> (#[trigger] results[k] matches Some(w) ==> generates(g, w))
    &&& match r {
        Ok(ws) => words_of(ws@) == kept(f, g, results) && ws@.len() == f.tests_count,
        Err(e) => {
            &&& results.len() == MAX_ATTEMPTS
            &&& kept(f, g, results).len() < f.tests_count
            &&& e matches FuzzError::Generation { got, wanted } && got == kept(f, g, results).len() && wanted
                == f.tests_count
        },
    }
}

/// Kept words are distinct words of `g` with lengths in range, never more
/// than `tests_count` of them.
proof fn lemma_kept(f: Fuzzer, g: Grammar, results: Seq<Option<Seq<u8>>>)
    ensures
        kept(f, g, results).len() <= f.tests_count,
        kept(f, g, results).no_duplicates(),
        forall|i: int|
            0 <= i < kept(f, g, results).len() ==> generates(g, #[trigger] kept(f, g, results)[i])
                && f.min_len <= kept(f, g, results)[i].len() <= f.max_len,
    decreases results.len(),
{
    if results.len() > 0 {
        lemma_kept(f, g, results.drop_last());
        let before = kept(f, g, results.drop_last());
        let after = kept(f, g, results);
        if after != before {
            let w = results.last()->Some_0;
            assert(after == before.push(w));
            assert forall|a: int, b: int| 0 <= a < after.len() && 0 <= b < after.len() && a != b implies after[a]
                != after[b] by {
                if a < before.len() && b < before.len() {
                } else if a == before.len() {
                    assert(after[b] == before[b]);
                    assert(before.contains(before[b]));
                } else {
                    assert(after[a] == before[a]);
                    assert(before.contains(before[a]));
                }
            }
            assert forall|i: int| 0 <= i < after.len() implies generates(g, #[trigger] after[i]) && f.min_len
                <= after[i].len() <= f.max_len by {
                if i < before.len() {
                    assert(after[i] == before[i]);
                }
            }
        }
    }
}

/// `b` occurs in one of the byte lists.
pub open spec fn listed(lists: Seq<Vec<u8>>, b: u8) -> bool {
    exists|i: int| 0 <= i < lists.len() && #[trigger] lists[i]@.contains(b)
}

impl Fuzzer {
    /// Each word prefixed with `cab`.
    pub fn generate_out_words(&self, in_words: &Vec<Vec<u8>>) -> (r: Vec<Vec<u8>>)
        ensures
            words_of(r@) == out_words_of(words_of(in_words@)),
    {
        let mut out: Vec<Vec<u8>> = Vec::new();
        let mut i: usize = 0;
        while i < in_words.len()
            invariant
                i <= in_words@.len(),
                words_of(out@) == words_of(in_words@).subrange(0, i as int).map_values(
                    |w: Seq<u8>| out_word(w),
                ),
            decreases in_words@.len() - i,
        {
            let word = &in_words[i];
            let mut o: Vec<u8> = Vec::new();
            o.push(99u8);
            o.push(97u8);
            o.push(98u8);
            let mut k: usize = 0;
            while k < word.len()
                invariant
                    k <= word@.len(),
                    o@ == seq![99u8, 97u8, 98u8] + word@.subrange(0, k as int),
                decreases word@.len() - k,
            {
                o.push(word[k]);
                assert(o@ =~= seq![99u8, 97u8, 98u8] + word@.subrange(0, k + 1));
                k += 1;
            }
            assert(word@.subrange(0, word@.len() as int) =~= word@);
            let ghost before = out@;
            out.push(o);
            assert(words_of(out@) =~= out_words_of(words_of(in_words@).subrange(0, i + 1))) by {
                assert(words_of(out@) =~= words_of(before).push(o@));
                assert(words_of(in_words@)[i as int] == word@);
            }
            i += 1;
        }
        assert(words_of(in_words@).subrange(0, in_words@.len() as int) =~= words_of(in_words@));
        out
    }

    /// The sorted union of the byte lists; fails when it is empty.
    pub fn merge_alphabet(&self, lists: &Vec<Vec<u8>>) -> (r: Result<Vec<u8>, FuzzError>)
        ensures
            (exists|b: u8| listed(lists@, b)) <==> r is Ok,
            r matches Err(e) ==> e is EmptyAlphabet,
            r matches Ok(a) ==> (forall|i: int, j: int| 0 <= i < j < a@.len() ==> a@[i] < a@[j]) && (
            forall|b: u8| a@.contains(b) <==> listed(lists@, b)),
    {
        let mut seen: Vec<bool> = Vec::new();
        let mut b: usize = 0;
        while b < 256
            invariant
                b <= 256,
                seen@.len() == b,
                forall|x: int| 0 <= x < b ==> !seen@[x],
            decreases 256 - b,
        {
            seen.push(false);
            b += 1;
        }
        let mut i: usize = 0;
        while i < lists.len()
            invariant
                seen@.len() == 256,
                i <= lists@.len(),
                forall|x: u8| #[trigger] seen@[x as int] == exists|j: int| 0 <= j < i && #[trigger] lists@[j]@.contains(x),
            decreases lists@.len() - i,
        {
            let list = &lists[i];
            let ghost at_i = seen@;
            let mut k: usize = 0;
            while k < list.len()
                invariant
                    seen@.len() == 256,
                    at_i.len() == 256,
                    i < lists@.len(),
                    list == &lists@[i as int],
                    k <= list@.len(),
                    forall|x: u8| #[trigger] at_i[x as int] == exists|j: int| 0 <= j < i && #[trigger] lists@[j]@.contains(x),
                    forall|x: u8| #[trigger] seen@[x as int] == (at_i[x as int] || exists|m: int| 0 <= m < k && list@[m] == x),
                decreases list@.len() - k,
            {
                let t = list[k];
                let ghost before = seen@;
                seen.set(t as usize, true);
                assert forall|x: u8| #[trigger] seen@[x as int] == (at_i[x as int] || exists|m: int| 0 <= m < k + 1 && list@[m] == x) by {
                    if x == t {
                        assert(list@[k as int] == x);
                    } else {
                        assert(seen@[x as int] == before[x as int]);
                        if exists|m: int| 0 <= m < k + 1 && list@[m] == x {
                            let m = choose|m: int| 0 <= m < k + 1 && list@[m] == x;
                            assert(m < k);
                        }
                    }
                }
                k += 1;
            }
            assert forall|x: u8| #[trigger] seen@[x as int] == exists|j: int| 0 <= j < i + 1 && #[trigger] lists@[j]@.contains(x) by {
                if exists|m: int| 0 <= m < list@.len() && list@[m] == x {
                    assert(lists@[i as int]@.contains(x));
                }
                if lists@[i as int]@.contains(x) {
                    let m = choose|m: int| 0 <= m < list@.len() && list@[m] == x;
                }
                if exists|j: int| 0 <= j < i + 1 && #[trigger] lists@[j]@.contains(x) {
                    let j = choose|j: int| 0 <= j < i + 1 && #[trigger] lists@[j]@.contains(x);
                    if j == i {
                        let m = choose|m: int| 0 <= m < list@.len() && list@[m] == x;
                    }
                }
            }
            i += 1;
        }
        let mut r: Vec<u8> = Vec::new();
        let mut x: usize = 0;
        while x < 256
            invariant
                seen@.len() == 256,
                x <= 256,
                forall|i: int, j: int| 0 <= i < j < r@.len() ==> r@[i] < r@[j],
                forall|i: int| 0 <= i < r@.len() ==> r@[i] < x,
                forall|y: u8| r@.contains(y) <==> (y < x && seen@[y as int]),
            decreases 256 - x,
        {
            if seen[x] {
                let ghost before = r@;
                r.push(x as u8);
                assert forall|y: u8| r@.contains(y) <==> (y < x + 1 && seen@[y as int]) by {
                    if r@.contains(y) {
                        let i = choose|i: int| 0 <= i < r@.len() && r@[i] == y;
                        if i < before.len() {
                            assert(before[i] == y);
                        }
                    }
                    if y < x + 1 && seen@[y as int] {
                        if y < x {
                            let i = choose|i: int| 0 <= i < before.len() && before[i] == y;
                            assert(r@[i] == y);
                        } else {
                            assert(r@[before.len() as int] == y);
                        }
                    }
                }
            } else {
                assert forall|y: u8| r@.contains(y) <==> (y < x + 1 && seen@[y as int]) by {
                    if y == x {
                        if r@.contains(y) {
                            let i = choose|i: int| 0 <= i < r@.len() && r@[i] == y;
                        }
                    }
                }
            }
            x += 1;
        }
        assert forall|y: u8| r@.contains(y) <==> listed(lists@, y) by {
            assert(seen@[y as int] == listed(lists@, y));
        }
        if r.len() == 0 {
            assert forall|y: u8| !listed(lists@, y) by {
                if listed(lists@, y) {
                    assert(r@.contains(y));
                }
            }
            return Err(FuzzError::EmptyAlphabet);
        }
        assert(r@.contains(r@[0]));
        Ok(r)
    }
}

/// The three grammars give the same verdict on `w`.
pub open spec fn agree_on(before: Grammar, after1: Grammar, after2: Grammar, w: Seq<u8>) -> bool {
    generates(before, w) == generates(after1, w) && generates(before, w) == generates(after2, w)
}

/// `m` reports the first word of `words` on which the grammars disagree,
/// with each grammar's verdict on it.
pub open spec fn first_mismatch(
    before: Grammar,
    after1: Grammar,
    after2: Grammar,
    words: Seq<Seq<u8>>,
    m: Mismatch,
) -> bool {
    &&& m.index < words.len()
    &&& m.word@ == words[m.index as int]
    &&& !agree_on(before, after1, after2, m.word@)
    &&& forall|j: int| 0 <= j < m.index ==> agree_on(before, after1, after2, #[trigger] words[j])
    &&& m.before == generates(before, m.word@)
    &&& m.after1 == generates(after1, m.word@)
    &&& m.after2 == generates(after2, m.word@)
}

/// The first word, in order, on which the three grammars' verdicts differ.
pub fn find_mismatch(before: &Grammar, after1: &Grammar, after2: &Grammar, words: &Vec<Vec<u8>>) -> (r: Option<Mismatch>)
    requires
        before.wf(),
        after1.wf(),
        after2.wf(),
        forall|i: int| 0 <= i < words@.len() ==> (#[trigger] words@[i])@.len() < usize::MAX,
    ensures
        r matches Some(m) ==> first_mismatch(*before, *after1, *after2, words_of(words@), m),
        r is None <==> forall|j: int|
            0 <= j < words@.len() ==> agree_on(*before, *after1, *after2, #[trigger] words_of(words@)[j]),
{
    let mut i: usize = 0;
    while i < words.len()
        invariant
            before.wf(),
            after1.wf(),
            after2.wf(),
            forall|i: int| 0 <= i < words@.len() ==> (#[trigger] words@[i])@.len() < usize::MAX,
            i <= words@.len(),
            forall|j: int| 0 <= j < i ==> agree_on(*before, *after1, *after2, #[trigger] words_of(words@)[j]),
        decreases words@.len() - i,
    {
        let word = words[i].as_slice();
        assert(words@[i as int]@.len() < usize::MAX);
        assert(words_of(words@)[i as int] == word@);
        let b = contains(before, word);
        let a1 = contains(after1, word);
        let a2 = contains(after2, word);
        if !(b == a1 && b == a2) {
            let copy = copy_range(word, 0, word.len());
            assert(word@.subrange(0, word@.len() as int) =~= word@);
            let m = Mismatch { index: i, word: copy, before: b, after1: a1, after2: a2 };
            assert(first_mismatch(*before, *after1, *after2, words_of(words@), m));
            return Some(m);
        }
        i += 1;
    }
    None
}

/// What a report says about the grammars and words it covers.
pub open spec fn report_words_ok(
    before: Grammar,
    after1: Grammar,
    after2: Grammar,
    in_words: Seq<Seq<u8>>,
    rep: FuzzReport,
) -> bool {
    &&& rep.before == before
    &&& rep.after1 == after1
    &&& rep.after2 == after2
    &&& words_of(rep.in_words@) == in_words
    &&& words_of(rep.out_words@) == out_words_of(in_words)
    &&& rep.passed == 2 * in_words.len()
    &&& forall|j: int|
        0 <= j < in_words.len() ==> agree_on(before, after1, after2, #[trigger] in_words[j]) && agree_on(
            before,
            after1,
            after2,
            out_words_of(in_words)[j],
        )
}

/// `v` is the verdict, on `w`, of every grammar that compiling `text` gives.
pub open spec fn verdict_of(text: Seq<u8>, one_alt_per_line: bool, w: Seq<u8>, v: bool) -> bool {
    forall|g: Grammar|
        compiled(text, one_alt_per_line) == Ok::<(int, Seq<Seq<Seq<Symbol>>>), CompileFault>(
            (g.start as int, table_view(g.productions@)),
        ) ==> #[trigger] generates(g, w) == v
}

/// The first compile failure among the three texts, in order.
pub open spec fn first_compile_fault(before_text: Seq<u8>, after1_text: Seq<u8>, after2_text: Seq<u8>) -> Option<
    CompileFault,
> {
    match compiled(before_text, false) {
        Err(f) => Some(f),
        Ok(_) => match compiled(after1_text, true) {
            Err(f) => Some(f),
            Ok(_) => match compiled(after2_text, true) {
                Err(f) => Some(f),
                Ok(_) => None,
            },
        },
    }
}

/// What a run of `fuzzer` on the three grammar texts returns.
pub open spec fn run_outcome(
    fuzzer: Fuzzer,
    before_text: Seq<u8>,
    after1_text: Seq<u8>,
    after2_text: Seq<u8>,
    r: Result<FuzzReport, FuzzError>,
) -> bool {
    let fault = first_compile_fault(before_text, after1_text, after2_text);
    &&& (r matches Err(FuzzError::Compile(e))) == (fault is Some)
    &&& r matches Err(FuzzError::Compile(e)) ==> fault == Some(e.fault())
    &&& !(r matches Err(FuzzError::EmptyAlphabet))
    &&& (fuzzer.tests_count == 0 && fault is None) ==> r is Ok
    &&& r matches Err(FuzzError::Generation { got, wanted }) ==> wanted == fuzzer.tests_count && got < wanted
        && exists|g: Grammar, results: Seq<Option<Seq<u8>>>|
        compiled(before_text, false) == Ok::<(int, Seq<Seq<Seq<Symbol>>>), CompileFault>(
            (g.start as int, table_view(g.productions@)),
        ) && results.len() == MAX_ATTEMPTS && #[trigger] kept(fuzzer, g, results).len() == got
    &&& r matches Err(FuzzError::Mismatch(m)) ==> {
        &&& m.index < 2 * fuzzer.tests_count
        &&& !(m.before == m.after1 && m.before == m.after2)
        &&& verdict_of(before_text, false, m.word@, m.before)
        &&& verdict_of(after1_text, true, m.word@, m.after1)
        &&& verdict_of(after2_text, true, m.word@, m.after2)
        &&& m.index < fuzzer.tests_count ==> m.before
    }
    &&& r matches Ok(rep) ==> {
        &&& rep.in_words@.len() == fuzzer.tests_count
        &&& compiled(before_text, false) == Ok::<(int, Seq<Seq<Seq<Symbol>>>), CompileFault>(
            (rep.before.start as int, table_view(rep.before.productions@)),
        )
        &&& compiled(after1_text, true) == Ok::<(int, Seq<Seq<Seq<Symbol>>>), CompileFault>(
            (rep.after1.start as int, table_view(rep.after1.productions@)),
        )
        &&& compiled(after2_text, true) == Ok::<(int, Seq<Seq<Seq<Symbol>>>), CompileFault>(
            (rep.after2.start as int, table_view(rep.after2.productions@)),
        )
        &&& forall|i: int| 0 <= i < rep.in_words@.len() ==> generates(rep.before, #[trigger] rep.in_words@[i]@)
        &&& report_words_ok(rep.before, rep.after1, rep.after2, words_of(rep.in_words@), rep)
    }
}

/// A grammar that compiling `text` gives has verdict `generates(g, w)` on `w`.
proof fn lemma_verdict(text: Seq<u8>, one_alt_per_line: bool, g: Grammar, w: Seq<u8>)
    requires
        compiled(text, one_alt_per_line) == Ok::<(int, Seq<Seq<Seq<Symbol>>>), CompileFault>(
            (g.start as int, table_view(g.productions@)),
        ),
    ensures
        verdict_of(text, one_alt_per_line, w, generates(g, w)),
{
    assert forall|h: Grammar|
        compiled(text, one_alt_per_line) == Ok::<(int, Seq<Seq<Seq<Symbol>>>), CompileFault>(
            (h.start as int, table_view(h.productions@)),
        ) implies #[trigger] generates(h, w) == generates(g, w) by {
        lemma_equal_tables_same_rules(h, g);
        lemma_same_rules_same_language(h, g, w);
    }
}

/// The words of `a` followed by those of `b`.
fn join_words(a: &Vec<Vec<u8>>, b: &Vec<Vec<u8>>) -> (r: Vec<Vec<u8>>)
    requires
        forall|j: int| 0 <= j < a@.len() ==> (#[trigger] a@[j])@.len() < usize::MAX,
        forall|j: int| 0 <= j < b@.len() ==> (#[trigger] b@[j])@.len() < usize::MAX,
    ensures
        r@.len() == a@.len() + b@.len(),
        forall|j: int| 0 <= j < a@.len() ==> (#[trigger] r@[j])@ == a@[j]@,
        forall|j: int| 0 <= j < b@.len() ==> (#[trigger] r@[a@.len() + j])@ == b@[j]@,
        forall|j: int| 0 <= j < r@.len() ==> (#[trigger] r@[j])@.len() < usize::MAX,
{
    let mut r: Vec<Vec<u8>> = Vec::new();
    let mut i: usize = 0;
    while i < a.len()
        invariant
            i <= a@.len(),
            r@.len() == i,
            forall|j: int| 0 <= j < a@.len() ==> (#[trigger] a@[j])@.len() < usize::MAX,
            forall|j: int| 0 <= j < i ==> (#[trigger] r@[j])@ == a@[j]@,
        decreases a@.len() - i,
    {
        let w = &a[i];
        let copy = copy_range(w.as_slice(), 0, w.len());
        assert(w@.subrange(0, w@.len() as int) =~= w@);
        r.push(copy);
        i += 1;
    }
    let mut i: usize = 0;
    while i < b.len()
        invariant
            i <= b@.len(),
            r@.len() == a@.len() + i,
            forall|j: int| 0 <= j < a@.len() ==> (#[trigger] a@[j])@.len() < usize::MAX,
            forall|j: int| 0 <= j < b@.len() ==> (#[trigger] b@[j])@.len() < usize::MAX,
            forall|j: int| 0 <= j < a@.len() ==> (#[trigger] r@[j])@ == a@[j]@,
            forall|j: int| 0 <= j < i ==> (#[trigger] r@[a@.len() + j])@ == b@[j]@,
        decreases b@.len() - i,
    {
        let w = &b[i];
        let copy = copy_range(w.as_slice(), 0, w.len());
        assert(w@.subrange(0, w@.len() as int) =~= w@);
        let ghost before = r@;
        r.push(copy);
        assert forall|j: int| 0 <= j < a@.len() implies (#[trigger] r@[j])@ == a@[j]@ by {
            assert(r@[j] == before[j]);
        }
        assert forall|j: int| 0 <= j < i + 1 implies (#[trigger] r@[a@.len() + j])@ == b@[j]@ by {
            if j < i {
                assert(r@[a@.len() + j] == before[a@.len() + j]);
            }
        }
        i += 1;
    }
    assert forall|j: int| 0 <= j < r@.len() implies (#[trigger] r@[j])@.len() < usize::MAX by {
        if j < a@.len() {
            assert(r@[j]@ == a@[j]@);
        } else {
            assert(r@[a@.len() + (j - a@.len())]@ == b@[j - a@.len()]@);
        }
    }
    r
}

impl Fuzzer {
    /// Compiles the grammar texts (the first with several alternatives per
    /// line, the others with one), collects words of the first grammar and
    /// words made from them outside it, and checks that all three grammars
    /// agree on every word.
    pub fn fuzz_equivalence(&self, before_text: &str, after1_text: &str, after2_text: &str) -> (r: Result<
        FuzzReport,
        FuzzError,
    >)
        requires
            self.max_len < usize::MAX - 3,
        ensures
            run_outcome(*self, before_text.spec_bytes(), after1_text.spec_bytes(), after2_text.spec_bytes(), r),
    {
        let before = match compile(before_text, false) {
            Ok(g) => g,
            Err(e) => return Err(FuzzError::Compile(e)),
        };
        let after1 = match compile(after1_text, true) {
            Ok(g) => g,
            Err(e) => return Err(FuzzError::Compile(e)),
        };
        let after2 = match compile(after2_text, true) {
            Ok(g) => g,
            Err(e) => return Err(FuzzError::Compile(e)),
        };
        let mut lists: Vec<Vec<u8>> = Vec::new();
        lists.push(copy_range(before.alphabet.as_slice(), 0, before.alphabet.len()));
        lists.push(copy_range(after1.alphabet.as_slice(), 0, after1.alphabet.len()));
        lists.push(copy_range(after2.alphabet.as_slice(), 0, after2.alphabet.len()));
        assert(lists@[0]@ == before.alphabet@.subrange(0, before.alphabet@.len() as int));
        assert(lists@[0]@[0] == before.alphabet@[0]);
        assert(lists@[0]@.contains(before.alphabet@[0]));
        assert(listed(lists@, before.alphabet@[0]));
        let alphabet = match self.merge_alphabet(&lists) {
            Ok(a) => a,
            Err(e) => return Err(e),
        };
        let in_words = match self.generate_in_words(&before) {
            Ok(w) => w,
            Err(e) => {
                proof {
                    let results = choose|results: Seq<Option<Seq<u8>>>| #[trigger] generation_outcome(
                        *self,
                        before,
                        results,
                        Err::<Vec<Vec<u8>>, FuzzError>(e),
                    );
                    assert(generation_outcome(*self, before, results, Err::<Vec<Vec<u8>>, FuzzError>(e)));
                }
                return Err(e);
            },
        };
        let ghost iw = words_of(in_words@);
        let r = self.check_words(before, after1, after2, alphabet, in_words);
        proof {
            if r is Err && r->Err_0 is Mismatch {
                let m = r->Err_0->Mismatch_0;
                lemma_verdict(before_text.spec_bytes(), false, before, m.word@);
                lemma_verdict(after1_text.spec_bytes(), true, after1, m.word@);
                lemma_verdict(after2_text.spec_bytes(), true, after2, m.word@);
                if m.index < self.tests_count {
                    assert(iw[m.index as int] == in_words@[m.index as int]@);
                }
            }
            if r is Ok {
                let rep = r->Ok_0;
                assert forall|i: int| 0 <= i < rep.in_words@.len() implies generates(rep.before, #[trigger] rep.in_words@[i]@) by {
                    assert(words_of(rep.in_words@)[i] == rep.in_words@[i]@);
                    assert(iw[i] == in_words@[i]@);
                }
                assert(words_of(rep.in_words@).len() == rep.in_words@.len());
            }
        }
        r
    }

    /// Checks the three grammars on `in_words` followed by the words made
    /// from them outside the first grammar: the first disagreement is
    /// reported, else a report of all words.
    pub fn check_words(
        &self,
        before: Grammar,
        after1: Grammar,
        after2: Grammar,
        alphabet: Vec<u8>,
        in_words: Vec<Vec<u8>>,
    ) -> (r: Result<FuzzReport, FuzzError>)
        requires
            before.wf(),
            after1.wf(),
            after2.wf(),
            forall|j: int| 0 <= j < in_words@.len() ==> (#[trigger] in_words@[j])@.len() < usize::MAX - 3,
        ensures
            ({
                let all = words_of(in_words@) + out_words_of(words_of(in_words@));
                &&& r matches Ok(rep) ==> report_words_ok(before, after1, after2, words_of(in_words@), rep)
                    && rep.alphabet@ == alphabet@
                &&& r matches Err(e) ==> e matches FuzzError::Mismatch(m) && first_mismatch(
                    before,
                    after1,
                    after2,
                    all,
                    m,
                )
                &&& r is Ok <==> forall|j: int|
                    0 <= j < all.len() ==> agree_on(before, after1, after2, #[trigger] all[j])
            }),
    {
        let ghost iw = words_of(in_words@);
        let out_words = self.generate_out_words(&in_words);
        assert(words_of(out_words@).len() == out_words@.len());
        assert(iw.len() == in_words@.len());
        assert(out_words_of(iw).len() == iw.len());
        proof {
            assert forall|j: int| 0 <= j < out_words@.len() implies (#[trigger] out_words@[j])@.len() < usize::MAX by {
                assert(words_of(out_words@)[j] == out_word(iw[j]));
                assert(iw[j] == in_words@[j]@);
            }
            assert forall|j: int| 0 <= j < in_words@.len() implies (#[trigger] in_words@[j])@.len() < usize::MAX by {}
        }
        let words = join_words(&in_words, &out_words);
        let ghost all = iw + out_words_of(iw);
        proof {
            assert(words_of(words@) =~= all) by {
                assert forall|j: int| 0 <= j < all.len() implies words_of(words@)[j] == all[j] by {
                    if j < iw.len() {
                        assert(words@[j]@ == in_words@[j]@);
                    } else {
                        let k = j - iw.len();
                        assert(words@[iw.len() + k]@ == out_words@[k]@);
                        assert(words_of(out_words@)[k] == out_words@[k]@);
                    }
                }
            }
        }
        match find_mismatch(&before, &after1, &after2, &words) {
            Some(m) => Err(FuzzError::Mismatch(m)),
            None => {
                let passed = words.len();
                let rep = FuzzReport { before, after1, after2, alphabet, in_words, out_words, passed };
                proof {
                    assert forall|j: int| 0 <= j < iw.len() implies agree_on(rep.before, rep.after1, rep.after2, #[trigger] iw[j])
                        && agree_on(rep.before, rep.after1, rep.after2, out_words_of(iw)[j]) by {
                        assert(all[j] == iw[j]);
                        assert(all[iw.len() + j] == out_words_of(iw)[j]);
                        assert(agree_on(rep.before, rep.after1, rep.after2, words_of(words@)[j]));
                        assert(agree_on(rep.before, rep.after1, rep.after2, words_of(words@)[iw.len() + j]));
                    }
                }
                Ok(rep)
            },
        }
    }
}

/// Runs one equivalence check with 50 words of lengths 1 to 40 from each
/// side.
pub fn start_fuzzer(before_text: &str, after1_text: &str, after2_text: &str) -> (r: Result<
    FuzzReport,
    FuzzError,
>)
    ensures
        run_outcome(
            (Fuzzer { tests_count: 50, min_len: 1, max_len: 40 }),
            before_text.spec_bytes(),
            after1_text.spec_bytes(),
            after2_text.spec_bytes(),
            r,
        ),
{
    let fuzzer = Fuzzer::new(50, 1, 40);
    fuzzer.fuzz_equivalence(before_text, after1_text, after2_text)
}

} // verus!
