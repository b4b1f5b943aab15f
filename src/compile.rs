//! The grammar compiler: from line-oriented grammar text to a production table.
use vstd::prelude::*;
use vstd::string::StringSliceAdditionalSpecFns;

use crate::derivation::{generates, lemma_same_rules_same_language, same_rules};
use crate::grammar::{Grammar, Symbol};
use crate::text::{seqs_of, split_bytes, split_on, split_tokens, tokens, trim, trim_bounds};

verus! {

/// `->` starts at index `i` of `s`.
pub open spec fn arrow_at(s: Seq<u8>, i: int) -> bool {
    0 <= i && i + 1 < s.len() && s[i] == 45u8 && s[i + 1] == 62u8
}

/// `s` holds exactly one `->`.
pub open spec fn single_arrow(s: Seq<u8>) -> bool {
    exists|i: int| arrow_at(s, i) && forall|j: int| arrow_at(s, j) ==> j == i
}

/// Where the `->` of a rule starts.
pub open spec fn arrow_pos(s: Seq<u8>) -> int {
    choose|i: int| arrow_at(s, i)
}

/// A line that holds a rule: neither blank nor a `#` comment.
pub open spec fn is_rule_line(line: Seq<u8>) -> bool {
    trim(line).len() > 0 && trim(line)[0] != 35u8
}

/// The left-hand name of the rule `t`.
pub open spec fn rule_lhs(t: Seq<u8>) -> Seq<u8> {
    trim(t.subrange(0, arrow_pos(t)))
}

/// The text right of the `->` of the rule `t`.
pub open spec fn rule_rhs(t: Seq<u8>) -> Seq<u8> {
    t.subrange(arrow_pos(t) + 2, t.len() as int)
}

/// The token lists of the alternatives of the rule `t`: the whole right side,
/// or each `|`-separated segment of it.
pub open spec fn rule_alternatives(t: Seq<u8>, one_alt_per_line: bool) -> Seq<Seq<Seq<u8>>> {
    if one_alt_per_line {
        seq![tokens(rule_rhs(t))]
    } else {
        split_on(rule_rhs(t), 124u8).map_values(|seg: Seq<u8>| tokens(seg))
    }
}

/// The alternatives of the rule `t`, each paired with the rule's left-hand name.
pub open spec fn rule_pairs(t: Seq<u8>, one_alt_per_line: bool) -> Seq<(Seq<u8>, Seq<Seq<u8>>)> {
    rule_alternatives(t, one_alt_per_line).map_values(|toks: Seq<Seq<u8>>| (rule_lhs(t), toks))
}

/// All alternatives of the rule lines among `lines`, in order, or the 1-based
/// number of the first rule line without exactly one `->`.
pub open spec fn collect_alts(lines: Seq<Seq<u8>>, one_alt_per_line: bool) -> Result<
    Seq<(Seq<u8>, Seq<Seq<u8>>)>,
    nat,
>
    decreases lines.len(),
{
    if lines.len() == 0 {
        Ok(Seq::empty())
    } else {
        match collect_alts(lines.drop_last(), one_alt_per_line) {
            Err(e) => Err(e),
            Ok(acc) => {
                let t = trim(lines.last());
                if !is_rule_line(lines.last()) {
                    Ok(acc)
                } else if !single_arrow(t) {
                    Err(lines.len())
                } else {
                    Ok(acc + rule_pairs(t, one_alt_per_line))
                }
            },
        }
    }
}

/// One alternative of a rule: the left-hand name and the right-hand tokens.
pub struct Alternative {
    pub lhs: Vec<u8>,
    pub tokens: Vec<Vec<u8>>,
}

pub open spec fn alt_view(a: Alternative) -> (Seq<u8>, Seq<Seq<u8>>) {
    (a.lhs@, seqs_of(a.tokens@))
}

pub open spec fn alts_view(v: Seq<Alternative>) -> Seq<(Seq<u8>, Seq<Seq<u8>>)> {
    v.map_values(|a: Alternative| alt_view(a))
}

pub(crate) fn copy_range(s: &[u8], lo: usize, hi: usize) -> (r: Vec<u8>)
    requires
        lo <= hi <= s@.len(),
    ensures
        r@ == s@.subrange(lo as int, hi as int),
{
    let mut r: Vec<u8> = Vec::new();
    let mut i = lo;
    while i < hi
        invariant
            lo <= i <= hi <= s@.len(),
            r@ == s@.subrange(lo as int, i as int),
        decreases hi - i,
    {
        r.push(s[i]);
        assert(r@ =~= s@.subrange(lo as int, i + 1));
        i += 1;
    }
    r
}

/// The position of the only `->` in `t`, if there is exactly one.
fn find_single_arrow(t: &[u8]) -> (r: Option<usize>)
    ensures
        r is Some <==> single_arrow(t@),
        r matches Some(i) ==> arrow_at(t@, i as int),
{
    let mut first: Option<usize> = None;
    let mut i: usize = 0;
    while i < t.len() && i + 1 < t.len()
        invariant
            i <= t@.len(),
            first matches Some(f) ==> f < i && arrow_at(t@, f as int) && forall|j: int|
                0 <= j < i && arrow_at(t@, j) ==> j == f,
            first is None ==> forall|j: int| 0 <= j < i ==> !arrow_at(t@, j),
        decreases t@.len() - i,
    {
        if t[i] == 45u8 && t[i + 1] == 62u8 {
            if first.is_some() {
                assert(!single_arrow(t@)) by {
                    let f = first.unwrap();
                    if single_arrow(t@) {
                        let k = choose|k: int| arrow_at(t@, k) && forall|j: int| arrow_at(t@, j) ==> j == k;
                        assert(arrow_at(t@, i as int));
                        assert(arrow_at(t@, f as int));
                    }
                }
                return None;
            }
            first = Some(i);
        }
        i += 1;
    }
    match first {
        Some(f) => {
            assert forall|j: int| arrow_at(t@, j) implies j == f by {
                assert(j < i);
            }
            Some(f)
        },
        None => {
            assert(!single_arrow(t@)) by {
                if single_arrow(t@) {
                    let k = choose|k: int| arrow_at(t@, k) && forall|j: int| arrow_at(t@, j) ==> j == k;
                    assert(k < i);
                }
            }
            None
        },
    }
}

/// Appends the alternatives of `line` to `out`; fails when `line` is a rule
/// line without exactly one `->`.
fn parse_line(line: &[u8], one_alt_per_line: bool, out: &mut Vec<Alternative>) -> (ok: bool)
    ensures
        !is_rule_line(line@) ==> ok && final(out)@ == old(out)@,
        is_rule_line(line@) ==> (ok <==> single_arrow(trim(line@))),
        is_rule_line(line@) && ok ==> alts_view(final(out)@) == alts_view(old(out)@) + rule_pairs(
            trim(line@),
            one_alt_per_line,
        ),
{
    let (lo, hi) = trim_bounds(line);
    let t = copy_range(line, lo, hi);
    if t.len() == 0 || t[0] == 35u8 {
        return true;
    }
    let k = match find_single_arrow(t.as_slice()) {
        Some(k) => k,
        None => return false,
    };
    assert(arrow_pos(t@) == k) by {
        let p = arrow_pos(t@);
        assert(arrow_at(t@, p));
    }
    let left = copy_range(t.as_slice(), 0, k);
    let (llo, lhi) = trim_bounds(left.as_slice());
    let rhs = copy_range(t.as_slice(), k + 2, t.len());
    let ghost pairs = rule_pairs(t@, one_alt_per_line);
    let ghost start = alts_view(out@);
    if one_alt_per_line {
        let toks = split_tokens(rhs.as_slice());
        let lhs = copy_range(left.as_slice(), llo, lhi);
        out.push(Alternative { lhs, tokens: toks });
        assert(alts_view(out@) =~= start + pairs);
    } else {
        let segs = split_bytes(rhs.as_slice(), 124u8);
        let mut m: usize = 0;
        while m < segs.len()
            invariant
                m <= segs@.len(),
                seqs_of(segs@) == split_on(rhs@, 124u8),
                rhs@ == rule_rhs(t@),
                left@.subrange(llo as int, lhi as int) == rule_lhs(t@),
                llo <= lhi <= left@.len(),
                !one_alt_per_line,
                pairs == rule_pairs(t@, one_alt_per_line),
                alts_view(out@) == start + pairs.subrange(0, m as int),
            decreases segs@.len() - m,
        {
            let toks = split_tokens(segs[m].as_slice());
            let lhs = copy_range(left.as_slice(), llo, lhi);
            let ghost before = alts_view(out@);
            out.push(Alternative { lhs, tokens: toks });
            assert(seqs_of(segs@)[m as int] == segs@[m as int]@);
            assert(alts_view(out@) =~= before.push(alt_view(out@[out@.len() - 1])));
            assert(alts_view(out@) =~= start + pairs.subrange(0, m + 1));
            m += 1;
        }
        assert(pairs.subrange(0, segs@.len() as int) =~= pairs);
    }
    true
}

/// All alternatives of the rule lines of `lines`, or the 1-based number of
/// the first malformed rule line.
fn collect_alternatives(lines: &Vec<Vec<u8>>, one_alt_per_line: bool) -> (r: Result<
    Vec<Alternative>,
    usize,
>)
    ensures
        match collect_alts(seqs_of(lines@), one_alt_per_line) {
            Ok(a) => r matches Ok(v) && alts_view(v@) == a,
            Err(e) => r matches Err(n) && n == e,
        },
{
    let mut out: Vec<Alternative> = Vec::new();
    let mut i: usize = 0;
    assert(seqs_of(lines@).subrange(0, 0) =~= Seq::<Seq<u8>>::empty());
    assert(alts_view(out@) =~= Seq::<(Seq<u8>, Seq<Seq<u8>>)>::empty());
    while i < lines.len()
        invariant
            i <= lines@.len(),
            collect_alts(seqs_of(lines@).subrange(0, i as int), one_alt_per_line) == Ok::<
                Seq<(Seq<u8>, Seq<Seq<u8>>)>,
                nat,
            >(alts_view(out@)),
        decreases lines@.len() - i,
    {
        let ghost prefix = seqs_of(lines@).subrange(0, i + 1);
        assert(prefix.drop_last() =~= seqs_of(lines@).subrange(0, i as int));
        assert(prefix.last() == lines@[i as int]@);
        if !parse_line(lines[i].as_slice(), one_alt_per_line, &mut out) {
            proof {
                let full = seqs_of(lines@);
                lemma_collect_err_stays(full, i as int + 1, one_alt_per_line, (i + 1) as nat);
                assert(full.subrange(0, full.len() as int) =~= full);
            }
            return Err(i + 1);
        }
        i += 1;
    }
    assert(seqs_of(lines@).subrange(0, lines@.len() as int) =~= seqs_of(lines@));
    Ok(out)
}

/// Once the lines up to `k` have failed, every longer prefix fails the same way.
proof fn lemma_collect_err_stays(lines: Seq<Seq<u8>>, k: int, one_alt_per_line: bool, e: nat)
    requires
        0 <= k <= lines.len(),
        collect_alts(lines.subrange(0, k), one_alt_per_line) == Err::<Seq<(Seq<u8>, Seq<Seq<u8>>)>, nat>(e),
    ensures
        collect_alts(lines, one_alt_per_line) == Err::<Seq<(Seq<u8>, Seq<Seq<u8>>)>, nat>(e),
    decreases lines.len() - k,
{
    if k < lines.len() {
        assert(lines.subrange(0, k + 1).drop_last() =~= lines.subrange(0, k));
        lemma_collect_err_stays(lines, k + 1, one_alt_per_line, e);
    } else {
        assert(lines.subrange(0, k) =~= lines);
    }
}

/// The tokens `eps` and `ε`, which stand for nothing.
pub open spec fn is_eps(t: Seq<u8>) -> bool {
    t == seq![101u8, 112u8, 115u8] || t == seq![0xCEu8, 0xB5u8]
}

/// A nonterminal token: `<...>`, or one that starts with an ASCII capital.
pub open spec fn is_nonterminal_token(t: Seq<u8>) -> bool {
    &&& !is_eps(t)
    &&& t.len() > 0
    &&& ((t[0] == 60u8 && t.last() == 62u8) || (65u8 <= t[0] && t[0] <= 90u8))
}

/// `names` with `x` added at the end unless already there.
pub open spec fn intern(names: Seq<Seq<u8>>, x: Seq<u8>) -> Seq<Seq<u8>> {
    if names.contains(x) {
        names
    } else {
        names.push(x)
    }
}

/// Interns the left-hand names of `alts`, in order.
pub open spec fn intern_lhs(names: Seq<Seq<u8>>, alts: Seq<(Seq<u8>, Seq<Seq<u8>>)>) -> Seq<Seq<u8>>
    decreases alts.len(),
{
    if alts.len() == 0 {
        names
    } else {
        intern(intern_lhs(names, alts.drop_last()), alts.last().0)
    }
}

/// Interns the nonterminal tokens of `toks`, in order.
pub open spec fn intern_tokens(names: Seq<Seq<u8>>, toks: Seq<Seq<u8>>) -> Seq<Seq<u8>>
    decreases toks.len(),
{
    if toks.len() == 0 {
        names
    } else {
        let n = intern_tokens(names, toks.drop_last());
        if is_nonterminal_token(toks.last()) {
            intern(n, toks.last())
        } else {
            n
        }
    }
}

/// Interns the nonterminal tokens of the right sides of `alts`, in order.
pub open spec fn intern_rhs(names: Seq<Seq<u8>>, alts: Seq<(Seq<u8>, Seq<Seq<u8>>)>) -> Seq<Seq<u8>>
    decreases alts.len(),
{
    if alts.len() == 0 {
        names
    } else {
        intern_tokens(intern_rhs(names, alts.drop_last()), alts.last().1)
    }
}

/// Nonterminal names in id order: left-hand names first, then right-hand
/// nonterminals, each at its first occurrence.
pub open spec fn nonterminal_names(alts: Seq<(Seq<u8>, Seq<Seq<u8>>)>) -> Seq<Seq<u8>> {
    intern_rhs(intern_lhs(Seq::empty(), alts), alts)
}

/// The id of the name `x`.
pub open spec fn name_id(names: Seq<Seq<u8>>, x: Seq<u8>) -> int {
    choose|i: int| 0 <= i < names.len() && names[i] == x
}

pub(crate) fn bytes_equal(a: &[u8], b: &[u8]) -> (r: bool)
    ensures
        r == (a@ == b@),
{
    if a.len() != b.len() {
        return false;
    }
    let mut i: usize = 0;
    while i < a.len()
        invariant
            a@.len() == b@.len(),
            i <= a@.len(),
            forall|j: int| 0 <= j < i ==> a@[j] == b@[j],
        decreases a@.len() - i,
    {
        if a[i] != b[i] {
            return false;
        }
        i += 1;
    }
    assert(a@ =~= b@);
    true
}

/// The index of `x` in `names`, if present.
fn find_name(names: &Vec<Vec<u8>>, x: &[u8]) -> (r: Option<usize>)
    ensures
        r matches Some(i) ==> i < names@.len() && seqs_of(names@)[i as int] == x@,
        r is None ==> !seqs_of(names@).contains(x@),
{
    let mut i: usize = 0;
    while i < names.len()
        invariant
            i <= names@.len(),
            forall|j: int| 0 <= j < i ==> seqs_of(names@)[j] != x@,
        decreases names@.len() - i,
    {
        if bytes_equal(names[i].as_slice(), x) {
            return Some(i);
        }
        i += 1;
    }
    None
}

proof fn lemma_intern_distinct(names: Seq<Seq<u8>>, x: Seq<u8>)
    requires
        names.no_duplicates(),
    ensures
        intern(names, x).no_duplicates(),
        intern(names, x).contains(x),
        forall|y: Seq<u8>| names.contains(y) ==> intern(names, x).contains(y),
{
    if !names.contains(x) {
        let n2 = names.push(x);
        assert forall|a: int, b: int| 0 <= a < n2.len() && 0 <= b < n2.len() && a != b implies n2[a] != n2[b] by {
            if a < names.len() && b < names.len() {
            } else if a == names.len() {
                assert(n2[b] == names[b]);
            } else {
                assert(n2[a] == names[a]);
            }
        }
        assert(n2[names.len() as int] == x);
        assert forall|y: Seq<u8>| names.contains(y) implies n2.contains(y) by {
            let k = choose|k: int| 0 <= k < names.len() && names[k] == y;
            assert(n2[k] == y);
        }
    }
}

/// Adds `x` to `names` unless present.
fn intern_name(names: &mut Vec<Vec<u8>>, x: &[u8])
    requires
        seqs_of(old(names)@).no_duplicates(),
    ensures
        seqs_of(final(names)@) == intern(seqs_of(old(names)@), x@),
        seqs_of(final(names)@).no_duplicates(),
{
    proof {
        lemma_intern_distinct(seqs_of(names@), x@);
    }
    if find_name(names, x).is_none() {
        let copy = copy_range(x, 0, x.len());
        assert(x@.subrange(0, x@.len() as int) =~= x@);
        let ghost before = seqs_of(names@);
        names.push(copy);
        assert(seqs_of(names@) =~= before.push(x@));
    }
}

fn is_eps_token(t: &[u8]) -> (r: bool)
    ensures
        r == is_eps(t@),
{
    let r = (t.len() == 3 && t[0] == 101u8 && t[1] == 112u8 && t[2] == 115u8) || (t.len() == 2
        && t[0] == 0xCEu8 && t[1] == 0xB5u8);
    proof {
        if t@.len() == 3 {
            if t@ == seq![101u8, 112u8, 115u8] {
                assert(t@[0] == 101u8 && t@[1] == 112u8 && t@[2] == 115u8);
            }
            if t@[0] == 101u8 && t@[1] == 112u8 && t@[2] == 115u8 {
                assert(t@ =~= seq![101u8, 112u8, 115u8]);
            }
        }
        if t@.len() == 2 {
            if t@ == seq![0xCEu8, 0xB5u8] {
                assert(t@[0] == 0xCEu8 && t@[1] == 0xB5u8);
            }
            if t@[0] == 0xCEu8 && t@[1] == 0xB5u8 {
                assert(t@ =~= seq![0xCEu8, 0xB5u8]);
            }
        }
    }
    r
}

fn is_nonterminal(t: &[u8]) -> (r: bool)
    ensures
        r == is_nonterminal_token(t@),
{
    if is_eps_token(t) || t.len() == 0 {
        return false;
    }
    (t[0] == 60u8 && t[t.len() - 1] == 62u8) || (65u8 <= t[0] && t[0] <= 90u8)
}

/// The nonterminal names of `alts`, in id order.
fn collect_names(alts: &Vec<Alternative>) -> (r: Vec<Vec<u8>>)
    ensures
        seqs_of(r@) == nonterminal_names(alts_view(alts@)),
        seqs_of(r@).no_duplicates(),
{
    let ghost av = alts_view(alts@);
    let mut names: Vec<Vec<u8>> = Vec::new();
    assert(seqs_of(names@) =~= Seq::<Seq<u8>>::empty());
    let mut i: usize = 0;
    while i < alts.len()
        invariant
            av == alts_view(alts@),
            i <= alts@.len(),
            seqs_of(names@) == intern_lhs(Seq::empty(), av.subrange(0, i as int)),
            seqs_of(names@).no_duplicates(),
        decreases alts@.len() - i,
    {
        assert(av.subrange(0, i + 1).drop_last() =~= av.subrange(0, i as int));
        intern_name(&mut names, alts[i].lhs.as_slice());
        i += 1;
    }
    assert(av.subrange(0, alts@.len() as int) =~= av);
    let ghost lhs_names = seqs_of(names@);
    let mut i: usize = 0;
    assert(av.subrange(0, 0) =~= Seq::<(Seq<u8>, Seq<Seq<u8>>)>::empty());
    while i < alts.len()
        invariant
            av == alts_view(alts@),
            i <= alts@.len(),
            lhs_names == intern_lhs(Seq::empty(), av),
            seqs_of(names@) == intern_rhs(lhs_names, av.subrange(0, i as int)),
            seqs_of(names@).no_duplicates(),
        decreases alts@.len() - i,
    {
        assert(av.subrange(0, i + 1).drop_last() =~= av.subrange(0, i as int));
        let toks = &alts[i].tokens;
        let ghost base = seqs_of(names@);
        let mut k: usize = 0;
        assert(seqs_of(toks@).subrange(0, 0) =~= Seq::<Seq<u8>>::empty());
        while k < toks.len()
            invariant
                av == alts_view(alts@),
                i < alts@.len(),
                toks == &alts@[i as int].tokens,
                k <= toks@.len(),
                seqs_of(names@) == intern_tokens(base, seqs_of(toks@).subrange(0, k as int)),
                seqs_of(names@).no_duplicates(),
            decreases toks@.len() - k,
        {
            assert(seqs_of(toks@).subrange(0, k + 1).drop_last() =~= seqs_of(toks@).subrange(0, k as int));
            assert(seqs_of(toks@).subrange(0, k + 1).last() == toks@[k as int]@);
            if is_nonterminal(toks[k].as_slice()) {
                intern_name(&mut names, toks[k].as_slice());
            }
            k += 1;
        }
        assert(seqs_of(toks@).subrange(0, toks@.len() as int) =~= seqs_of(toks@));
        assert(av[i as int].1 == seqs_of(toks@));
        i += 1;
    }
    assert(av.subrange(0, alts@.len() as int) =~= av);
    names
}

proof fn lemma_intern_tokens_grows(names: Seq<Seq<u8>>, toks: Seq<Seq<u8>>)
    requires
        names.no_duplicates(),
    ensures
        intern_tokens(names, toks).no_duplicates(),
        forall|y: Seq<u8>| names.contains(y) ==> intern_tokens(names, toks).contains(y),
        forall|k: int|
            0 <= k < toks.len() && is_nonterminal_token(#[trigger] toks[k]) ==> intern_tokens(
                names,
                toks,
            ).contains(toks[k]),
    decreases toks.len(),
{
    if toks.len() > 0 {
        let rest = toks.drop_last();
        lemma_intern_tokens_grows(names, rest);
        let n = intern_tokens(names, rest);
        lemma_intern_distinct(n, toks.last());
        assert forall|k: int| 0 <= k < toks.len() && is_nonterminal_token(#[trigger] toks[k]) implies intern_tokens(
            names,
            toks,
        ).contains(toks[k]) by {
            if k < rest.len() {
                assert(rest[k] == toks[k]);
            }
        }
    }
}

proof fn lemma_intern_rhs_grows(names: Seq<Seq<u8>>, alts: Seq<(Seq<u8>, Seq<Seq<u8>>)>)
    requires
        names.no_duplicates(),
    ensures
        intern_rhs(names, alts).no_duplicates(),
        forall|y: Seq<u8>| names.contains(y) ==> intern_rhs(names, alts).contains(y),
        forall|i: int, k: int|
            0 <= i < alts.len() && 0 <= k < alts[i].1.len() && is_nonterminal_token(
                #[trigger] alts[i].1[k],
            ) ==> intern_rhs(names, alts).contains(alts[i].1[k]),
    decreases alts.len(),
{
    if alts.len() > 0 {
        let rest = alts.drop_last();
        lemma_intern_rhs_grows(names, rest);
        lemma_intern_tokens_grows(intern_rhs(names, rest), alts.last().1);
        assert forall|i: int, k: int|
            0 <= i < alts.len() && 0 <= k < alts[i].1.len() && is_nonterminal_token(
                #[trigger] alts[i].1[k],
            ) implies intern_rhs(names, alts).contains(alts[i].1[k]) by {
            if i < rest.len() {
                assert(rest[i] == alts[i]);
            }
        }
    }
}

proof fn lemma_intern_lhs_grows(names: Seq<Seq<u8>>, alts: Seq<(Seq<u8>, Seq<Seq<u8>>)>)
    requires
        names.no_duplicates(),
    ensures
        intern_lhs(names, alts).no_duplicates(),
        forall|i: int| 0 <= i < alts.len() ==> intern_lhs(names, alts).contains(#[trigger] alts[i].0),
    decreases alts.len(),
{
    if alts.len() > 0 {
        let rest = alts.drop_last();
        lemma_intern_lhs_grows(names, rest);
        lemma_intern_distinct(intern_lhs(names, rest), alts.last().0);
        assert forall|i: int| 0 <= i < alts.len() implies intern_lhs(names, alts).contains(
            #[trigger] alts[i].0,
        ) by {
            if i < rest.len() {
                assert(rest[i] == alts[i]);
            }
        }
    }
}

/// Every left-hand name and every right-hand nonterminal token of `alts` has an id.
proof fn lemma_names_cover(alts: Seq<(Seq<u8>, Seq<Seq<u8>>)>)
    ensures
        nonterminal_names(alts).no_duplicates(),
        forall|i: int| 0 <= i < alts.len() ==> nonterminal_names(alts).contains(#[trigger] alts[i].0),
        forall|i: int, k: int|
            0 <= i < alts.len() && 0 <= k < alts[i].1.len() && is_nonterminal_token(
                #[trigger] alts[i].1[k],
            ) ==> nonterminal_names(alts).contains(alts[i].1[k]),
{
    lemma_intern_lhs_grows(Seq::empty(), alts);
    lemma_intern_rhs_grows(intern_lhs(Seq::empty(), alts), alts);
}

proof fn lemma_name_id(names: Seq<Seq<u8>>, i: int)
    requires
        names.no_duplicates(),
        0 <= i < names.len(),
    ensures
        name_id(names, names[i]) == i,
{
    let j = name_id(names, names[i]);
    assert(0 <= j < names.len() && names[j] == names[i]);
}

/// The symbols that the tokens `toks` stand for, or the first token that is
/// neither a nonterminal, `eps`/`ε`, nor a single byte.
pub open spec fn encode_tokens(names: Seq<Seq<u8>>, toks: Seq<Seq<u8>>) -> Result<Seq<Symbol>, Seq<u8>>
    decreases toks.len(),
{
    if toks.len() == 0 {
        Ok(Seq::empty())
    } else {
        match encode_tokens(names, toks.drop_last()) {
            Err(e) => Err(e),
            Ok(syms) => {
                let t = toks.last();
                if is_eps(t) {
                    Ok(syms)
                } else if is_nonterminal_token(t) {
                    Ok(syms.push(Symbol::Nonterminal(name_id(names, t) as usize)))
                } else if t.len() == 1 {
                    Ok(syms.push(Symbol::Terminal(t[0])))
                } else {
                    Err(t)
                }
            },
        }
    }
}

proof fn lemma_encode_err_stays(names: Seq<Seq<u8>>, toks: Seq<Seq<u8>>, k: int, e: Seq<u8>)
    requires
        0 <= k <= toks.len(),
        encode_tokens(names, toks.subrange(0, k)) == Err::<Seq<Symbol>, Seq<u8>>(e),
    ensures
        encode_tokens(names, toks) == Err::<Seq<Symbol>, Seq<u8>>(e),
    decreases toks.len() - k,
{
    if k < toks.len() {
        assert(toks.subrange(0, k + 1).drop_last() =~= toks.subrange(0, k));
        lemma_encode_err_stays(names, toks, k + 1, e);
    } else {
        assert(toks.subrange(0, k) =~= toks);
    }
}

/// A symbol list whose nonterminal ids are all below `n`.
pub open spec fn symbols_below(syms: Seq<Symbol>, n: nat) -> bool {
    forall|k: int| 0 <= k < syms.len() ==> (#[trigger] syms[k] matches Symbol::Nonterminal(x) ==> x < n)
}

/// Encodes the tokens of one alternative.
fn encode_alternative(names: &Vec<Vec<u8>>, toks: &Vec<Vec<u8>>) -> (r: Result<Vec<Symbol>, Vec<u8>>)
    requires
        seqs_of(names@).no_duplicates(),
        forall|k: int|
            0 <= k < toks@.len() && is_nonterminal_token(#[trigger] toks@[k]@) ==> seqs_of(
                names@,
            ).contains(toks@[k]@),
    ensures
        match encode_tokens(seqs_of(names@), seqs_of(toks@)) {
            Ok(s) => r matches Ok(v) && v@ == s,
            Err(t) => r matches Err(e) && e@ == t,
        },
        r matches Ok(v) ==> symbols_below(v@, names@.len()) && v@.len() <= usize::MAX,
{
    let ghost nm = seqs_of(names@);
    let ghost ts = seqs_of(toks@);
    let mut syms: Vec<Symbol> = Vec::new();
    let mut k: usize = 0;
    assert(ts.subrange(0, 0) =~= Seq::<Seq<u8>>::empty());
    while k < toks.len()
        invariant
            nm == seqs_of(names@),
            ts == seqs_of(toks@),
            nm.no_duplicates(),
            forall|k: int|
                0 <= k < toks@.len() && is_nonterminal_token(#[trigger] toks@[k]@) ==> nm.contains(
                    toks@[k]@,
                ),
            k <= toks@.len(),
            syms@.len() <= k,
            encode_tokens(nm, ts.subrange(0, k as int)) == Ok::<Seq<Symbol>, Seq<u8>>(syms@),
            symbols_below(syms@, names@.len()),
        decreases toks@.len() - k,
    {
        assert(ts.subrange(0, k + 1).drop_last() =~= ts.subrange(0, k as int));
        assert(ts.subrange(0, k + 1).last() == toks@[k as int]@);
        let t = toks[k].as_slice();
        if is_eps_token(t) {
        } else if is_nonterminal(t) {
            let id = match find_name(names, t) {
                Some(id) => id,
                None => {
                    assert(false);
                    0
                },
            };
            proof {
                lemma_name_id(nm, id as int);
            }
            let ghost before = syms@;
            syms.push(Symbol::Nonterminal(id));
            assert(symbols_below(syms@, names@.len())) by {
                assert forall|j: int| 0 <= j < syms@.len() implies (#[trigger] syms@[j] matches Symbol::Nonterminal(x) ==> x < names@.len()) by {
                    if j < before.len() {
                        assert(syms@[j] == before[j]);
                    }
                }
            }
        } else if t.len() == 1 {
            let ghost before = syms@;
            syms.push(Symbol::Terminal(t[0]));
            assert(symbols_below(syms@, names@.len())) by {
                assert forall|j: int| 0 <= j < syms@.len() implies (#[trigger] syms@[j] matches Symbol::Nonterminal(x) ==> x < names@.len()) by {
                    if j < before.len() {
                        assert(syms@[j] == before[j]);
                    }
                }
            }
        } else {
            let bad = copy_range(t, 0, t.len());
            assert(t@.subrange(0, t@.len() as int) =~= t@);
            proof {
                lemma_encode_err_stays(nm, ts, k + 1, bad@);
            }
            return Err(bad);
        }
        k += 1;
    }
    assert(ts.subrange(0, toks@.len() as int) =~= ts);
    Ok(syms)
}

/// A table with `n` nonterminals and no productions.
pub open spec fn empty_table(n: nat) -> Seq<Seq<Seq<Symbol>>> {
    Seq::new(n, |i: int| Seq::<Seq<Symbol>>::empty())
}

/// The production table of `alts`: each alternative's symbols appended to
/// the list of its left-hand nonterminal, in order; or the first invalid token.
pub open spec fn build_table(names: Seq<Seq<u8>>, alts: Seq<(Seq<u8>, Seq<Seq<u8>>)>) -> Result<
    Seq<Seq<Seq<Symbol>>>,
    Seq<u8>,
>
    decreases alts.len(),
{
    if alts.len() == 0 {
        Ok(empty_table(names.len()))
    } else {
        match build_table(names, alts.drop_last()) {
            Err(e) => Err(e),
            Ok(t) => match encode_tokens(names, alts.last().1) {
                Err(e) => Err(e),
                Ok(r) => {
                    let a = name_id(names, alts.last().0);
                    Ok(t.update(a, t[a].push(r)))
                },
            },
        }
    }
}

proof fn lemma_table_err_stays(names: Seq<Seq<u8>>, alts: Seq<(Seq<u8>, Seq<Seq<u8>>)>, k: int, e: Seq<u8>)
    requires
        0 <= k <= alts.len(),
        build_table(names, alts.subrange(0, k)) == Err::<Seq<Seq<Seq<Symbol>>>, Seq<u8>>(e),
    ensures
        build_table(names, alts) == Err::<Seq<Seq<Seq<Symbol>>>, Seq<u8>>(e),
    decreases alts.len() - k,
{
    if k < alts.len() {
        assert(alts.subrange(0, k + 1).drop_last() =~= alts.subrange(0, k));
        lemma_table_err_stays(names, alts, k + 1, e);
    } else {
        assert(alts.subrange(0, k) =~= alts);
    }
}

/// The table of production vectors as sequences.
pub open spec fn table_view(v: Seq<Vec<Vec<Symbol>>>) -> Seq<Seq<Seq<Symbol>>> {
    v.map_values(|ps: Vec<Vec<Symbol>>| ps@.map_values(|r: Vec<Symbol>| r@))
}

/// Every nonterminal id in the table is below `n`, and every right side's
/// length fits in `usize`.
pub open spec fn table_in_range(t: Seq<Seq<Seq<Symbol>>>, n: nat) -> bool {
    forall|a: int, p: int|
        0 <= a < t.len() && 0 <= p < t[a].len() ==> symbols_below(#[trigger] t[a][p], n)
            && t[a][p].len() <= usize::MAX
}

/// Builds the production table of `alts` over the ids of `names`.
fn build_productions(names: &Vec<Vec<u8>>, alts: &Vec<Alternative>) -> (r: Result<
    Vec<Vec<Vec<Symbol>>>,
    Vec<u8>,
>)
    requires
        seqs_of(names@) == nonterminal_names(alts_view(alts@)),
    ensures
        match build_table(seqs_of(names@), alts_view(alts@)) {
            Ok(t) => r matches Ok(v) && table_view(v@) == t,
            Err(tok) => r matches Err(e) && e@ == tok,
        },
        r matches Ok(v) ==> table_in_range(table_view(v@), names@.len()) && v@.len() == names@.len(),
{
    let ghost nm = seqs_of(names@);
    let ghost av = alts_view(alts@);
    proof {
        lemma_names_cover(av);
    }
    let mut table: Vec<Vec<Vec<Symbol>>> = Vec::new();
    let mut j: usize = 0;
    while j < names.len()
        invariant
            j <= names@.len(),
            table@.len() == j,
            table_view(table@) == empty_table(j as nat),
        decreases names@.len() - j,
    {
        let ghost before = table@;
        let fresh: Vec<Vec<Symbol>> = Vec::new();
        assert(fresh@ =~= Seq::<Vec<Symbol>>::empty());
        table.push(fresh);
        assert(table@[j as int]@.map_values(|r: Vec<Symbol>| r@) =~= Seq::<Seq<Symbol>>::empty());
        assert forall|x: int| 0 <= x < j implies table@[x] == before[x] by {}
        assert forall|x: int| 0 <= x < j + 1 implies #[trigger] table_view(table@)[x] == empty_table((j + 1) as nat)[x] by {
            if x < j {
                assert(table_view(table@)[x] == table_view(before)[x]);
                assert(table_view(before)[x] == empty_table(j as nat)[x]);
            }
        }
        assert(table_view(table@) =~= empty_table((j + 1) as nat));
        j += 1;
    }
    let mut i: usize = 0;
    assert(av.subrange(0, 0) =~= Seq::<(Seq<u8>, Seq<Seq<u8>>)>::empty());
    while i < alts.len()
        invariant
            nm == seqs_of(names@),
            av == alts_view(alts@),
            nm.no_duplicates(),
            forall|i: int| 0 <= i < av.len() ==> nm.contains(#[trigger] av[i].0),
            forall|i: int, k: int|
                0 <= i < av.len() && 0 <= k < av[i].1.len() && is_nonterminal_token(
                    #[trigger] av[i].1[k],
                ) ==> nm.contains(av[i].1[k]),
            i <= alts@.len(),
            table@.len() == names@.len(),
            build_table(nm, av.subrange(0, i as int)) == Ok::<Seq<Seq<Seq<Symbol>>>, Seq<u8>>(
                table_view(table@),
            ),
            table_in_range(table_view(table@), names@.len()),
        decreases alts@.len() - i,
    {
        assert(av.subrange(0, i + 1).drop_last() =~= av.subrange(0, i as int));
        assert(av.subrange(0, i + 1).last() == av[i as int]);
        let alt = &alts[i];
        assert(av[i as int] == alt_view(*alt));
        assert forall|k: int|
            0 <= k < alt.tokens@.len() && is_nonterminal_token(#[trigger] alt.tokens@[k]@) implies nm.contains(
                alt.tokens@[k]@,
            ) by {
            assert(av[i as int].1[k] == alt.tokens@[k]@);
        }
        let rhs = match encode_alternative(names, &alt.tokens) {
            Ok(rhs) => rhs,
            Err(bad) => {
                proof {
                    lemma_table_err_stays(nm, av, i + 1, bad@);
                }
                return Err(bad);
            },
        };
        assert(nm.contains(av[i as int].0));
        let a = match find_name(names, alt.lhs.as_slice()) {
            Some(a) => a,
            None => {
                assert(false);
                0
            },
        };
        proof {
            lemma_name_id(nm, a as int);
        }
        let ghost before = table_view(table@);
        table[a].push(rhs);
        assert(table_view(table@) =~~= before.update(a as int, before[a as int].push(rhs@)));
        assert forall|x: int, p: int|
            0 <= x < table_view(table@).len() && 0 <= p < table_view(table@)[x].len() implies symbols_below(
            #[trigger] table_view(table@)[x][p],
            names@.len(),
        ) && table_view(table@)[x][p].len() <= usize::MAX by {
            if x != a || p < before[x].len() {
                assert(table_view(table@)[x][p] == before[x][p]);
            }
        }
        i += 1;
    }
    assert(av.subrange(0, alts@.len() as int) =~= av);
    Ok(table)
}

/// `b` occurs as a terminal somewhere in the table `t`.
pub open spec fn table_has_terminal(t: Seq<Seq<Seq<Symbol>>>, b: u8) -> bool {
    exists|a: int, p: int, k: int|
        0 <= a < t.len() && 0 <= p < t[a].len() && 0 <= k < t[a][p].len() && #[trigger] t[a][p][k]
            == Symbol::Terminal(b)
}

/// Marks in `seen` every terminal of `rhs`.
fn mark_terminals(seen: &mut Vec<bool>, rhs: &Vec<Symbol>)
    requires
        old(seen)@.len() == 256,
    ensures
        final(seen)@.len() == 256,
        forall|b: u8|
            #[trigger] final(seen)@[b as int] == (old(seen)@[b as int] || exists|k: int|
                0 <= k < rhs@.len() && rhs@[k] == Symbol::Terminal(b)),
{
    let ghost start = seen@;
    let mut k: usize = 0;
    while k < rhs.len()
        invariant
            seen@.len() == 256,
            start.len() == 256,
            k <= rhs@.len(),
            forall|b: u8|
                #[trigger] seen@[b as int] == (start[b as int] || exists|j: int|
                    0 <= j < k && rhs@[j] == Symbol::Terminal(b)),
        decreases rhs@.len() - k,
    {
        if let Symbol::Terminal(t) = rhs[k] {
            let ghost before = seen@;
            seen.set(t as usize, true);
            assert forall|b: u8| #[trigger] seen@[b as int] == (start[b as int] || exists|j: int|
                0 <= j < k + 1 && rhs@[j] == Symbol::Terminal(b)) by {
                if b == t {
                    assert(rhs@[k as int] == Symbol::Terminal(b));
                } else {
                    assert(seen@[b as int] == before[b as int]);
                    if exists|j: int| 0 <= j < k + 1 && rhs@[j] == Symbol::Terminal(b) {
                        let j = choose|j: int| 0 <= j < k + 1 && rhs@[j] == Symbol::Terminal(b);
                        assert(j < k);
                    }
                }
            }
        } else {
            assert forall|b: u8| #[trigger] seen@[b as int] == (start[b as int] || exists|j: int|
                0 <= j < k + 1 && rhs@[j] == Symbol::Terminal(b)) by {
                if exists|j: int| 0 <= j < k + 1 && rhs@[j] == Symbol::Terminal(b) {
                    let j = choose|j: int| 0 <= j < k + 1 && rhs@[j] == Symbol::Terminal(b);
                    assert(j < k);
                }
            }
        }
        k += 1;
    }
}

/// The sorted, deduplicated terminal bytes of the table.
fn collect_alphabet(table: &Vec<Vec<Vec<Symbol>>>) -> (r: Vec<u8>)
    ensures
        forall|i: int, j: int| 0 <= i < j < r@.len() ==> r@[i] < r@[j],
        forall|b: u8| r@.contains(b) <==> table_has_terminal(table_view(table@), b),
{
    let ghost tv = table_view(table@);
    let mut seen: Vec<bool> = Vec::new();
    let mut b: usize = 0;
    while b < 256
        invariant
            b <= 256,
            seen@.len() == b,
            forall|x: int| 0 <= x < b ==> !seen@[x],
        decreases 256 - b,
    {
        seen.push(false);
        b += 1;
    }
    let mut a: usize = 0;
    while a < table.len()
        invariant
            tv == table_view(table@),
            seen@.len() == 256,
            a <= table@.len(),
            forall|x: u8|
                #[trigger] seen@[x as int] == exists|a2: int, p: int, k: int|
                    0 <= a2 < a && 0 <= p < tv[a2].len() && 0 <= k < tv[a2][p].len() && tv[a2][p][k]
                        == Symbol::Terminal(x),
        decreases table@.len() - a,
    {
        let prods = &table[a];
        let ghost at_a = seen@;
        let mut p: usize = 0;
        while p < prods.len()
            invariant
                tv == table_view(table@),
                a < table@.len(),
                prods == &table@[a as int],
                seen@.len() == 256,
                at_a.len() == 256,
                p <= prods@.len(),
                forall|x: u8|
                    #[trigger] at_a[x as int] == exists|a2: int, p2: int, k: int|
                        0 <= a2 < a && 0 <= p2 < tv[a2].len() && 0 <= k < tv[a2][p2].len()
                            && tv[a2][p2][k] == Symbol::Terminal(x),
                forall|x: u8|
                    #[trigger] seen@[x as int] == (at_a[x as int] || exists|p2: int, k: int|
                        0 <= p2 < p && 0 <= k < tv[a as int][p2].len() && tv[a as int][p2][k]
                            == Symbol::Terminal(x)),
            decreases prods@.len() - p,
        {
            let ghost before = seen@;
            mark_terminals(&mut seen, &prods[p]);
            assert(tv[a as int][p as int] == prods@[p as int]@);
            assert forall|x: u8| #[trigger] seen@[x as int] == (at_a[x as int] || exists|p2: int, k: int|
                0 <= p2 < p + 1 && 0 <= k < tv[a as int][p2].len() && tv[a as int][p2][k]
                    == Symbol::Terminal(x)) by {
                if exists|p2: int, k: int|
                    0 <= p2 < p + 1 && 0 <= k < tv[a as int][p2].len() && tv[a as int][p2][k]
                        == Symbol::Terminal(x) {
                    let (p2, k) = choose|p2: int, k: int|
                        0 <= p2 < p + 1 && 0 <= k < tv[a as int][p2].len() && tv[a as int][p2][k]
                            == Symbol::Terminal(x);
                    if p2 == p {
                        assert(prods@[p as int]@[k] == Symbol::Terminal(x));
                    }
                }
                if exists|k: int| 0 <= k < prods@[p as int]@.len() && prods@[p as int]@[k] == Symbol::Terminal(x) {
                    let k = choose|k: int| 0 <= k < prods@[p as int]@.len() && prods@[p as int]@[k] == Symbol::Terminal(x);
                    assert(tv[a as int][p as int][k] == Symbol::Terminal(x));
                }
            }
            p += 1;
        }
        assert(tv[a as int].len() == prods@.len());
        assert forall|x: u8| #[trigger] seen@[x as int] == exists|a2: int, p2: int, k: int|
            0 <= a2 < a + 1 && 0 <= p2 < tv[a2].len() && 0 <= k < tv[a2][p2].len() && tv[a2][p2][k]
                == Symbol::Terminal(x) by {
            if exists|a2: int, p2: int, k: int|
                0 <= a2 < a + 1 && 0 <= p2 < tv[a2].len() && 0 <= k < tv[a2][p2].len() && tv[a2][p2][k]
                    == Symbol::Terminal(x) {
                let (a2, p2, k) = choose|a2: int, p2: int, k: int|
                    0 <= a2 < a + 1 && 0 <= p2 < tv[a2].len() && 0 <= k < tv[a2][p2].len()
                        && tv[a2][p2][k] == Symbol::Terminal(x);
                if a2 == a {
                    assert(0 <= p2 < prods@.len());
                }
            }
        }
        a += 1;
    }
    let mut r: Vec<u8> = Vec::new();
    let mut x: usize = 0;
    while x < 256
        invariant
            seen@.len() == 256,
            x <= 256,
            forall|i: int, j: int| 0 <= i < j < r@.len() ==> r@[i] < r@[j],
            forall|i: int| 0 <= i < r@.len() ==> r@[i] < x,
            forall|y: u8| r@.contains(y) <==> (y < x && seen@[y as int]),
        decreases 256 - x,
    {
        if seen[x] {
            let ghost before = r@;
            r.push(x as u8);
            assert forall|y: u8| r@.contains(y) <==> (y < x + 1 && seen@[y as int]) by {
                if r@.contains(y) {
                    let i = choose|i: int| 0 <= i < r@.len() && r@[i] == y;
                    if i < before.len() {
                        assert(before[i] == y);
                    }
                }
                if y < x + 1 && seen@[y as int] {
                    if y < x {
                        let i = choose|i: int| 0 <= i < before.len() && before[i] == y;
                        assert(r@[i] == y);
                    } else {
                        assert(r@[before.len() as int] == y);
                    }
                }
            }
        } else {
            assert forall|y: u8| r@.contains(y) <==> (y < x + 1 && seen@[y as int]) by {
                if y == x {
                    if r@.contains(y) {
                        let i = choose|i: int| 0 <= i < r@.len() && r@[i] == y;
                    }
                }
            }
        }
        x += 1;
    }
    assert forall|y: u8| r@.contains(y) <==> table_has_terminal(tv, y) by {
        assert(seen@[y as int] == table_has_terminal(tv, y));
    }
    r
}

/// Why grammar text does not compile.
#[derive(Debug, PartialEq, Eq)]
pub enum CompileError {
    /// The rule line with this 1-based number lacks a single `->`.
    MalformedRule { line: usize },
    /// A right-hand token is neither a nonterminal, `eps`/`ε`, nor one byte long.
    InvalidTerminal { token: Vec<u8> },
    /// No production holds a terminal.
    EmptyAlphabet,
    /// The text holds no rule line.
    EmptyGrammar,
}

/// A compile failure as a mathematical value.
pub enum CompileFault {
    MalformedRule(nat),
    InvalidTerminal(Seq<u8>),
    EmptyAlphabet,
    EmptyGrammar,
}

impl CompileError {
    pub open spec fn fault(&self) -> CompileFault {
        match self {
            CompileError::MalformedRule { line } => CompileFault::MalformedRule(*line as nat),
            CompileError::InvalidTerminal { token } => CompileFault::InvalidTerminal(token@),
            CompileError::EmptyAlphabet => CompileFault::EmptyAlphabet,
            CompileError::EmptyGrammar => CompileFault::EmptyGrammar,
        }
    }
}

/// What compiling `text` yields: the start id and the production table, or
/// the failure. Malformed lines are reported first, then an empty grammar,
/// then the first invalid terminal, then an empty alphabet.
pub open spec fn compiled(text: Seq<u8>, one_alt_per_line: bool) -> Result<
    (int, Seq<Seq<Seq<Symbol>>>),
    CompileFault,
> {
    match collect_alts(split_on(text, 10u8), one_alt_per_line) {
        Err(line) => Err(CompileFault::MalformedRule(line)),
        Ok(alts) => if alts.len() == 0 {
            Err(CompileFault::EmptyGrammar)
        } else {
            let names = nonterminal_names(alts);
            match build_table(names, alts) {
                Err(token) => Err(CompileFault::InvalidTerminal(token)),
                Ok(t) => if !(exists|b: u8| table_has_terminal(t, b)) {
                    Err(CompileFault::EmptyAlphabet)
                } else {
                    Ok((name_id(names, alts[0].0), t))
                },
            }
        },
    }
}

/// The alphabet of `g` is its terminals, sorted and without duplicates.
pub open spec fn alphabet_exact(g: Grammar) -> bool {
    &&& forall|i: int, j: int| 0 <= i < j < g.alphabet@.len() ==> g.alphabet@[i] < g.alphabet@[j]
    &&& forall|b: u8| g.alphabet@.contains(b) <==> g.has_terminal(b)
}

/// Compiles grammar text. With `one_alt_per_line` the whole right side of a
/// rule is one production; otherwise each `|`-separated segment is one.
pub fn compile(text: &str, one_alt_per_line: bool) -> (r: Result<Grammar, CompileError>)
    ensures
        match compiled(text.spec_bytes(), one_alt_per_line) {
            Ok((start, t)) => r matches Ok(g) && g.start == start && table_view(g.productions@) == t
                && g.wf() && alphabet_exact(g) && g.alphabet@.len() > 0,
            Err(f) => r matches Err(e) && e.fault() == f,
        },
{
    let bytes = text.as_bytes();
    let lines = split_bytes(bytes, 10u8);
    let ghost spec = compiled(text.spec_bytes(), one_alt_per_line);
    let alts = match collect_alternatives(&lines, one_alt_per_line) {
        Ok(alts) => alts,
        Err(line) => {
            assert(spec == Err::<(int, Seq<Seq<Seq<Symbol>>>), CompileFault>(CompileFault::MalformedRule(line as nat)));
            return Err(CompileError::MalformedRule { line });
        },
    };
    let ghost av = alts_view(alts@);
    assert(collect_alts(split_on(text.spec_bytes(), 10u8), one_alt_per_line) == Ok::<Seq<(Seq<u8>, Seq<Seq<u8>>)>, nat>(av));
    if alts.len() == 0 {
        return Err(CompileError::EmptyGrammar);
    }
    let names = collect_names(&alts);
    let productions = match build_productions(&names, &alts) {
        Ok(t) => t,
        Err(token) => {
            assert(spec == Err::<(int, Seq<Seq<Seq<Symbol>>>), CompileFault>(CompileFault::InvalidTerminal(token@)));
            return Err(CompileError::InvalidTerminal { token });
        },
    };
    let alphabet = collect_alphabet(&productions);
    let ghost tv = table_view(productions@);
    if alphabet.len() == 0 {
        proof {
            assert forall|b: u8| !table_has_terminal(tv, b) by {
                if table_has_terminal(tv, b) {
                    assert(alphabet@.contains(b));
                }
            }
        }
        return Err(CompileError::EmptyAlphabet);
    }
    assert(alphabet@.contains(alphabet@[0]));
    proof {
        lemma_names_cover(av);
        assert(av[0] == alt_view(alts@[0]));
        assert(seqs_of(names@).contains(av[0].0));
    }
    let start = match find_name(&names, alts[0].lhs.as_slice()) {
        Some(s) => s,
        None => {
            assert(false);
            0
        },
    };
    proof {
        lemma_name_id(seqs_of(names@), start as int);
    }
    let g = Grammar { start, productions, alphabet };
    proof {
        assert forall|a: int, p: int, k: int|
            0 <= a < g.num_nonterminals() && 0 <= p < g.num_productions(a) && 0 <= k < g.rhs(
                a,
                p,
            ).len() implies g.symbol_in_range(#[trigger] g.rhs(a, p)[k]) by {
            assert(g.rhs(a, p) == tv[a][p]);
            assert(symbols_below(tv[a][p], names@.len()));
            assert(tv[a][p][k] == g.rhs(a, p)[k]);
        }
        assert forall|a: int, p: int|
            0 <= a < g.num_nonterminals() && 0 <= p < g.num_productions(a) implies #[trigger] g.rhs(
                a,
                p,
            ).len() <= usize::MAX by {
            assert(g.rhs(a, p) == tv[a][p]);
        }
        assert forall|b: u8| g.alphabet@.contains(b) <==> g.has_terminal(b) by {
            if table_has_terminal(tv, b) {
                let (a, p, k) = choose|a: int, p: int, k: int|
                    0 <= a < tv.len() && 0 <= p < tv[a].len() && 0 <= k < tv[a][p].len()
                        && #[trigger] tv[a][p][k] == Symbol::Terminal(b);
                assert(g.rhs(a, p) == tv[a][p]);
            }
            if g.has_terminal(b) {
                let (a, p, k) = choose|a: int, p: int, k: int|
                    0 <= a < g.num_nonterminals() && 0 <= p < g.num_productions(a) && 0 <= k
                        < g.rhs(a, p).len() && #[trigger] g.rhs(a, p)[k] == Symbol::Terminal(b);
                assert(g.rhs(a, p) == tv[a][p]);
            }
        }
    }
    Ok(g)
}

/// Grammars with equal start symbols and equal production tables have the
/// same rules.
pub proof fn lemma_equal_tables_same_rules(g1: Grammar, g2: Grammar)
    requires
        g1.start == g2.start,
        table_view(g1.productions@) == table_view(g2.productions@),
    ensures
        same_rules(g1, g2),
{
    let t = table_view(g1.productions@);
    assert(t.len() == g1.productions@.len());
    assert(table_view(g2.productions@).len() == g2.productions@.len());
    assert forall|a: int| 0 <= a < g1.num_nonterminals() implies #[trigger] g1.num_productions(a)
        == g2.num_productions(a) by {
        assert(t[a].len() == g1.num_productions(a));
        assert(table_view(g2.productions@)[a].len() == g2.num_productions(a));
    }
    assert forall|a: int, p: int|
        0 <= a < g1.num_nonterminals() && 0 <= p < g1.num_productions(a) implies #[trigger] g1.rhs(a, p)
        == g2.rhs(a, p) by {
        assert(t[a].len() == g1.num_productions(a));
        assert(t[a][p] == g1.rhs(a, p));
        assert(table_view(g2.productions@)[a][p] == g2.rhs(a, p));
    }
}

/// Compiling the same text twice yields grammars that generate the same words.
pub proof fn lemma_compile_deterministic(
    text: Seq<u8>,
    one_alt_per_line: bool,
    g1: Grammar,
    g2: Grammar,
    w: Seq<u8>,
)
    requires
        compiled(text, one_alt_per_line) matches Ok((start, t)) && g1.start == start
            && table_view(g1.productions@) == t && g2.start == start && table_view(g2.productions@)
            == t,
    ensures
        same_rules(g1, g2),
        generates(g1, w) == generates(g2, w),
{
    lemma_equal_tables_same_rules(g1, g2);
    lemma_same_rules_same_language(g1, g2, w);
}

} // verus!
