//! Byte-level text helpers for the grammar format: splitting on a separator,
//! whitespace tokenization and trimming.
use vstd::prelude::*;

verus! {

/// ASCII whitespace: space, tab, line feed, vertical tab, form feed, carriage return.
pub open spec fn is_space(b: u8) -> bool {
    b == 32 || (9 <= b && b <= 13)
}

/// `c` is the UTF-8 encoding of a character with the Unicode White_Space
/// property: the ASCII ones, U+0085, U+00A0, U+1680, U+2000 to U+200A,
/// U+2028, U+2029, U+202F, U+205F and U+3000.
pub open spec fn is_white_space_char(c: Seq<u8>) -> bool {
    ||| c.len() == 1 && is_space(c[0])
    ||| c.len() == 2 && c[0] == 0xC2u8 && (c[1] == 0x85u8 || c[1] == 0xA0u8)
    ||| c.len() == 3 && c[0] == 0xE1u8 && c[1] == 0x9Au8 && c[2] == 0x80u8
    ||| c.len() == 3 && c[0] == 0xE2u8 && c[1] == 0x80u8 && ((0x80u8 <= c[2] && c[2] <= 0x8Au8)
        || c[2] == 0xA8u8 || c[2] == 0xA9u8 || c[2] == 0xAFu8)
    ||| c.len() == 3 && c[0] == 0xE2u8 && c[1] == 0x81u8 && c[2] == 0x9Fu8
    ||| c.len() == 3 && c[0] == 0xE3u8 && c[1] == 0x80u8 && c[2] == 0x80u8
}

/// The length of the whitespace character that `s` starts with, or 0. In
/// UTF-8 text at most one of the lengths can match.
pub open spec fn space_prefix(s: Seq<u8>) -> int {
    if s.len() >= 1 && is_white_space_char(s.take(1)) {
        1
    } else if s.len() >= 2 && is_white_space_char(s.take(2)) {
        2
    } else if s.len() >= 3 && is_white_space_char(s.take(3)) {
        3
    } else {
        0
    }
}

/// The length of the whitespace character that `s` ends with, or 0.
pub open spec fn space_suffix(s: Seq<u8>) -> int {
    if s.len() >= 1 && is_white_space_char(s.skip(s.len() - 1)) {
        1
    } else if s.len() >= 2 && is_white_space_char(s.skip(s.len() - 2)) {
        2
    } else if s.len() >= 3 && is_white_space_char(s.skip(s.len() - 3)) {
        3
    } else {
        0
    }
}

fn white_space_char(s: &[u8], a: usize, n: usize) -> (r: bool)
    requires
        1 <= n <= 3,
        a + n <= s@.len(),
    ensures
        r == is_white_space_char(s@.subrange(a as int, a + n)),
{
    let ghost c = s@.subrange(a as int, a + n);
    assert(c.len() == n);
    if n == 1 {
        assert(c[0] == s@[a as int]);
        let b = s[a];
        b == 32 || (9 <= b && b <= 13)
    } else if n == 2 {
        assert(c[0] == s@[a as int] && c[1] == s@[a + 1]);
        s[a] == 0xC2u8 && (s[a + 1] == 0x85u8 || s[a + 1] == 0xA0u8)
    } else {
        assert(c[0] == s@[a as int] && c[1] == s@[a + 1] && c[2] == s@[a + 2]);
        let (b0, b1, b2) = (s[a], s[a + 1], s[a + 2]);
        (b0 == 0xE1u8 && b1 == 0x9Au8 && b2 == 0x80u8) || (b0 == 0xE2u8 && b1 == 0x80u8 && ((0x80u8 <= b2
            && b2 <= 0x8Au8) || b2 == 0xA8u8 || b2 == 0xA9u8 || b2 == 0xAFu8)) || (b0 == 0xE2u8 && b1
            == 0x81u8 && b2 == 0x9Fu8) || (b0 == 0xE3u8 && b1 == 0x80u8 && b2 == 0x80u8)
    }
}

/// `space_prefix` of `s` from index `i` to `hi`.
fn space_prefix_at(s: &[u8], i: usize, hi: usize) -> (r: usize)
    requires
        i <= hi <= s@.len(),
    ensures
        r as int == space_prefix(s@.subrange(i as int, hi as int)),
        r <= hi - i,
{
    let ghost t = s@.subrange(i as int, hi as int);
    if hi - i >= 1 && white_space_char(s, i, 1) {
        assert(t.take(1) =~= s@.subrange(i as int, i + 1));
        return 1;
    }
    assert(hi - i >= 1 ==> t.take(1) =~= s@.subrange(i as int, i + 1));
    if hi - i >= 2 && white_space_char(s, i, 2) {
        assert(t.take(2) =~= s@.subrange(i as int, i + 2));
        return 2;
    }
    assert(hi - i >= 2 ==> t.take(2) =~= s@.subrange(i as int, i + 2));
    if hi - i >= 3 && white_space_char(s, i, 3) {
        assert(t.take(3) =~= s@.subrange(i as int, i + 3));
        return 3;
    }
    assert(hi - i >= 3 ==> t.take(3) =~= s@.subrange(i as int, i + 3));
    0
}

/// `space_suffix` of `s` from index `lo` to `hi`.
fn space_suffix_at(s: &[u8], lo: usize, hi: usize) -> (r: usize)
    requires
        lo <= hi <= s@.len(),
    ensures
        r as int == space_suffix(s@.subrange(lo as int, hi as int)),
        r <= hi - lo,
{
    let ghost t = s@.subrange(lo as int, hi as int);
    if hi - lo >= 1 && white_space_char(s, hi - 1, 1) {
        assert(t.skip(t.len() - 1) =~= s@.subrange(hi - 1, hi as int));
        return 1;
    }
    assert(hi - lo >= 1 ==> t.skip(t.len() - 1) =~= s@.subrange(hi - 1, hi as int));
    if hi - lo >= 2 && white_space_char(s, hi - 2, 2) {
        assert(t.skip(t.len() - 2) =~= s@.subrange(hi - 2, hi as int));
        return 2;
    }
    assert(hi - lo >= 2 ==> t.skip(t.len() - 2) =~= s@.subrange(hi - 2, hi as int));
    if hi - lo >= 3 && white_space_char(s, hi - 3, 3) {
        assert(t.skip(t.len() - 3) =~= s@.subrange(hi - 3, hi as int));
        return 3;
    }
    assert(hi - lo >= 3 ==> t.skip(t.len() - 3) =~= s@.subrange(hi - 3, hi as int));
    0
}

/// Pieces of `s` finished so far, and the piece under construction, when
/// splitting at every byte equal to `sep`.
pub open spec fn split_state(s: Seq<u8>, sep: u8) -> (Seq<Seq<u8>>, Seq<u8>)
    decreases s.len(),
{
    if s.len() == 0 {
        (Seq::empty(), Seq::empty())
    } else {
        let (done, cur) = split_state(s.drop_last(), sep);
        if s.last() == sep {
            (done.push(cur), Seq::empty())
        } else {
            (done, cur.push(s.last()))
        }
    }
}

/// The pieces of `s` between occurrences of `sep` (empty pieces included);
/// there is always one more piece than there are separators.
pub open spec fn split_on(s: Seq<u8>, sep: u8) -> Seq<Seq<u8>> {
    split_state(s, sep).0.push(split_state(s, sep).1)
}

/// `[cur]` when `cur` is a token, nothing when it is empty.
pub open spec fn flush(cur: Seq<u8>) -> Seq<Seq<u8>> {
    if cur.len() > 0 {
        seq![cur]
    } else {
        Seq::empty()
    }
}

/// The tokens of `s`, the first of them continuing the partial token `cur`.
pub open spec fn tokens_from(s: Seq<u8>, cur: Seq<u8>) -> Seq<Seq<u8>>
    decreases s.len(),
{
    if s.len() == 0 {
        flush(cur)
    } else if space_prefix(s) > 0 {
        flush(cur) + tokens_from(s.skip(space_prefix(s)), Seq::empty())
    } else {
        tokens_from(s.drop_first(), cur.push(s[0]))
    }
}

/// The maximal runs of `s` without whitespace characters, in order.
pub open spec fn tokens(s: Seq<u8>) -> Seq<Seq<u8>> {
    tokens_from(s, Seq::empty())
}

/// `s` without leading whitespace characters.
pub open spec fn trim_start(s: Seq<u8>) -> Seq<u8>
    decreases s.len(),
{
    if space_prefix(s) > 0 {
        trim_start(s.skip(space_prefix(s)))
    } else {
        s
    }
}

/// `s` without trailing whitespace characters.
pub open spec fn trim_end(s: Seq<u8>) -> Seq<u8>
    decreases s.len(),
{
    if space_suffix(s) > 0 {
        trim_end(s.take(s.len() - space_suffix(s)))
    } else {
        s
    }
}

/// `s` without leading and trailing whitespace.
pub open spec fn trim(s: Seq<u8>) -> Seq<u8> {
    trim_end(trim_start(s))
}

/// The byte vectors of `v` as sequences.
pub open spec fn seqs_of(v: Seq<Vec<u8>>) -> Seq<Seq<u8>> {
    v.map_values(|x: Vec<u8>| x@)
}

/// Splits `s` at every byte equal to `sep`.
pub fn split_bytes(s: &[u8], sep: u8) -> (r: Vec<Vec<u8>>)
    ensures
        seqs_of(r@) == split_on(s@, sep),
{
    let mut done: Vec<Vec<u8>> = Vec::new();
    let mut cur: Vec<u8> = Vec::new();
    let mut i: usize = 0;
    while i < s.len()
        invariant
            i <= s@.len(),
            (seqs_of(done@), cur@) == split_state(s@.subrange(0, i as int), sep),
        decreases s@.len() - i,
    {
        assert(s@.subrange(0, i + 1).drop_last() =~= s@.subrange(0, i as int));
        if s[i] == sep {
            let piece = cur;
            cur = Vec::new();
            done.push(piece);
            assert(seqs_of(done@) =~= split_state(s@.subrange(0, i as int), sep).0.push(piece@));
        } else {
            cur.push(s[i]);
        }
        i += 1;
    }
    assert(s@.subrange(0, s@.len() as int) =~= s@);
    let ghost before = done@;
    done.push(cur);
    assert(seqs_of(done@) =~= seqs_of(before).push(cur@));
    done
}

/// Splits `s` into its whitespace-separated tokens.
pub fn split_tokens(s: &[u8]) -> (r: Vec<Vec<u8>>)
    ensures
        seqs_of(r@) == tokens(s@),
{
    let n = s.len();
    let mut done: Vec<Vec<u8>> = Vec::new();
    let mut cur: Vec<u8> = Vec::new();
    let mut i: usize = 0;
    assert(s@.subrange(0, n as int) =~= s@);
    assert(seqs_of(done@) =~= Seq::<Seq<u8>>::empty());
    assert(tokens(s@) =~= seqs_of(done@) + tokens_from(s@.subrange(0, n as int), cur@));
    while i < n
        invariant
            n == s@.len(),
            i <= n,
            tokens(s@) == seqs_of(done@) + tokens_from(s@.subrange(i as int, n as int), cur@),
        decreases n - i,
    {
        let ghost rest = s@.subrange(i as int, n as int);
        let sp = space_prefix_at(s, i, n);
        if sp > 0 {
            assert(rest.skip(sp as int) =~= s@.subrange(i + sp, n as int));
            let ghost before = seqs_of(done@);
            if cur.len() > 0 {
                let piece = cur;
                cur = Vec::new();
                done.push(piece);
                assert(seqs_of(done@) =~= before + flush(piece@));
            } else {
                assert(flush(cur@) =~= Seq::<Seq<u8>>::empty());
                assert(seqs_of(done@) =~= before + flush(cur@));
                cur = Vec::new();
            }
            assert(cur@ =~= Seq::<u8>::empty());
            assert(tokens(s@) =~= seqs_of(done@) + tokens_from(s@.subrange(i + sp, n as int), cur@));
            i += sp;
        } else {
            assert(rest.drop_first() =~= s@.subrange(i + 1, n as int));
            assert(rest[0] == s@[i as int]);
            cur.push(s[i]);
            i += 1;
        }
    }
    assert(s@.subrange(n as int, n as int) =~= Seq::<u8>::empty());
    let ghost before = seqs_of(done@);
    if cur.len() > 0 {
        done.push(cur);
        assert(seqs_of(done@) =~= before + flush(cur@));
    } else {
        assert(seqs_of(done@) =~= before + flush(cur@));
    }
    done
}

/// The bounds `(lo, hi)` of `s` without leading and trailing whitespace.
pub fn trim_bounds(s: &[u8]) -> (r: (usize, usize))
    ensures
        r.0 <= r.1 <= s@.len(),
        s@.subrange(r.0 as int, r.1 as int) == trim(s@),
{
    let n = s.len();
    let mut lo: usize = 0;
    assert(s@.subrange(0, n as int) =~= s@);
    let mut sp = space_prefix_at(s, lo, n);
    while sp > 0
        invariant
            n == s@.len(),
            lo <= n,
            sp as int == space_prefix(s@.subrange(lo as int, n as int)),
            sp <= n - lo,
            trim_start(s@) == trim_start(s@.subrange(lo as int, n as int)),
        decreases n - lo,
    {
        assert(s@.subrange(lo as int, n as int).skip(sp as int) =~= s@.subrange(lo + sp, n as int));
        lo += sp;
        sp = space_prefix_at(s, lo, n);
    }
    let mut hi: usize = n;
    let mut sq = space_suffix_at(s, lo, hi);
    while sq > 0
        invariant
            n == s@.len(),
            lo <= hi <= n,
            sq as int == space_suffix(s@.subrange(lo as int, hi as int)),
            sq <= hi - lo,
            trim(s@) == trim_end(s@.subrange(lo as int, hi as int)),
        decreases hi - lo,
    {
        assert(s@.subrange(lo as int, hi as int).take(hi - lo - sq) =~= s@.subrange(lo as int, hi - sq));
        hi -= sq;
        sq = space_suffix_at(s, lo, hi);
    }
    (lo, hi)
}
} // verus!
