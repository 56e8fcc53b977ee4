//! Character-level helpers: splitting on a separator and trimming white space.
use vstd::prelude::*;
use vstd::string::*;

verus! {

/// Splits `s` at every occurrence of `sep`; the result always has at least one
/// piece, and `n` separators give `n + 1` pieces (as `str::split` does).
pub open spec fn split_on(s: Seq<char>, sep: char) -> Seq<Seq<char>>
    decreases s.len(),
{
    if s.len() == 0 {
        seq![Seq::<char>::empty()]
    } else {
        let r = split_on(s.drop_last(), sep);
        if s.last() == sep {
            r.push(Seq::<char>::empty())
        } else {
            r.update(r.len() - 1, r.last().push(s.last()))
        }
    }
}

/// The Unicode `White_Space` property, as `char::is_whitespace` defines it.
pub open spec fn is_white(c: char) -> bool {
    ('\u{9}' <= c && c <= '\u{d}') || c == ' ' || c == '\u{85}' || c == '\u{a0}'
        || c == '\u{1680}' || ('\u{2000}' <= c && c <= '\u{200a}') || c == '\u{2028}'
        || c == '\u{2029}' || c == '\u{202f}' || c == '\u{205f}' || c == '\u{3000}'
}

pub open spec fn trim_start(s: Seq<char>) -> Seq<char>
    decreases s.len(),
{
    if s.len() > 0 && is_white(s[0]) {
        trim_start(s.drop_first())
    } else {
        s
    }
}

pub open spec fn trim_end(s: Seq<char>) -> Seq<char>
    decreases s.len(),
{
    if s.len() > 0 && is_white(s.last()) {
        trim_end(s.drop_last())
    } else {
        s
    }
}

/// `s` without leading and trailing white space, as `str::trim` gives it.
pub open spec fn trim(s: Seq<char>) -> Seq<char> {
    trim_end(trim_start(s))
}

/// True when `s` has no white space at either end.
pub open spec fn is_trimmed(s: Seq<char>) -> bool {
    s.len() == 0 || (!is_white(s[0]) && !is_white(s.last()))
}

pub proof fn lemma_split_nonempty(s: Seq<char>, sep: char)
    ensures
        split_on(s, sep).len() >= 1,
    decreases s.len(),
{
    if s.len() > 0 {
        lemma_split_nonempty(s.drop_last(), sep);
    }
}

/// A text without the separator is a single piece.
pub proof fn lemma_split_no_sep(s: Seq<char>, sep: char)
    requires
        !s.contains(sep),
    ensures
        split_on(s, sep) == seq![s],
    decreases s.len(),
{
    if s.len() > 0 {
        assert(!s.drop_last().contains(sep)) by {
            if s.drop_last().contains(sep) {
                let i = choose|i: int| 0 <= i < s.drop_last().len() && s.drop_last()[i] == sep;
                assert(s[i] == sep);
            }
        }
        lemma_split_no_sep(s.drop_last(), sep);
        assert(s[s.len() - 1] != sep);
        assert(s.drop_last().push(s.last()) =~= s);
        assert(split_on(s, sep) =~= seq![s]);
    } else {
        assert(s =~= Seq::<char>::empty());
    }
}

/// Splitting a concatenation joins the last piece of the front with the first
/// piece of the back.
pub proof fn lemma_split_concat(a: Seq<char>, b: Seq<char>, sep: char)
    ensures
        split_on(a + b, sep) == split_on(a, sep).drop_last().push(
            split_on(a, sep).last() + split_on(b, sep)[0],
        ) + split_on(b, sep).drop_first(),
    decreases b.len(),
{
    lemma_split_nonempty(a, sep);
    lemma_split_nonempty(b, sep);
    let sa = split_on(a, sep);
    if b.len() == 0 {
        assert(a + b =~= a);
        assert(sa.last() + Seq::<char>::empty() =~= sa.last());
        assert(sa.drop_last().push(sa.last()) =~= sa);
        assert(split_on(b, sep).drop_first() =~= Seq::<Seq<char>>::empty());
        assert(sa + Seq::<Seq<char>>::empty() =~= sa);
    } else {
        let b0 = b.drop_last();
        lemma_split_concat(a, b0, sep);
        lemma_split_nonempty(b0, sep);
        assert((a + b).drop_last() =~= a + b0);
        assert((a + b).last() == b.last());
        let sb0 = split_on(b0, sep);
        let sb = split_on(b, sep);
        let front = sa.drop_last().push(sa.last() + sb0[0]);
        if b.last() == sep {
            assert(sb == sb0.push(Seq::<char>::empty()));
            if sb0.len() == 1 {
                assert(sb0.drop_first() =~= Seq::<Seq<char>>::empty());
                assert(sb.drop_first() =~= seq![Seq::<char>::empty()]);
            } else {
                assert(sb.drop_first() =~= sb0.drop_first().push(Seq::<char>::empty()));
            }
            assert((front + sb0.drop_first()).push(Seq::<char>::empty()) =~= front
                + sb.drop_first());
        } else {
            let c = b.last();
            assert(sb == sb0.update(sb0.len() - 1, sb0.last().push(c)));
            if sb0.len() == 1 {
                assert(sb[0] == sb0[0].push(c));
                assert(sa.last() + sb0[0].push(c) =~= (sa.last() + sb0[0]).push(c));
                assert(sb0.drop_first() =~= Seq::<Seq<char>>::empty());
                assert(sb.drop_first() =~= Seq::<Seq<char>>::empty());
                let whole = front + sb0.drop_first();
                assert(whole =~= front);
                assert(whole.update(whole.len() - 1, whole.last().push(c)) =~= sa.drop_last().push(
                    sa.last() + sb[0],
                ) + sb.drop_first());
            } else {
                let whole = front + sb0.drop_first();
                assert(whole.last() == sb0.last());
                assert(whole.update(whole.len() - 1, whole.last().push(c)) =~= front
                    + sb.drop_first());
            }
        }
    }
}

/// A separator between two texts: the pieces of each, side by side.
pub proof fn lemma_split_join(a: Seq<char>, b: Seq<char>, sep: char)
    ensures
        split_on(a + seq![sep] + b, sep) == split_on(a, sep) + split_on(b, sep),
{
    lemma_split_nonempty(a, sep);
    lemma_split_concat(a + seq![sep], b, sep);
    let a1 = a + seq![sep];
    assert(a1.drop_last() =~= a);
    assert(split_on(a1, sep) == split_on(a, sep).push(Seq::<char>::empty()));
    let sa1 = split_on(a1, sep);
    let sb = split_on(b, sep);
    lemma_split_nonempty(b, sep);
    assert(sa1.last() + sb[0] =~= sb[0]);
    assert(sa1.drop_last() =~= split_on(a, sep));
    assert(split_on(a, sep).push(sb[0]) + sb.drop_first() =~= split_on(a, sep) + sb);
}

/// Whether `c` is white space; the same answer as `char::is_whitespace`.
pub fn is_white_char(c: char) -> (r: bool)
    ensures
        r == is_white(c),
{
    ('\u{9}' <= c && c <= '\u{d}') || c == ' ' || c == '\u{85}' || c == '\u{a0}'
        || c == '\u{1680}' || ('\u{2000}' <= c && c <= '\u{200a}') || c == '\u{2028}'
        || c == '\u{2029}' || c == '\u{202f}' || c == '\u{205f}' || c == '\u{3000}'
}

pub proof fn lemma_trim_start_skip(s: Seq<char>, k: int)
    requires
        0 <= k <= s.len(),
        forall|i: int| 0 <= i < k ==> is_white(s[i]),
    ensures
        trim_start(s) == trim_start(s.subrange(k, s.len() as int)),
    decreases k,
{
    if k > 0 {
        lemma_trim_start_skip(s.drop_first(), k - 1);
        assert(s.drop_first().subrange(k - 1, s.len() - 1) =~= s.subrange(k, s.len() as int));
    } else {
        assert(s.subrange(0, s.len() as int) =~= s);
    }
}

pub proof fn lemma_trim_end_skip(s: Seq<char>, k: int)
    requires
        0 <= k <= s.len(),
        forall|i: int| k <= i < s.len() ==> is_white(s[i]),
    ensures
        trim_end(s) == trim_end(s.subrange(0, k)),
    decreases s.len() - k,
{
    if k < s.len() {
        lemma_trim_end_skip(s.drop_last(), k);
        assert(s.drop_last().subrange(0, k) =~= s.subrange(0, k));
    } else {
        assert(s.subrange(0, k) =~= s);
    }
}

/// No piece of a split holds the separator.
pub proof fn lemma_split_pieces(s: Seq<char>, sep: char)
    ensures
        forall|j: int| 0 <= j < split_on(s, sep).len() ==> !(#[trigger] split_on(s, sep)[j]).contains(sep),
    decreases s.len(),
{
    if s.len() > 0 {
        lemma_split_pieces(s.drop_last(), sep);
        lemma_split_nonempty(s.drop_last(), sep);
        let r = split_on(s.drop_last(), sep);
        if s.last() != sep {
            let l = r.last().push(s.last());
            assert forall|j: int| 0 <= j < split_on(s, sep).len() implies !(#[trigger] split_on(s, sep)[j]).contains(sep) by {
                if j == r.len() - 1 {
                    assert(!r[j].contains(sep));
                    if l.contains(sep) {
                        let k = choose|k: int| 0 <= k < l.len() && l[k] == sep;
                        if k < r[j].len() {
                            assert(r[j][k] == sep);
                        }
                    }
                }
            }
        } else {
            assert forall|j: int| 0 <= j < split_on(s, sep).len() implies !(#[trigger] split_on(s, sep)[j]).contains(sep) by {
                if j == r.len() {
                    assert(split_on(s, sep)[j] =~= Seq::<char>::empty());
                }
            }
        }
    }
}

/// Splits `s` at every `sep`, keeping empty pieces.
pub fn split_text(s: &str, sep: char) -> (r: Vec<String>)
    ensures
        r@.map_values(|p: String| p@) == split_on(s@, sep),
{
    let n = s.unicode_len();
    let mut pieces: Vec<String> = Vec::new();
    let mut start: usize = 0;
    let mut i: usize = 0;
    assert(s@.subrange(0, 0) =~= Seq::<char>::empty());
    assert(pieces@.map_values(|p: String| p@).push(s@.subrange(0, 0)) =~= seq![Seq::<char>::empty()]);
    while i < n
        invariant
            n == s@.len(),
            start <= i <= n,
            pieces@.map_values(|p: String| p@).push(s@.subrange(start as int, i as int))
                == split_on(s@.subrange(0, i as int), sep),
        decreases n - i,
    {
        let c = s.get_char(i);
        let ghost prev = s@.subrange(0, i as int);
        assert(s@.subrange(0, i + 1).drop_last() =~= prev);
        if c == sep {
            let piece = s.substring_char(start, i);
            pieces.push(String::from_str(piece));
            assert(s@.subrange(i + 1, i + 1) =~= Seq::<char>::empty());
        } else {
            assert(s@.subrange(start as int, i + 1) =~= s@.subrange(start as int, i as int).push(c));
        }
        i = i + 1;
        if c == sep {
            start = i;
        }
    }
    let last = s.substring_char(start, n);
    pieces.push(String::from_str(last));
    assert(s@.subrange(0, n as int) =~= s@);
    assert(pieces@.map_values(|p: String| p@) =~= split_on(s@, sep));
    pieces
}

/// `s` without leading and trailing white space.
pub fn trim_text(s: &str) -> (r: String)
    ensures
        r@ == trim(s@),
        is_trimmed(r@),
        exists|a: int, b: int| 0 <= a <= b <= s@.len() && r@ == s@.subrange(a, b),
{
    let n = s.unicode_len();
    let mut a: usize = 0;
    while a < n && is_white_char(s.get_char(a))
        invariant
            n == s@.len(),
            a <= n,
            forall|i: int| 0 <= i < a ==> is_white(s@[i]),
        decreases n - a,
    {
        a = a + 1;
    }
    let mut b: usize = n;
    while b > a && is_white_char(s.get_char(b - 1))
        invariant
            n == s@.len(),
            a <= b <= n,
            forall|i: int| b <= i < n ==> is_white(s@[i]),
        decreases b,
    {
        b = b - 1;
    }
    let mid = s.substring_char(a, b);
    proof {
        lemma_trim_start_skip(s@, a as int);
        let t = s@.subrange(a as int, n as int);
        if a < n {
            assert(!is_white(t[0]));
        } else {
            assert(t.len() == 0);
        }
        assert(trim_start(s@) == t);
        lemma_trim_end_skip(t, b - a);
        assert(t.subrange(0, b - a) =~= mid@);
        if b > a {
            assert(!is_white(mid@.last()));
            assert(trim_end(mid@) == mid@);
        }
    }
    assert(mid@ == s@.subrange(a as int, b as int));
    String::from_str(mid)
}

} // verus!
