//! The cookie header: reading it into a jar, taking the identity cookie out,
//! and writing the rest back.
use vstd::prelude::*;
use vstd::string::*;
use crate::text::{
    is_trimmed, lemma_split_join, lemma_split_no_sep, lemma_split_pieces, split_on, split_text,
    trim, trim_text,
};

verus! {

/// Index of the first `c` in `s`, or -1 where there is none.
pub open spec fn first_index(s: Seq<char>, c: char) -> int
    decreases s.len(),
{
    if s.len() == 0 {
        -1
    } else if s[0] == c {
        0
    } else {
        let r = first_index(s.drop_first(), c);
        if r < 0 {
            -1
        } else {
            r + 1
        }
    }
}

/// One `;`-separated segment: the text before its first `=`, trimmed, is the
/// name; all after it is the value. A segment without `=` is dropped.
pub open spec fn parse_segment(seg: Seq<char>) -> Option<(Seq<char>, Seq<char>)> {
    let i = first_index(seg, '=');
    if i < 0 {
        None
    } else {
        Some((trim(seg.subrange(0, i)), seg.subrange(i + 1, seg.len() as int)))
    }
}

/// The pairs of a list of segments, in order.
pub open spec fn segment_pairs(segs: Seq<Seq<char>>) -> Seq<(Seq<char>, Seq<char>)>
    decreases segs.len(),
{
    if segs.len() == 0 {
        Seq::empty()
    } else {
        let front = segment_pairs(segs.drop_last());
        match parse_segment(segs.last()) {
            Some(p) => front.push(p),
            None => front,
        }
    }
}

/// The name/value pairs of a cookie header, in the order they appear.
pub open spec fn cookie_pairs(header: Seq<char>) -> Seq<(Seq<char>, Seq<char>)> {
    segment_pairs(split_on(header, ';'))
}

/// A list of pairs read as a mapping: a later pair overrides an earlier one.
pub open spec fn pairs_map(ps: Seq<(Seq<char>, Seq<char>)>) -> Map<Seq<char>, Seq<char>>
    decreases ps.len(),
{
    if ps.len() == 0 {
        Map::empty()
    } else {
        pairs_map(ps.drop_last()).insert(ps.last().0, ps.last().1)
    }
}

/// The mapping from cookie name to value that a cookie header holds.
pub open spec fn cookie_map(header: Seq<char>) -> Map<Seq<char>, Seq<char>> {
    pairs_map(cookie_pairs(header))
}

/// `name=value`.
pub open spec fn pair_text(p: (Seq<char>, Seq<char>)) -> Seq<char> {
    p.0 + seq!['='] + p.1
}

/// The pairs written as a header: `name=value` items joined by `; `.
pub open spec fn render(ps: Seq<(Seq<char>, Seq<char>)>) -> Seq<char>
    decreases ps.len(),
{
    if ps.len() == 0 {
        Seq::empty()
    } else if ps.len() == 1 {
        pair_text(ps[0])
    } else {
        render(ps.drop_last()) + seq![';', ' '] + pair_text(ps.last())
    }
}

/// A pair that reads back as itself once written: a trimmed name without `=`
/// or `;`, and a value without `;`.
pub open spec fn pair_ok(p: (Seq<char>, Seq<char>)) -> bool {
    &&& !p.0.contains('=')
    &&& !p.0.contains(';')
    &&& is_trimmed(p.0)
    &&& !p.1.contains(';')
}

pub open spec fn pairs_ok(ps: Seq<(Seq<char>, Seq<char>)>) -> bool {
    forall|j: int| 0 <= j < ps.len() ==> pair_ok(#[trigger] ps[j])
}

pub open spec fn keys_unique(ps: Seq<(Seq<char>, Seq<char>)>) -> bool {
    forall|i: int, j: int| 0 <= i < ps.len() && 0 <= j < ps.len() && i != j ==> ps[i].0 != ps[j].0
}

pub proof fn lemma_first_index(s: Seq<char>, c: char, i: int)
    requires
        0 <= i <= s.len(),
        forall|j: int| 0 <= j < i ==> s[j] != c,
        i == s.len() || s[i] == c,
    ensures
        first_index(s, c) == if i == s.len() { -1 } else { i },
    decreases i,
{
    if i > 0 {
        lemma_first_index(s.drop_first(), c, i - 1);
    }
}

pub proof fn lemma_first_index_range(s: Seq<char>, c: char)
    ensures
        -1 <= first_index(s, c) < s.len(),
        first_index(s, c) >= 0 ==> s[first_index(s, c)] == c,
        forall|j: int| 0 <= j < first_index(s, c) ==> s[j] != c,
        first_index(s, c) < 0 ==> !s.contains(c),
    decreases s.len(),
{
    if s.len() > 0 {
        lemma_first_index_range(s.drop_first(), c);
        let r = first_index(s.drop_first(), c);
        if s[0] != c {
            assert forall|j: int| 0 <= j < first_index(s, c) implies s[j] != c by {
                if j > 0 {
                    assert(s[j] == s.drop_first()[j - 1]);
                }
            }
            if r < 0 {
                if s.contains(c) {
                    let k = choose|k: int| 0 <= k < s.len() && s[k] == c;
                    assert(s.drop_first()[k - 1] == c);
                }
            }
        }
    }
}

/// With distinct names, the mapping holds each pair, and nothing else.
pub proof fn lemma_unique_map(ps: Seq<(Seq<char>, Seq<char>)>)
    requires
        keys_unique(ps),
    ensures
        forall|j: int| 0 <= j < ps.len() ==> #[trigger] pairs_map(ps).contains_key(ps[j].0) && pairs_map(ps)[ps[j].0] == ps[j].1,
        forall|k: Seq<char>| #[trigger] pairs_map(ps).contains_key(k) ==> exists|j: int| 0 <= j < ps.len() && ps[j].0 == k,
    decreases ps.len(),
{
    if ps.len() > 0 {
        let front = ps.drop_last();
        assert(keys_unique(front));
        lemma_unique_map(front);
        assert forall|j: int| 0 <= j < ps.len() implies #[trigger] pairs_map(ps).contains_key(ps[j].0) && pairs_map(ps)[ps[j].0] == ps[j].1 by {
            if j < ps.len() - 1 {
                assert(front[j] == ps[j]);
                assert(pairs_map(front).contains_key(front[j].0));
                assert(ps[j].0 != ps[ps.len() - 1].0);
            }
        }
        assert forall|k: Seq<char>| #[trigger] pairs_map(ps).contains_key(k) implies exists|j: int| 0 <= j < ps.len() && ps[j].0 == k by {
            if k != ps.last().0 {
                assert(pairs_map(front).contains_key(k));
                let j = choose|j: int| 0 <= j < front.len() && front[j].0 == k;
                assert(ps[j] == front[j]);
            } else {
                assert(ps[ps.len() - 1].0 == k);
            }
        }
    }
}

pub proof fn lemma_map_absent(ps: Seq<(Seq<char>, Seq<char>)>, k: Seq<char>)
    requires
        forall|j: int| 0 <= j < ps.len() ==> ps[j].0 != k,
    ensures
        !pairs_map(ps).contains_key(k),
    decreases ps.len(),
{
    if ps.len() > 0 {
        lemma_map_absent(ps.drop_last(), k);
    }
}

/// Giving an existing name a new value is an insert into the mapping.
pub proof fn lemma_map_update(ps: Seq<(Seq<char>, Seq<char>)>, j: int, v: Seq<char>)
    requires
        keys_unique(ps),
        0 <= j < ps.len(),
    ensures
        keys_unique(ps.update(j, (ps[j].0, v))),
        pairs_map(ps.update(j, (ps[j].0, v))) == pairs_map(ps).insert(ps[j].0, v),
{
    let qs = ps.update(j, (ps[j].0, v));
    assert(keys_unique(qs));
    lemma_unique_map(ps);
    lemma_unique_map(qs);
    let m = pairs_map(ps).insert(ps[j].0, v);
    assert forall|k: Seq<char>| #[trigger] pairs_map(qs).contains_key(k) <==> m.contains_key(k) by {
        if pairs_map(qs).contains_key(k) {
            let i = choose|i: int| 0 <= i < qs.len() && qs[i].0 == k;
            assert(pairs_map(ps).contains_key(ps[i].0));
        }
        if m.contains_key(k) && k != ps[j].0 {
            let i = choose|i: int| 0 <= i < ps.len() && ps[i].0 == k;
            assert(pairs_map(qs).contains_key(qs[i].0));
        }
        if k == ps[j].0 {
            assert(pairs_map(qs).contains_key(qs[j].0));
        }
    }
    assert forall|k: Seq<char>| #[trigger] pairs_map(qs).contains_key(k) implies pairs_map(qs)[k] == m[k] by {
        let i = choose|i: int| 0 <= i < qs.len() && qs[i].0 == k;
        assert(pairs_map(qs).contains_key(qs[i].0));
        assert(pairs_map(ps).contains_key(ps[i].0));
    }
    assert(pairs_map(qs) =~= m);
}

/// Taking out the pair of a name is a removal from the mapping.
pub proof fn lemma_map_remove(ps: Seq<(Seq<char>, Seq<char>)>, j: int)
    requires
        keys_unique(ps),
        0 <= j < ps.len(),
    ensures
        keys_unique(ps.remove(j)),
        pairs_map(ps.remove(j)) == pairs_map(ps).remove(ps[j].0),
{
    let qs = ps.remove(j);
    assert forall|a: int, b: int| 0 <= a < qs.len() && 0 <= b < qs.len() && a != b implies qs[a].0 != qs[b].0 by {
        let a1 = if a < j { a } else { a + 1 };
        let b1 = if b < j { b } else { b + 1 };
        assert(qs[a] == ps[a1]);
        assert(qs[b] == ps[b1]);
    }
    lemma_unique_map(ps);
    lemma_unique_map(qs);
    let m = pairs_map(ps).remove(ps[j].0);
    assert forall|k: Seq<char>| #[trigger] pairs_map(qs).contains_key(k) <==> m.contains_key(k) by {
        if pairs_map(qs).contains_key(k) {
            let i = choose|i: int| 0 <= i < qs.len() && qs[i].0 == k;
            let i1 = if i < j { i } else { i + 1 };
            assert(qs[i] == ps[i1]);
            assert(pairs_map(ps).contains_key(ps[i1].0));
        }
        if m.contains_key(k) {
            let i = choose|i: int| 0 <= i < ps.len() && ps[i].0 == k;
            let i0 = if i < j { i } else { i - 1 };
            assert(qs[i0] == ps[i]);
            assert(pairs_map(qs).contains_key(qs[i0].0));
        }
    }
    assert forall|k: Seq<char>| #[trigger] pairs_map(qs).contains_key(k) implies pairs_map(qs)[k] == m[k] by {
        let i = choose|i: int| 0 <= i < qs.len() && qs[i].0 == k;
        let i1 = if i < j { i } else { i + 1 };
        assert(qs[i] == ps[i1]);
        assert(pairs_map(qs).contains_key(qs[i].0));
        assert(pairs_map(ps).contains_key(ps[i1].0));
    }
    assert(pairs_map(qs) =~= m);
}

proof fn lemma_concat_lacks(a: Seq<char>, b: Seq<char>, c: char)
    requires
        !a.contains(c),
        !b.contains(c),
    ensures
        !(a + b).contains(c),
{
    if (a + b).contains(c) {
        let i = choose|i: int| 0 <= i < (a + b).len() && (a + b)[i] == c;
        if i < a.len() {
            assert(a[i] == c);
        } else {
            assert(b[i - a.len()] == c);
        }
    }
}

/// A well-formed pair, written out, with or without a leading space, reads back as itself.
proof fn lemma_parse_pair(p: (Seq<char>, Seq<char>))
    requires
        pair_ok(p),
    ensures
        !pair_text(p).contains(';'),
        parse_segment(pair_text(p)) == Some(p),
        parse_segment(seq![' '] + pair_text(p)) == Some(p),
        !(seq![' '] + pair_text(p)).contains(';'),
{
    let t = pair_text(p);
    let n = p.0.len() as int;
    assert(!seq!['='].contains(';')) by {
        assert(seq!['='][0] == '=');
    }
    lemma_concat_lacks(p.0, seq!['='], ';');
    lemma_concat_lacks(p.0 + seq!['='], p.1, ';');
    assert(!seq![' '].contains(';')) by {
        assert(seq![' '][0] == ' ');
    }
    lemma_concat_lacks(seq![' '], t, ';');
    assert forall|j: int| 0 <= j < n implies t[j] != '=' by {
        assert(t[j] == p.0[j]);
    }
    lemma_first_index(t, '=', n);
    assert(t.subrange(0, n) =~= p.0);
    assert(t.subrange(n + 1, t.len() as int) =~= p.1);
    let u = seq![' '] + t;
    assert forall|j: int| 0 <= j < n + 1 implies u[j] != '=' by {
        if j > 0 {
            assert(u[j] == p.0[j - 1]);
        }
    }
    lemma_first_index(u, '=', n + 1);
    assert(u.subrange(n + 2, u.len() as int) =~= p.1);
    let k1 = u.subrange(0, n + 1);
    assert(k1.drop_first() =~= p.0);
    assert(crate::text::trim_start(k1) == crate::text::trim_start(p.0));
}

/// Pairs that are each well formed read back, once written as a header, as
/// the same pairs in the same order.
pub proof fn lemma_render_pairs(ps: Seq<(Seq<char>, Seq<char>)>)
    requires
        pairs_ok(ps),
    ensures
        cookie_pairs(render(ps)) == ps,
    decreases ps.len(),
{
    if ps.len() == 0 {
        assert(split_on(Seq::<char>::empty(), ';') == seq![Seq::<char>::empty()]);
        let segs = seq![Seq::<char>::empty()];
        assert(segs.drop_last() =~= Seq::<Seq<char>>::empty());
        assert(segment_pairs(segs.drop_last()) =~= Seq::<(Seq<char>, Seq<char>)>::empty());
        assert(first_index(segs.last(), '=') == -1);
        assert(segment_pairs(segs) =~= ps);
    } else if ps.len() == 1 {
        lemma_parse_pair(ps[0]);
        lemma_split_no_sep(pair_text(ps[0]), ';');
        let segs = seq![pair_text(ps[0])];
        assert(segs.drop_last() =~= Seq::<Seq<char>>::empty());
        assert(segment_pairs(segs.drop_last()) =~= Seq::<(Seq<char>, Seq<char>)>::empty());
        assert(segs.last() == pair_text(ps[0]));
        assert(segment_pairs(segs) =~= ps);
    } else {
        let front = ps.drop_last();
        assert(pairs_ok(front)) by {
            assert forall|j: int| 0 <= j < front.len() implies pair_ok(#[trigger] front[j]) by {
                assert(front[j] == ps[j]);
            }
        }
        lemma_render_pairs(front);
        let last = ps.last();
        assert(pair_ok(ps[ps.len() - 1]));
        lemma_parse_pair(last);
        let tail = seq![' '] + pair_text(last);
        assert(render(ps) =~= render(front) + seq![';'] + tail);
        lemma_split_join(render(front), tail, ';');
        lemma_split_no_sep(tail, ';');
        let segs = split_on(render(front), ';') + seq![tail];
        assert(segs.drop_last() =~= split_on(render(front), ';'));
        assert(segment_pairs(segs) =~= ps);
    }
}

/// The identity cookie taken out of a header: the header written from the
/// remaining pairs reads back as exactly the header's other cookies, name and
/// value each, whatever their order.
pub proof fn lemma_strip_round_trip(
    header: Seq<char>,
    name: Seq<char>,
    rest: Seq<(Seq<char>, Seq<char>)>,
)
    requires
        pairs_ok(rest),
        pairs_map(rest) == cookie_map(header).remove(name),
    ensures
        cookie_map(render(rest)) == cookie_map(header).remove(name),
{
    lemma_render_pairs(rest);
}

proof fn lemma_subrange_lacks(s: Seq<char>, a: int, b: int, c: char)
    requires
        0 <= a <= b <= s.len(),
        !s.contains(c),
    ensures
        !s.subrange(a, b).contains(c),
{
    if s.subrange(a, b).contains(c) {
        let i = choose|i: int| 0 <= i < b - a && s.subrange(a, b)[i] == c;
        assert(s[a + i] == c);
    }
}

/// The cookies of a header, each name once, with the value it was given last.
pub struct CookieJar {
    pub entries: Vec<(String, String)>,
}

impl View for CookieJar {
    type V = Seq<(Seq<char>, Seq<char>)>;

    open spec fn view(&self) -> Seq<(Seq<char>, Seq<char>)> {
        self.entries@.map_values(|e: (String, String)| (e.0@, e.1@))
    }
}

impl CookieJar {
    /// Names are distinct, and every pair reads back as itself once written.
    pub open spec fn wf(&self) -> bool {
        keys_unique(self@) && pairs_ok(self@)
    }

    /// The mapping from cookie name to value.
    pub open spec fn to_map(&self) -> Map<Seq<char>, Seq<char>> {
        pairs_map(self@)
    }

    pub fn new() -> (r: CookieJar)
        ensures
            r.wf(),
            r@.len() == 0,
            r.to_map() == Map::<Seq<char>, Seq<char>>::empty(),
    {
        CookieJar { entries: Vec::new() }
    }

    /// Position of the pair named `name`, if there is one.
    pub fn position(&self, name: &String) -> (r: Option<usize>)
        ensures
            match r {
                Some(j) => j < self@.len() && self@[j as int].0 == name@,
                None => forall|j: int| 0 <= j < self@.len() ==> self@[j].0 != name@,
            },
    {
        let mut j: usize = 0;
        while j < self.entries.len()
            invariant
                j <= self.entries.len(),
                forall|i: int| 0 <= i < j ==> self@[i].0 != name@,
            decreases self.entries.len() - j,
        {
            if self.entries[j].0 == *name {
                return Some(j);
            }
            j = j + 1;
        }
        None
    }

    /// Sets `name` to `value`, in place where the name is already there,
    /// else as a new last pair.
    pub fn insert(&mut self, name: String, value: String)
        requires
            old(self).wf(),
            pair_ok((name@, value@)),
        ensures
            final(self).wf(),
            final(self).to_map() == old(self).to_map().insert(name@, value@),
    {
        match self.position(&name) {
            Some(j) => {
                proof {
                    lemma_map_update(self@, j as int, value@);
                }
                let ghost before = self@;
                self.entries.set(j, (name, value));
                assert(self@ =~= before.update(j as int, (before[j as int].0, value@)));
            },
            None => {
                let ghost before = self@;
                let ghost p = (name@, value@);
                self.entries.push((name, value));
                assert(self@ =~= before.push(p));
                assert(self@.drop_last() =~= before);
            },
        }
    }

    /// Takes the pair named `name` out, and gives back its value.
    pub fn remove(&mut self, name: &str) -> (r: Option<String>)
        requires
            old(self).wf(),
        ensures
            final(self).wf(),
            final(self).to_map() == old(self).to_map().remove(name@),
            match r {
                Some(v) => old(self).to_map().contains_key(name@) && v@ == old(self).to_map()[name@],
                None => !old(self).to_map().contains_key(name@),
            },
    {
        let key = String::from_str(name);
        match self.position(&key) {
            Some(j) => {
                proof {
                    lemma_map_remove(self@, j as int);
                    lemma_unique_map(self@);
                }
                let ghost before = self@;
                let (_, v) = self.entries.remove(j);
                assert(self@ =~= before.remove(j as int));
                assert(pairs_ok(self@)) by {
                    assert forall|i: int| 0 <= i < self@.len() implies pair_ok(#[trigger] self@[i]) by {
                        if i < j {
                            assert(self@[i] == before[i]);
                        } else {
                            assert(self@[i] == before[i + 1]);
                        }
                    }
                }
                Some(v)
            },
            None => {
                proof {
                    lemma_map_absent(self@, name@);
                }
                assert(self.to_map() =~= self.to_map().remove(name@));
                None
            },
        }
    }
}

/// One segment read as a pair: `None` where it holds no `=`.
fn parse_segment_text(seg: &str) -> (r: Option<(String, String)>)
    requires
        !seg@.contains(';'),
    ensures
        match r {
            Some(p) => parse_segment(seg@) == Some((p.0@, p.1@)) && pair_ok((p.0@, p.1@)),
            None => parse_segment(seg@) is None,
        },
{
    let n = seg.unicode_len();
    let mut i: usize = 0;
    while i < n && seg.get_char(i) != '='
        invariant
            n == seg@.len(),
            i <= n,
            forall|j: int| 0 <= j < i ==> seg@[j] != '=',
        decreases n - i,
    {
        i = i + 1;
    }
    proof {
        lemma_first_index(seg@, '=', i as int);
    }
    if i == n {
        return None;
    }
    let pre = seg.substring_char(0, i);
    let key = trim_text(pre);
    let value = String::from_str(seg.substring_char(i + 1, n));
    proof {
        assert(!pre@.contains('=')) by {
            if pre@.contains('=') {
                let k = choose|k: int| 0 <= k < pre@.len() && pre@[k] == '=';
                assert(seg@[k] == '=');
            }
        }
        lemma_subrange_lacks(seg@, 0, i as int, ';');
        lemma_subrange_lacks(seg@, i + 1, n as int, ';');
        let (a, b) = choose|a: int, b: int| 0 <= a <= b <= pre@.len() && key@ == pre@.subrange(a, b);
        lemma_subrange_lacks(pre@, a, b, '=');
        lemma_subrange_lacks(pre@, a, b, ';');
    }
    Some((key, value))
}

/// Reads a cookie header into a jar. Segments are split at `;`; in each, the
/// text before the first `=` (trimmed) names the cookie and the rest is its
/// value; segments without `=` are dropped; a later cookie of the same name wins.
pub fn load_cookie(cookie: &str) -> (jar: CookieJar)
    ensures
        jar.wf(),
        jar.to_map() == cookie_map(cookie@),
{
    let segs = split_text(cookie, ';');
    let ghost sv = segs@.map_values(|p: String| p@);
    proof {
        lemma_split_pieces(cookie@, ';');
    }
    let mut jar = CookieJar::new();
    let mut i: usize = 0;
    while i < segs.len()
        invariant
            sv == segs@.map_values(|p: String| p@),
            sv == split_on(cookie@, ';'),
            i <= segs.len(),
            jar.wf(),
            jar.to_map() == pairs_map(segment_pairs(sv.subrange(0, i as int))),
        decreases segs.len() - i,
    {
        let seg = segs[i].as_str();
        assert(sv[i as int] == seg@);
        proof {
            lemma_split_pieces(cookie@, ';');
        }
        assert(split_on(cookie@, ';')[i as int] == seg@);
        assert(!seg@.contains(';'));
        assert(sv.subrange(0, i + 1).drop_last() =~= sv.subrange(0, i as int));
        assert(sv.subrange(0, i + 1).last() == seg@);
        let ghost before = segment_pairs(sv.subrange(0, i as int));
        match parse_segment_text(seg) {
            Some(p) => {
                assert(segment_pairs(sv.subrange(0, i + 1)) == before.push((p.0@, p.1@)));
                assert(before.push((p.0@, p.1@)).drop_last() =~= before);
                jar.insert(p.0, p.1);
            },
            None => {
                assert(segment_pairs(sv.subrange(0, i + 1)) == before);
            },
        }
        i = i + 1;
    }
    assert(sv.subrange(0, segs.len() as int) =~= sv);
    jar
}

/// Writes the jar as a header: `name=value` pairs joined by `; `, in the
/// jar's order.
pub fn stringify_cookie(jar: &CookieJar) -> (r: String)
    ensures
        r@ == render(jar@),
{
    let mut out = String::new();
    let mut i: usize = 0;
    while i < jar.entries.len()
        invariant
            i <= jar.entries.len(),
            out@ == render(jar@.subrange(0, i as int)),
        decreases jar.entries.len() - i,
    {
        let ghost sub = jar@.subrange(0, i + 1);
        assert(sub.drop_last() =~= jar@.subrange(0, i as int));
        if i > 0 {
            out.append("; ");
        }
        out.append(jar.entries[i].0.as_str());
        out.append("=");
        out.append(jar.entries[i].1.as_str());
        proof {
            reveal_strlit("; ");
            reveal_strlit("=");
            if i == 0 {
                assert(out@ =~= pair_text(sub[0]));
            } else {
                assert(out@ =~= render(sub.drop_last()) + seq![';', ' '] + pair_text(sub.last()));
            }
        }
        i = i + 1;
    }
    assert(jar@.subrange(0, jar.entries.len() as int) =~= jar@);
    out
}

} // verus!
