//! Character-level text helpers shared by the parsers and formatters of
//! the library: whitespace trimming, splitting on a separator, joining,
//! decimal rendering and lexicographic comparison, each specified over
//! `Seq<char>`.
use vstd::prelude::*;
use vstd::string::*;

verus! {

/// Unicode `White_Space`, the property that `char::is_whitespace` tests.
pub open spec fn is_ws(c: char) -> bool {
    let u = c as u32;
    ||| 0x09 <= u <= 0x0D
    ||| u == 0x20
    ||| u == 0x85
    ||| u == 0xA0
    ||| u == 0x1680
    ||| 0x2000 <= u <= 0x200A
    ||| u == 0x2028
    ||| u == 0x2029
    ||| u == 0x202F
    ||| u == 0x205F
    ||| u == 0x3000
}

pub fn is_whitespace(c: char) -> (r: bool)
    ensures
        r == is_ws(c),
{
    let u = c as u32;
    (0x09 <= u && u <= 0x0D) || u == 0x20 || u == 0x85 || u == 0xA0 || u == 0x1680 || (0x2000
        <= u && u <= 0x200A) || u == 0x2028 || u == 0x2029 || u == 0x202F || u == 0x205F || u
        == 0x3000
}

/// Whether `c` is trimmed: whitespace where `pat` is `None`, else the
/// character `pat` holds.
pub open spec fn trims(c: char, pat: Option<char>) -> bool {
    match pat {
        Some(p) => c == p,
        None => is_ws(c),
    }
}

/// First index at or after `i` whose character is not trimmed (or
/// `s.len()`).
pub open spec fn skip_from(s: Seq<char>, pat: Option<char>, i: int) -> int
    decreases s.len() - i,
{
    if 0 <= i < s.len() && trims(s[i], pat) {
        skip_from(s, pat, i + 1)
    } else {
        i
    }
}

/// Moving down from `j`, the end of the last character at or after `lo`
/// that is not trimmed (or `lo`).
pub open spec fn back_to(s: Seq<char>, pat: Option<char>, lo: int, j: int) -> int
    decreases j - lo,
{
    if lo < j <= s.len() && trims(s[j - 1], pat) {
        back_to(s, pat, lo, j - 1)
    } else {
        j
    }
}

/// `s` without leading and trailing trimmed characters.
pub open spec fn trim_pat(s: Seq<char>, pat: Option<char>) -> Seq<char> {
    let a = skip_from(s, pat, 0);
    s.subrange(a, back_to(s, pat, a, s.len() as int))
}

/// `s` without leading and trailing whitespace, as `str::trim` gives it.
pub open spec fn trim(s: Seq<char>) -> Seq<char> {
    trim_pat(s, None)
}

/// The pieces of `s` between occurrences of `sep`, as `str::split` gives
/// them for a single-character pattern.
pub open spec fn split_on(s: Seq<char>, sep: char) -> Seq<Seq<char>>
    decreases s.len(),
{
    if s.len() == 0 {
        seq![Seq::<char>::empty()]
    } else {
        let prev = split_on(s.drop_last(), sep);
        if s.last() == sep {
            prev.push(Seq::<char>::empty())
        } else {
            prev.update(prev.len() - 1, prev.last().push(s.last()))
        }
    }
}

pub proof fn lemma_split_nonempty(s: Seq<char>, sep: char)
    ensures
        split_on(s, sep).len() >= 1,
    decreases s.len(),
{
    if s.len() > 0 {
        lemma_split_nonempty(s.drop_last(), sep);
    }
}

/// No piece of a split holds the separator.
pub proof fn lemma_split_pieces_free(s: Seq<char>, sep: char)
    ensures
        forall|k: int| 0 <= k < split_on(s, sep).len() ==> !(#[trigger] split_on(s, sep)[k]).contains(sep),
    decreases s.len(),
{
    if s.len() > 0 {
        lemma_split_pieces_free(s.drop_last(), sep);
        lemma_split_nonempty(s.drop_last(), sep);
        let prev = split_on(s.drop_last(), sep);
        let cur = split_on(s, sep);
        if s.last() == sep {
            assert forall|k: int| 0 <= k < cur.len() implies !(#[trigger] cur[k]).contains(sep) by {
                if k < prev.len() {
                    assert(cur[k] == prev[k]);
                } else {
                    assert(cur[k] =~= Seq::<char>::empty());
                }
            }
        } else {
            let l = prev.last().push(s.last());
            assert(!prev[prev.len() - 1].contains(sep));
            assert(!l.contains(sep)) by {
                if l.contains(sep) {
                    let i = choose|i: int| 0 <= i < l.len() && l[i] == sep;
                    if i < l.len() - 1 {
                        assert(prev.last()[i] == sep);
                    }
                }
            }
            assert forall|k: int| 0 <= k < cur.len() implies !(#[trigger] cur[k]).contains(sep) by {
                if k < prev.len() - 1 {
                    assert(cur[k] == prev[k]);
                } else {
                    assert(cur[k] == l);
                }
            }
        }
    }
}

/// The joined text starts where its first non-empty piece starts: with
/// the first piece's first character, or with the separator where the
/// first piece is empty and another follows.
pub proof fn lemma_join_first(ps: Seq<Seq<char>>, sep: Seq<char>)
    requires
        ps.len() >= 1,
        sep.len() > 0,
    ensures
        join(ps, sep).len() >= ps[0].len(),
        ps[0].len() > 0 ==> join(ps, sep)[0] == ps[0][0],
        ps.len() >= 2 && ps[0].len() == 0 ==> join(ps, sep).len() > 0 && join(ps, sep)[0] == sep[0],
    decreases ps.len(),
{
    if ps.len() >= 2 {
        let dl = ps.drop_last();
        lemma_join_first(dl, sep);
        assert(dl[0] == ps[0]);
        let j = join(dl, sep);
        assert(join(ps, sep) == j + sep + ps.last());
        if j.len() > 0 {
            assert(join(ps, sep)[0] == j[0]);
            if ps[0].len() == 0 && dl.len() == 1 {
                assert(j == ps[0]);
            }
        } else {
            assert(join(ps, sep)[0] == sep[0]);
        }
    }
}

/// A piece without the separator splits into itself alone.
pub proof fn lemma_split_no_sep(x: Seq<char>, sep: char)
    requires
        !x.contains(sep),
    ensures
        split_on(x, sep) == seq![x],
    decreases x.len(),
{
    if x.len() == 0 {
        assert(x =~= Seq::<char>::empty());
        assert(split_on(x, sep) =~= seq![x]);
    } else {
        assert(!x.drop_last().contains(sep)) by {
            if x.drop_last().contains(sep) {
                let k = choose|k: int| 0 <= k < x.drop_last().len() && x.drop_last()[k] == sep;
                assert(x[k] == sep);
            }
        }
        lemma_split_no_sep(x.drop_last(), sep);
        assert(x.last() != sep) by {
            assert(x[x.len() - 1] == x.last());
        }
        assert(x.drop_last().push(x.last()) =~= x);
        let prev = split_on(x.drop_last(), sep);
        assert(prev.len() == 1 && prev.last() == x.drop_last());
        assert(split_on(x, sep) == prev.update(0, x.drop_last().push(x.last())));
        assert(split_on(x, sep) =~= seq![x]);
    }
}

/// Splitting at a separator between `s` and `t` splits each side.
pub proof fn lemma_split_concat(s: Seq<char>, t: Seq<char>, sep: char)
    ensures
        split_on(s + seq![sep] + t, sep) == split_on(s, sep) + split_on(t, sep),
    decreases t.len(),
{
    let u = s + seq![sep] + t;
    if t.len() == 0 {
        assert(u.drop_last() =~= s);
        assert(u.last() == sep);
        assert(split_on(t, sep) =~= seq![Seq::<char>::empty()]);
        assert(split_on(u, sep) =~= split_on(s, sep) + split_on(t, sep));
    } else {
        assert(u.drop_last() =~= s + seq![sep] + t.drop_last());
        assert(u.last() == t.last());
        lemma_split_concat(s, t.drop_last(), sep);
        lemma_split_nonempty(t.drop_last(), sep);
        lemma_split_nonempty(s, sep);
        let a = split_on(s, sep);
        let b = split_on(t.drop_last(), sep);
        if t.last() == sep {
            assert(split_on(u, sep) =~= a + split_on(t, sep));
        } else {
            assert((a + b).last() == b.last());
            assert(split_on(u, sep) =~= a + split_on(t, sep));
        }
    }
}

/// `skip_from` moves past trimmed characters only.
pub proof fn lemma_skip_from(s: Seq<char>, pat: Option<char>, i: int)
    requires
        0 <= i <= s.len(),
    ensures
        i <= skip_from(s, pat, i) <= s.len(),
        skip_from(s, pat, i) < s.len() ==> !trims(s[skip_from(s, pat, i)], pat),
    decreases s.len() - i,
{
    if i < s.len() && trims(s[i], pat) {
        lemma_skip_from(s, pat, i + 1);
    }
}

/// `back_to` moves down past trimmed characters only.
pub proof fn lemma_back_to(s: Seq<char>, pat: Option<char>, lo: int, j: int)
    requires
        0 <= lo <= j <= s.len(),
    ensures
        lo <= back_to(s, pat, lo, j) <= j,
        back_to(s, pat, lo, j) > lo ==> !trims(s[back_to(s, pat, lo, j) - 1], pat),
    decreases j - lo,
{
    if lo < j && trims(s[j - 1], pat) {
        lemma_back_to(s, pat, lo, j - 1);
    }
}

/// What trimming keeps is a stretch of `s` that, unless empty, neither
/// starts nor ends with a trimmed character.
pub proof fn lemma_trim_pat_ends(s: Seq<char>, pat: Option<char>)
    ensures
        0 <= skip_from(s, pat, 0) <= back_to(s, pat, skip_from(s, pat, 0), s.len() as int) <= s.len(),
        trim_pat(s, pat).len() > 0 ==> !trims(trim_pat(s, pat)[0], pat) && !trims(
            trim_pat(s, pat).last(),
            pat,
        ),
{
    let a = skip_from(s, pat, 0);
    lemma_skip_from(s, pat, 0);
    lemma_back_to(s, pat, a, s.len() as int);
}

/// A piece that neither starts nor ends with whitespace trims to itself.
pub proof fn lemma_trim_plain(x: Seq<char>)
    requires
        x.len() > 0,
        !is_ws(x[0]),
        !is_ws(x[x.len() - 1]),
    ensures
        trim(x) == x,
{
    assert(skip_from(x, None, 0) == 0);
    assert(back_to(x, None, 0, x.len() as int) == x.len());
    assert(x.subrange(0, x.len() as int) =~= x);
}

/// The pieces of `ps` concatenated with `sep` between neighbours.
pub open spec fn join(ps: Seq<Seq<char>>, sep: Seq<char>) -> Seq<char>
    decreases ps.len(),
{
    if ps.len() == 0 {
        Seq::<char>::empty()
    } else if ps.len() == 1 {
        ps[0]
    } else {
        join(ps.drop_last(), sep) + sep + ps.last()
    }
}

/// The character of a decimal digit.
pub open spec fn digit_char(d: nat) -> char {
    ((d + 48) as u32) as char
}

/// Decimal rendering of `n`, most significant digit first, no padding.
pub open spec fn decimal(n: nat) -> Seq<char>
    decreases n,
{
    if n < 10 {
        seq![digit_char(n)]
    } else {
        decimal(n / 10).push(digit_char(n % 10))
    }
}

/// Decimal rendering of `n` padded with zeros to at least two digits, as
/// `format!("{:02}", n)` gives it.
pub open spec fn decimal_pad2(n: nat) -> Seq<char> {
    if n < 10 {
        seq!['0'].push(digit_char(n))
    } else {
        decimal(n)
    }
}

/// Decimal rendering of a signed integer, as `format!("{}", n)` gives it.
pub open spec fn signed_decimal(n: int) -> Seq<char> {
    if n < 0 {
        seq!['-'] + decimal((-n) as nat)
    } else {
        decimal(n as nat)
    }
}

/// Strict lexicographic order on character sequences, comparing
/// characters by code point; on UTF-8 strings this is the order of `str`.
pub open spec fn seq_lt(a: Seq<char>, b: Seq<char>) -> bool
    decreases a.len(),
{
    if b.len() == 0 {
        false
    } else if a.len() == 0 {
        true
    } else if a[0] == b[0] {
        seq_lt(a.drop_first(), b.drop_first())
    } else {
        (a[0] as int) < (b[0] as int)
    }
}

pub proof fn lemma_seq_lt_irreflexive(a: Seq<char>)
    ensures
        !seq_lt(a, a),
    decreases a.len(),
{
    if a.len() > 0 {
        lemma_seq_lt_irreflexive(a.drop_first());
    }
}

pub proof fn lemma_seq_lt_trichotomy(a: Seq<char>, b: Seq<char>)
    ensures
        seq_lt(a, b) || a == b || seq_lt(b, a),
        !(seq_lt(a, b) && seq_lt(b, a)),
    decreases a.len(),
{
    if a.len() == 0 && b.len() == 0 {
        assert(a =~= b);
    } else if a.len() > 0 && b.len() > 0 && a[0] == b[0] {
        lemma_seq_lt_trichotomy(a.drop_first(), b.drop_first());
        if a.drop_first() == b.drop_first() {
            assert forall|i: int| 0 <= i < a.len() implies a[i] == b[i] by {
                if i > 0 {
                    assert(a[i] == a.drop_first()[i - 1]);
                    assert(b[i] == b.drop_first()[i - 1]);
                }
            }
            assert(a =~= b);
        }
    }
}

pub proof fn lemma_seq_lt_transitive(a: Seq<char>, b: Seq<char>, c: Seq<char>)
    requires
        seq_lt(a, b),
        seq_lt(b, c),
    ensures
        seq_lt(a, c),
    decreases a.len(),
{
    if a.len() > 0 && a[0] == b[0] && b[0] == c[0] {
        lemma_seq_lt_transitive(a.drop_first(), b.drop_first(), c.drop_first());
    }
}

/// Appends `c` to `s` (`String::push`).
#[verifier::external_body]
pub(crate) fn push_char(s: &mut String, c: char)
    ensures
        final(s)@ == old(s)@.push(c),
{
    s.push(c);
}

/// The characters of `s`, in order.
pub fn chars_of(s: &str) -> (v: Vec<char>)
    ensures
        v@ == s@,
{
    let n = s.unicode_len();
    let mut v: Vec<char> = Vec::new();
    let mut i: usize = 0;
    while i < n
        invariant
            n == s@.len(),
            i <= n,
            v@ == s@.subrange(0, i as int),
        decreases n - i,
    {
        let c = s.get_char(i);
        v.push(c);
        i = i + 1;
    }
    v
}

/// A string holding exactly the characters of `v`.
pub fn string_of(v: &[char]) -> (s: String)
    ensures
        s@ == v@,
{
    let mut s = String::new();
    let mut i: usize = 0;
    while i < v.len()
        invariant
            i <= v.len(),
            s@ == v@.subrange(0, i as int),
        decreases v.len() - i,
    {
        push_char(&mut s, v[i]);
        i = i + 1;
    }
    s
}

/// The characters of `v[lo..hi]`.
pub fn slice_chars(v: &[char], lo: usize, hi: usize) -> (r: Vec<char>)
    requires
        lo <= hi <= v@.len(),
    ensures
        r@ == v@.subrange(lo as int, hi as int),
{
    let mut r: Vec<char> = Vec::new();
    let mut i = lo;
    while i < hi
        invariant
            lo <= i <= hi <= v@.len(),
            r@ == v@.subrange(lo as int, i as int),
        decreases hi - i,
    {
        r.push(v[i]);
        i = i + 1;
    }
    r
}

/// Appends the characters of `w` to `out`.
pub fn extend_chars(out: &mut Vec<char>, w: &[char])
    ensures
        final(out)@ == old(out)@ + w@,
{
    let mut i: usize = 0;
    while i < w.len()
        invariant
            i <= w.len(),
            out@ == old(out)@ + w@.subrange(0, i as int),
        decreases w.len() - i,
    {
        out.push(w[i]);
        i = i + 1;
    }
}

/// Whether `c` is trimmed under `pat`.
pub fn is_trimmed(c: char, pat: Option<char>) -> (r: bool)
    ensures
        r == trims(c, pat),
{
    match pat {
        Some(p) => c == p,
        None => is_whitespace(c),
    }
}

/// `v` without leading and trailing characters trimmed under `pat`.
pub fn trim_pat_chars(v: &[char], pat: Option<char>) -> (r: Vec<char>)
    ensures
        r@ == trim_pat(v@, pat),
{
    let n = v.len();
    let mut a: usize = 0;
    while a < n && is_trimmed(v[a], pat)
        invariant
            a <= n == v@.len(),
            skip_from(v@, pat, 0) == skip_from(v@, pat, a as int),
        decreases n - a,
    {
        a = a + 1;
    }
    let mut b: usize = n;
    while b > a && is_trimmed(v[b - 1], pat)
        invariant
            a <= b <= n == v@.len(),
            skip_from(v@, pat, 0) == a,
            back_to(v@, pat, a as int, n as int) == back_to(v@, pat, a as int, b as int),
        decreases b,
    {
        b = b - 1;
    }
    slice_chars(v, a, b)
}

/// `v` without leading and trailing whitespace.
pub fn trim_chars(v: &[char]) -> (r: Vec<char>)
    ensures
        r@ == trim(v@),
{
    trim_pat_chars(v, None)
}

/// The pieces of `v` between occurrences of `sep`.
pub fn split_chars(v: &[char], sep: char) -> (r: Vec<Vec<char>>)
    ensures
        r@.len() == split_on(v@, sep).len(),
        forall|k: int| 0 <= k < r@.len() ==> #[trigger] r@[k]@ == split_on(v@, sep)[k],
{
    let mut parts: Vec<Vec<char>> = Vec::new();
    let mut cur: Vec<char> = Vec::new();
    let mut i: usize = 0;
    while i < v.len()
        invariant
            i <= v.len(),
            parts@.len() + 1 == split_on(v@.subrange(0, i as int), sep).len(),
            forall|k: int|
                0 <= k < parts@.len() ==> #[trigger] parts@[k]@ == split_on(
                    v@.subrange(0, i as int),
                    sep,
                )[k],
            cur@ == split_on(v@.subrange(0, i as int), sep).last(),
        decreases v.len() - i,
    {
        proof {
            let s = v@.subrange(0, i as int + 1);
            assert(s.drop_last() =~= v@.subrange(0, i as int));
            lemma_split_nonempty(v@.subrange(0, i as int), sep);
        }
        if v[i] == sep {
            let done = cur;
            parts.push(done);
            cur = Vec::new();
        } else {
            cur.push(v[i]);
        }
        i = i + 1;
    }
    proof {
        assert(v@.subrange(0, v@.len() as int) =~= v@);
    }
    parts.push(cur);
    parts
}

/// `ps` concatenated with `sep` between neighbours.
pub fn join_chars(ps: &[Vec<char>], sep: char) -> (r: Vec<char>)
    ensures
        r@ == join(ps@.map_values(|p: Vec<char>| p@), seq![sep]),
{
    let ghost views = ps@.map_values(|p: Vec<char>| p@);
    let mut r: Vec<char> = Vec::new();
    let mut i: usize = 0;
    while i < ps.len()
        invariant
            i <= ps.len(),
            views == ps@.map_values(|p: Vec<char>| p@),
            r@ == join(views.subrange(0, i as int), seq![sep]),
        decreases ps.len() - i,
    {
        proof {
            let t = views.subrange(0, i as int + 1);
            assert(t.drop_last() =~= views.subrange(0, i as int));
        }
        if i > 0 {
            r.push(sep);
        }
        extend_chars(&mut r, ps[i].as_slice());
        i = i + 1;
    }
    proof {
        assert(views.subrange(0, ps@.len() as int) =~= views);
    }
    r
}

/// Appends the decimal rendering of `n` to `out`.
pub fn push_decimal(out: &mut Vec<char>, n: u64)
    ensures
        final(out)@ == old(out)@ + decimal(n as nat),
    decreases n,
{
    if n >= 10 {
        push_decimal(out, n / 10);
    }
    let d = (n % 10) as u8;
    let c = (d + 48) as char;
    out.push(c);
    proof {
        assert(c == digit_char((n % 10) as nat));
    }
}

/// Whether `a` orders strictly before `b` in code-point order.
pub fn chars_lt(a: &[char], b: &[char]) -> (r: bool)
    ensures
        r == seq_lt(a@, b@),
{
    let mut k: usize = 0;
    assert(a@.skip(0) =~= a@);
    assert(b@.skip(0) =~= b@);
    while k < a.len() && k < b.len() && a[k] == b[k]
        invariant
            k <= a@.len(),
            k <= b@.len(),
            seq_lt(a@, b@) == seq_lt(a@.skip(k as int), b@.skip(k as int)),
        decreases a.len() - k,
    {
        assert(a@.skip(k as int)[0] == a@[k as int]);
        assert(b@.skip(k as int)[0] == b@[k as int]);
        proof {
            assert(a@.skip(k as int).drop_first() =~= a@.skip(k as int + 1));
            assert(b@.skip(k as int).drop_first() =~= b@.skip(k as int + 1));
        }
        k = k + 1;
    }
    if k < a.len() && k < b.len() {
        a[k] < b[k]
    } else {
        k == a.len() && k < b.len()
    }
}

} // verus!
