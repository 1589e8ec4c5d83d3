//! Discovery of instruments reachable over VISA: the records, the port,
//! and the steps between the bus queries: ordering the resources found,
//! naming each instrument and assembling the records.
use vstd::prelude::*;
use crate::errors::DomainError;
use crate::idn::{idn_field, idn_firmware, idn_parts, parse_idn};
use crate::text::{
    lemma_seq_lt_irreflexive, digit_char, chars_of, decimal, decimal_pad2, lemma_seq_lt_transitive,
    lemma_seq_lt_trichotomy, push_decimal, seq_lt, string_of, trim_pat, trim_pat_chars, chars_lt,
    lemma_trim_pat_ends, skip_from, back_to,
};

verus! {

/// Instrument metadata obtained through VISA resource discovery and a
/// `*IDN?` query.
#[derive(Debug)]
pub struct DiscoveredInstrument {
    /// Short, human-friendly identifier assigned by discovery (not
    /// necessarily stable across runs).
    pub id: String,
    /// Raw VISA resource string, e.g. `TCPIP0::192.168.1.100::INSTR`.
    pub resource: String,
    pub vendor: String,
    pub model: String,
    pub serial: String,
    pub firmware: String,
}

/// Port for discovering instruments reachable over VISA (USB, LAN/TCPIP,
/// GPIB, Serial/ASRL). What it finds depends on the host and its buses;
/// a verified adapter names its outcomes by `discover_outcome` (one that
/// does not promises nothing more than `true`).
pub trait InstrumentDiscoveryPort {
    /// What `discover` may return.
    open spec fn discover_outcome(&self, r: Result<Vec<DiscoveredInstrument>, DomainError>) -> bool {
        true
    }

    /// The instruments found on the buses.
    fn discover(&self) -> (r: Result<Vec<DiscoveredInstrument>, DomainError>)
        ensures
            self.discover_outcome(r),
    ;
}

/// Whether `c` is an ASCII letter or digit.
pub open spec fn is_ascii_alnum(c: char) -> bool {
    ||| 48 <= c as int <= 57
    ||| 65 <= c as int <= 90
    ||| 97 <= c as int <= 122
}

/// The slug character for `c`: ASCII letters lower-cased, ASCII digits
/// kept, anything else a hyphen.
pub open spec fn slug_char(c: char) -> char {
    if 65 <= c as int <= 90 {
        ((c as int + 32) as u32) as char
    } else if is_ascii_alnum(c) {
        c
    } else {
        '-'
    }
}

/// The slug of a model string: every character mapped by `slug_char`,
/// hyphens trimmed from both ends.
pub open spec fn slug_of(model: Seq<char>) -> Seq<char> {
    trim_pat(model.map_values(|c: char| slug_char(c)), Some('-'))
}

/// The identifier that discovery gives the instrument at position
/// `index` with the given model: `<slug>-NN`, or `instrument-NN` where the
/// slug is empty, `NN` being `index + 1` with at least two digits.
pub open spec fn generated_id(index: nat, model: Seq<char>) -> Seq<char> {
    let slug = slug_of(model);
    let base = if slug.len() == 0 {
        "instrument"@
    } else {
        slug
    };
    base + seq!['-'] + decimal_pad2(index + 1)
}

/// The slug character for `c`.
pub fn slug_character(c: char) -> (r: char)
    ensures
        r == slug_char(c),
{
    if 'A' <= c && c <= 'Z' {
        let b = (c as u32) as u8;
        (b + 32) as char
    } else if ('a' <= c && c <= 'z') || ('0' <= c && c <= '9') {
        c
    } else {
        '-'
    }
}

/// Generates a short, human-friendly identifier for a discovered
/// instrument from its model string plus its (one-based, zero-padded)
/// position.
pub fn generate_id(index: usize, model: &str) -> (r: String)
    requires
        index < usize::MAX,
    ensures
        r@ == generated_id(index as nat, model@),
{
    let chars = chars_of(model);
    let mut mapped: Vec<char> = Vec::new();
    let mut i: usize = 0;
    while i < chars.len()
        invariant
            i <= chars@.len(),
            mapped@ == chars@.subrange(0, i as int).map_values(|c: char| slug_char(c)),
        decreases chars.len() - i,
    {
        let ghost before = mapped@;
        mapped.push(slug_character(chars[i]));
        proof {
            assert(chars@.subrange(0, i as int + 1) =~= chars@.subrange(0, i as int).push(
                chars@[i as int],
            ));
            assert(mapped@ =~= chars@.subrange(0, i as int + 1).map_values(
                |c: char| slug_char(c),
            ));
        }
        i = i + 1;
    }
    proof {
        assert(chars@.subrange(0, chars@.len() as int) =~= chars@);
    }
    let slug = trim_pat_chars(mapped.as_slice(), Some('-'));
    let mut out: Vec<char> = if slug.len() == 0 {
        chars_of("instrument")
    } else {
        slug
    };
    out.push('-');
    let n: u64 = (index as u64) + 1;
    if n < 10 {
        out.push('0');
    }
    let ghost head = out@;
    push_decimal(&mut out, n);
    proof {
        if n < 10 {
            assert(decimal(n as nat) == seq![crate::text::digit_char(n as nat)]);
        }
    }
    assert(out@ =~= generated_id(index as nat, model@));
    string_of(out.as_slice())
}

/// A character that generated identifiers are made of: a lower-case
/// ASCII letter, an ASCII digit or a hyphen.
pub open spec fn id_char(c: char) -> bool {
    ||| 97 <= c as int <= 122
    ||| 48 <= c as int <= 57
    ||| c == '-'
}

/// Generated identifiers are made of lower-case ASCII letters, digits and
/// hyphens only, and neither start nor end with a hyphen.
pub proof fn law_generated_id_shape(index: nat, model: Seq<char>)
    ensures
        generated_id(index, model).len() > 0,
        forall|k: int|
            0 <= k < generated_id(index, model).len() ==> id_char(
                #[trigger] generated_id(index, model)[k],
            ),
        generated_id(index, model)[0] != '-',
        generated_id(index, model).last() != '-',
{
    let mapped = model.map_values(|c: char| slug_char(c));
    assert forall|k: int| 0 <= k < mapped.len() implies id_char(#[trigger] mapped[k]) by {
        let c = model[k];
        if 65 <= c as int <= 90 {
            assert(((c as int + 32) as u32) as char as int == c as int + 32);
        }
    }
    lemma_trim_pat_ends(mapped, Some('-'));
    let a = skip_from(mapped, Some('-'), 0);
    let b = back_to(mapped, Some('-'), a, mapped.len() as int);
    let slug = slug_of(model);
    assert(slug == mapped.subrange(a, b));
    assert forall|k: int| 0 <= k < slug.len() implies id_char(#[trigger] slug[k]) by {
        assert(slug[k] == mapped[a + k]);
    }
    reveal_strlit("instrument");
    let base = if slug.len() == 0 {
        "instrument"@
    } else {
        slug
    };
    assert forall|k: int| 0 <= k < base.len() implies id_char(#[trigger] base[k]) by {}
    assert(base.len() > 0 && base[0] != '-');
    let pad = decimal_pad2(index + 1);
    lemma_decimal_digits(index + 1);
    lemma_pad2_digits(index + 1);
    let id = generated_id(index, model);
    assert(id == base + seq!['-'] + pad);
    assert forall|k: int| 0 <= k < id.len() implies id_char(#[trigger] id[k]) by {
        if k < base.len() {
            assert(id[k] == base[k]);
        } else if k == base.len() {
        } else {
            assert(id[k] == pad[k - base.len() - 1]);
        }
    }
    assert(id[0] == base[0]);
    assert(id.last() == pad.last());
}

/// The character views of a list of strings.
pub open spec fn views(v: Seq<String>) -> Seq<Seq<char>> {
    v.map_values(|s: String| s@)
}

/// Every element orders strictly before every later one.
pub open spec fn strictly_sorted(s: Seq<Seq<char>>) -> bool {
    forall|i: int, j: int| 0 <= i < j < s.len() ==> seq_lt(#[trigger] s[i], #[trigger] s[j])
}

/// Inserting `x` where everything before is smaller and what follows is
/// larger keeps a sequence strictly sorted.
pub proof fn lemma_insert_sorted(s: Seq<Seq<char>>, p: int, x: Seq<char>)
    requires
        strictly_sorted(s),
        0 <= p <= s.len(),
        forall|i: int| 0 <= i < p ==> seq_lt(#[trigger] s[i], x),
        p < s.len() ==> seq_lt(x, s[p]),
    ensures
        strictly_sorted(s.insert(p, x)),
{
    let t = s.insert(p, x);
    assert forall|i: int, j: int| 0 <= i < j < t.len() implies seq_lt(
        #[trigger] t[i],
        #[trigger] t[j],
    ) by {
        if j < p {
            assert(t[i] == s[i] && t[j] == s[j]);
        } else if j == p {
            assert(t[i] == s[i]);
        } else if i < p {
            assert(t[i] == s[i] && t[j] == s[j - 1]);
        } else if i == p {
            assert(t[j] == s[j - 1]);
            if j - 1 > p {
                assert(seq_lt(s[p], s[j - 1]));
                lemma_seq_lt_transitive(x, s[p], s[j - 1]);
            }
        } else {
            assert(t[i] == s[i - 1] && t[j] == s[j - 1]);
        }
    }
}

pub proof fn lemma_push_contains(s: Seq<Seq<char>>, a: Seq<char>, y: Seq<char>)
    ensures
        s.push(a).contains(y) <==> (s.contains(y) || y == a),
{
    if s.push(a).contains(y) {
        let k = choose|k: int| 0 <= k < s.push(a).len() && s.push(a)[k] == y;
        if k < s.len() {
            assert(s[k] == y);
        }
    }
    if s.contains(y) {
        let k = choose|k: int| 0 <= k < s.len() && s[k] == y;
        assert(s.push(a)[k] == y);
    }
    if y == a {
        assert(s.push(a)[s.len() as int] == y);
    }
}

/// The resources in code-point order, each once, as `sort` then `dedup`
/// leave them.
pub fn normalize_resources(resources: Vec<String>) -> (r: Vec<String>)
    ensures
        strictly_sorted(views(r@)),
        forall|x: Seq<char>| views(r@).contains(x) <==> views(resources@).contains(x),
{
    let mut out: Vec<String> = Vec::new();
    let mut keys: Vec<Vec<char>> = Vec::new();
    let mut i: usize = 0;
    while i < resources.len()
        invariant
            i <= resources@.len(),
            keys@.len() == out@.len(),
            forall|k: int| 0 <= k < keys@.len() ==> #[trigger] keys@[k]@ == out@[k]@,
            strictly_sorted(views(out@)),
            forall|x: Seq<char>|
                views(out@).contains(x) <==> views(resources@.subrange(0, i as int)).contains(x),
        decreases resources.len() - i,
    {
        let x = chars_of(resources[i].as_str());
        let ghost xs = x@;
        let ghost vo = views(out@);
        assert(forall|y: Seq<char>| vo.contains(y) <==> views(resources@.subrange(0, i as int)).contains(y));
        let mut p: usize = 0;
        while p < keys.len() && chars_lt(keys[p].as_slice(), x.as_slice())
            invariant
                p <= keys@.len() == out@.len(),
                forall|k: int| 0 <= k < keys@.len() ==> #[trigger] keys@[k]@ == out@[k]@,
                vo == views(out@),
                x@ == xs,
                forall|k: int| 0 <= k < p ==> seq_lt(#[trigger] vo[k], xs),
            decreases keys.len() - p,
        {
            assert(vo[p as int] == keys@[p as int]@);
            p = p + 1;
        }
        let ghost prefix = resources@.subrange(0, i as int);
        proof {
            assert(resources@.subrange(0, i as int + 1) =~= prefix.push(resources@[i as int]));
            assert(views(prefix.push(resources@[i as int])) =~= views(prefix).push(xs));
        }
        let duplicate = p < keys.len() && !chars_lt(x.as_slice(), keys[p].as_slice());
        if duplicate {
            proof {
                assert(vo[p as int] == keys@[p as int]@);
                lemma_seq_lt_trichotomy(xs, vo[p as int]);
                assert(vo[p as int] == xs);
                assert(vo.contains(xs));
            }
        } else {
            proof {
                if p < keys@.len() {
                    assert(vo[p as int] == keys@[p as int]@);
                }
                lemma_insert_sorted(vo, p as int, xs);
            }
            let copy = resources[i].clone();
            let ghost old_out = out@;
            let ghost old_keys = keys@;
            out.insert(p, copy);
            keys.insert(p, x);
            proof {
                assert(views(out@) =~= vo.insert(p as int, xs));
                assert forall|k: int| 0 <= k < keys@.len() implies #[trigger] keys@[k]@
                    == out@[k]@ by {
                    if k < p {
                        assert(keys@[k] == old_keys[k] && out@[k] == old_out[k]);
                    } else if k > p {
                        assert(keys@[k] == old_keys[k - 1] && out@[k] == old_out[k - 1]);
                    }
                }
                assert forall|y: Seq<char>| views(out@).contains(y) implies vo.contains(y)
                    || y == xs by {
                    let k = choose|k: int| 0 <= k < views(out@).len() && views(out@)[k] == y;
                    if k < p {
                        assert(vo[k] == y);
                    } else if k > p {
                        assert(vo[k - 1] == y);
                    }
                }
                assert forall|y: Seq<char>| vo.contains(y) implies views(out@).contains(y) by {
                    let k = choose|k: int| 0 <= k < vo.len() && vo[k] == y;
                    if k < p {
                        assert(views(out@)[k] == y);
                    } else {
                        assert(views(out@)[k + 1] == y);
                    }
                }
                assert(views(out@)[p as int] == xs);
            }
        }
        proof {
            assert forall|y: Seq<char>| views(out@).contains(y) <==> views(
                resources@.subrange(0, i as int + 1),
            ).contains(y) by {
                lemma_push_contains(views(prefix), xs, y);
                assert(vo.contains(y) <==> views(prefix).contains(y));
                if duplicate {
                    assert(views(out@) == vo);
                } else {
                    assert(views(out@)[p as int] == xs);
                    assert(views(out@).contains(y) <==> (vo.contains(y) || y == xs));
                }
            }
        }
        i = i + 1;
    }
    proof {
        assert(resources@.subrange(0, resources@.len() as int) =~= resources@);
    }
    out
}

/// The reply positions, resources and raw replies of the resources that
/// answered, in order.
pub open spec fn answered(resources: Seq<Seq<char>>, replies: Seq<Option<Seq<char>>>) -> Seq<
    (nat, Seq<char>, Seq<char>),
>
    decreases resources.len(),
{
    if resources.len() == 0 || replies.len() < resources.len() {
        Seq::empty()
    } else {
        let n = (resources.len() - 1) as nat;
        let prev = answered(resources.drop_last(), replies.subrange(0, n as int));
        match replies[n as int] {
            Some(raw) => prev.push((n, resources.last(), raw)),
            None => prev,
        }
    }
}

/// Whether `d` is the record that discovery builds for the resource
/// `resource` at position `index` that answered `raw`.
pub open spec fn discovered_from(
    d: DiscoveredInstrument,
    index: nat,
    resource: Seq<char>,
    raw: Seq<char>,
) -> bool {
    let parts = idn_parts(raw);
    &&& d.id@ == generated_id(index, idn_field(parts, 1))
    &&& d.resource@ == resource
    &&& d.vendor@ == idn_field(parts, 0)
    &&& d.model@ == idn_field(parts, 1)
    &&& d.serial@ == idn_field(parts, 2)
    &&& d.firmware@ == idn_firmware(parts)
}

/// Assembles the discovered instruments from the resources queried and
/// their `*IDN?` replies (`None` where the query failed): one record per
/// answered resource, in order, named after its position among all the
/// resources queried.
pub fn assemble_discovered(resources: Vec<String>, replies: Vec<Option<String>>) -> (r: Vec<
    DiscoveredInstrument,
>)
    requires
        replies@.len() == resources@.len(),
        resources@.len() < usize::MAX,
    ensures
        ({
            let a = answered(
                views(resources@),
                replies@.map_values(|o: Option<String>| match o {
                    Some(s) => Some(s@),
                    None => None,
                }),
            );
            &&& r@.len() == a.len()
            &&& forall|k: int|
                0 <= k < r@.len() ==> discovered_from(#[trigger] r@[k], a[k].0, a[k].1, a[k].2)
        }),
{
    let ghost rv = views(resources@);
    let ghost pv = replies@.map_values(
        |o: Option<String>|
            match o {
                Some(s) => Some(s@),
                None => None,
            },
    );
    let mut out: Vec<DiscoveredInstrument> = Vec::new();
    let mut i: usize = 0;
    while i < resources.len()
        invariant
            i <= resources@.len() == replies@.len(),
            resources@.len() < usize::MAX,
            rv == views(resources@),
            pv == replies@.map_values(
                |o: Option<String>|
                    match o {
                        Some(s) => Some(s@),
                        None => None,
                    },
            ),
            ({
                let a = answered(rv.subrange(0, i as int), pv.subrange(0, i as int));
                &&& out@.len() == a.len()
                &&& forall|k: int|
                    0 <= k < out@.len() ==> discovered_from(
                        #[trigger] out@[k],
                        a[k].0,
                        a[k].1,
                        a[k].2,
                    )
            }),
        decreases resources.len() - i,
    {
        proof {
            assert(rv.subrange(0, i as int + 1).drop_last() =~= rv.subrange(0, i as int));
            assert(pv.subrange(0, i as int + 1).subrange(0, i as int) =~= pv.subrange(
                0,
                i as int,
            ));
            assert(rv.subrange(0, i as int + 1).last() == resources@[i as int]@);
        }
        match &replies[i] {
            Some(raw) => {
                let fields = parse_idn(raw.as_str());
                let id = generate_id(i, fields.model.as_str());
                out.push(
                    DiscoveredInstrument {
                        id,
                        resource: resources[i].clone(),
                        vendor: fields.vendor,
                        model: fields.model,
                        serial: fields.serial,
                        firmware: fields.firmware,
                    },
                );
            },
            None => {},
        }
        i = i + 1;
    }
    proof {
        assert(rv.subrange(0, resources@.len() as int) =~= rv);
        assert(pv.subrange(0, resources@.len() as int) =~= pv);
    }
    out
}

/// Every character of `decimal(n)` is a digit, and the first is `0` only
/// for zero.
pub proof fn lemma_decimal_digits(n: nat)
    ensures
        forall|k: int| 0 <= k < decimal(n).len() ==> 48 <= (#[trigger] decimal(n)[k]) as int <= 57,
        decimal(n).len() >= 1,
        n >= 10 ==> decimal(n).len() >= 2,
        (decimal(n)[0] as int == 48) ==> n == 0,
    decreases n,
{
    if n >= 10 {
        lemma_decimal_digits(n / 10);
        let d = decimal(n / 10);
        assert(decimal(n) == d.push(digit_char(n % 10)));
        assert forall|k: int| 0 <= k < decimal(n).len() implies 48 <= (#[trigger] decimal(n)[k]) as int
            <= 57 by {
            if k < d.len() {
                assert(decimal(n)[k] == d[k]);
            }
        }
        assert(decimal(n)[0] == d[0]);
    }
}

/// Distinct numbers have distinct decimal renderings.
pub proof fn lemma_decimal_injective(a: nat, b: nat)
    requires
        decimal(a) == decimal(b),
    ensures
        a == b,
    decreases a,
{
    lemma_decimal_digits(a);
    lemma_decimal_digits(b);
    if a < 10 && b < 10 {
        assert(decimal(a)[0] == digit_char(a));
        assert(decimal(b)[0] == digit_char(b));
    } else if a >= 10 && b >= 10 {
        let da = decimal(a / 10);
        let db = decimal(b / 10);
        assert(decimal(a) == da.push(digit_char(a % 10)));
        assert(decimal(b) == db.push(digit_char(b % 10)));
        assert(da =~= decimal(a).drop_last());
        assert(db =~= decimal(b).drop_last());
        lemma_decimal_injective(a / 10, b / 10);
        assert(decimal(a).last() == digit_char(a % 10));
        assert(decimal(b).last() == digit_char(b % 10));
    }
}

/// Distinct numbers have distinct two-digit-padded renderings.
pub proof fn lemma_pad2_injective(a: nat, b: nat)
    requires
        decimal_pad2(a) == decimal_pad2(b),
    ensures
        a == b,
{
    lemma_decimal_digits(a);
    lemma_decimal_digits(b);
    if a < 10 && b < 10 {
        assert(decimal_pad2(a)[1] == digit_char(a));
        assert(decimal_pad2(b)[1] == digit_char(b));
    } else if a >= 10 && b >= 10 {
        lemma_decimal_injective(a, b);
    } else if a < 10 {
        assert(decimal_pad2(a)[0] == '0');
        assert(decimal_pad2(b)[0] == decimal(b)[0]);
    } else {
        assert(decimal_pad2(b)[0] == '0');
        assert(decimal_pad2(a)[0] == decimal(a)[0]);
    }
}

/// Every character of a padded rendering is a digit.
pub proof fn lemma_pad2_digits(n: nat)
    ensures
        forall|k: int| 0 <= k < decimal_pad2(n).len() ==> 48 <= (#[trigger] decimal_pad2(n)[k]) as int
            <= 57,
{
    lemma_decimal_digits(n);
    if n < 10 {
        assert forall|k: int| 0 <= k < decimal_pad2(n).len() implies 48 <= (#[trigger] decimal_pad2(
            n,
        )[k]) as int <= 57 by {
            if k == 1 {
                assert(decimal_pad2(n)[1] == decimal(n)[0]);
            }
        }
    }
}

/// Discovery names no two positions alike: the identifiers it generates
/// for different positions differ, whatever the models.
pub proof fn law_generated_ids_distinct(i: nat, j: nat, m1: Seq<char>, m2: Seq<char>)
    requires
        i != j,
    ensures
        generated_id(i, m1) != generated_id(j, m2),
{
    let s1 = slug_of(m1);
    let s2 = slug_of(m2);
    let b1 = if s1.len() == 0 { "instrument"@ } else { s1 };
    let b2 = if s2.len() == 0 { "instrument"@ } else { s2 };
    let p1 = decimal_pad2(i + 1);
    let p2 = decimal_pad2(j + 1);
    let x = generated_id(i, m1);
    let y = generated_id(j, m2);
    lemma_pad2_digits(i + 1);
    lemma_pad2_digits(j + 1);
    if x == y {
        assert(x == b1 + seq!['-'] + p1);
        assert(y == b2 + seq!['-'] + p2);
        if b1.len() < b2.len() {
            assert(y[b2.len() as int] == '-');
            assert(x[b2.len() as int] == p1[b2.len() - b1.len() - 1]);
        } else if b2.len() < b1.len() {
            assert(x[b1.len() as int] == '-');
            assert(y[b1.len() as int] == p2[b1.len() - b2.len() - 1]);
        } else {
            assert(p1 =~= x.subrange(b1.len() as int + 1, x.len() as int));
            assert(p2 =~= y.subrange(b2.len() as int + 1, y.len() as int));
            lemma_pad2_injective(i + 1, j + 1);
        }
    }
}

proof fn lemma_sorted_tail_contains(a: Seq<Seq<char>>, x: Seq<char>)
    requires
        strictly_sorted(a),
        a.len() > 0,
    ensures
        a.drop_first().contains(x) <==> (a.contains(x) && x != a[0]),
{
    if a.drop_first().contains(x) {
        let k = choose|k: int| 0 <= k < a.drop_first().len() && a.drop_first()[k] == x;
        assert(a[k + 1] == x);
        assert(seq_lt(a[0], a[k + 1]));
        lemma_seq_lt_irreflexive(x);
    }
    if a.contains(x) && x != a[0] {
        let k = choose|k: int| 0 <= k < a.len() && a[k] == x;
        assert(k != 0);
        assert(a.drop_first()[k - 1] == x);
    }
}

/// The order in which resources are found does not matter: two strictly
/// ordered lists that hold the same resources are the same list, so
/// `normalize_resources` gives one answer for any arrangement of its
/// input.
pub proof fn law_normalized_order_is_canonical(a: Seq<Seq<char>>, b: Seq<Seq<char>>)
    requires
        strictly_sorted(a),
        strictly_sorted(b),
        forall|x: Seq<char>| a.contains(x) <==> b.contains(x),
    ensures
        a == b,
    decreases a.len(),
{
    if a.len() == 0 {
        if b.len() > 0 {
            assert(b.contains(b[0]));
        }
        assert(a =~= b);
    } else {
        assert(a.contains(a[0]));
        assert(b.len() > 0);
        assert(b.contains(b[0]));
        let j = choose|j: int| 0 <= j < b.len() && b[j] == a[0];
        let i = choose|i: int| 0 <= i < a.len() && a[i] == b[0];
        if j > 0 {
            assert(seq_lt(b[0], b[j]));
            if i > 0 {
                assert(seq_lt(a[0], a[i]));
                lemma_seq_lt_trichotomy(a[0], b[0]);
            } else {
                lemma_seq_lt_irreflexive(b[0]);
            }
        }
        assert(a[0] == b[0]);
        let ta = a.drop_first();
        let tb = b.drop_first();
        assert(strictly_sorted(ta)) by {
            assert forall|p: int, q: int| 0 <= p < q < ta.len() implies seq_lt(#[trigger] ta[p], #[trigger] ta[q]) by {
                assert(ta[p] == a[p + 1] && ta[q] == a[q + 1]);
            }
        }
        assert(strictly_sorted(tb)) by {
            assert forall|p: int, q: int| 0 <= p < q < tb.len() implies seq_lt(#[trigger] tb[p], #[trigger] tb[q]) by {
                assert(tb[p] == b[p + 1] && tb[q] == b[q + 1]);
            }
        }
        assert forall|x: Seq<char>| ta.contains(x) <==> tb.contains(x) by {
            lemma_sorted_tail_contains(a, x);
            lemma_sorted_tail_contains(b, x);
        }
        law_normalized_order_is_canonical(ta, tb);
        assert(a =~= seq![a[0]] + ta);
        assert(b =~= seq![b[0]] + tb);
    }
}

proof fn lemma_answered_positions(resources: Seq<Seq<char>>, replies: Seq<Option<Seq<char>>>)
    ensures
        forall|k: int|
            0 <= k < answered(resources, replies).len() ==> (#[trigger] answered(resources, replies)[k]).0
                < resources.len(),
        forall|k: int, l: int|
            0 <= k < l < answered(resources, replies).len() ==> (#[trigger] answered(resources, replies)[k]).0
                < (#[trigger] answered(resources, replies)[l]).0,
        forall|k: int|
            0 <= k < answered(resources, replies).len() ==> (#[trigger] answered(resources, replies)[k]).1
                == resources[answered(resources, replies)[k].0 as int],
    decreases resources.len(),
{
    if resources.len() > 0 && replies.len() >= resources.len() {
        let n = (resources.len() - 1) as nat;
        let prev = answered(resources.drop_last(), replies.subrange(0, n as int));
        lemma_answered_positions(resources.drop_last(), replies.subrange(0, n as int));
        let a = answered(resources, replies);
        match replies[n as int] {
            Some(raw) => {
                assert(a == prev.push((n, resources.last(), raw)));
                assert forall|k: int| 0 <= k < a.len() implies (#[trigger] a[k]).0 < resources.len() by {
                    if k < prev.len() {
                        assert(a[k] == prev[k]);
                    }
                }
                assert forall|k: int| 0 <= k < a.len() implies (#[trigger] a[k]).1 == resources[a[k].0 as int] by {
                    if k < prev.len() {
                        assert(a[k] == prev[k]);
                        assert(resources.drop_last()[prev[k].0 as int] == resources[prev[k].0 as int]);
                    }
                }
                assert forall|k: int, l: int| 0 <= k < l < a.len() implies (#[trigger] a[k]).0 < (
                #[trigger] a[l]).0 by {
                    assert(a[k] == prev[k]);
                    if l < prev.len() {
                        assert(a[l] == prev[l]);
                    }
                }
            },
            None => {
                assert(a == prev);
                assert forall|k: int| 0 <= k < a.len() implies (#[trigger] a[k]).1 == resources[a[k].0 as int] by {
                    assert(resources.drop_last()[prev[k].0 as int] == resources[prev[k].0 as int]);
                }
            },
        }
    }
}

/// One discovery names every instrument it reports differently: the
/// records assembled from the resources and their replies carry pairwise
/// distinct identifiers.
pub proof fn law_discovered_ids_distinct(
    resources: Seq<Seq<char>>,
    replies: Seq<Option<Seq<char>>>,
    found: Seq<DiscoveredInstrument>,
)
    requires
        found.len() == answered(resources, replies).len(),
        forall|k: int|
            0 <= k < found.len() ==> discovered_from(
                #[trigger] found[k],
                answered(resources, replies)[k].0,
                answered(resources, replies)[k].1,
                answered(resources, replies)[k].2,
            ),
    ensures
        forall|k: int, l: int| 0 <= k < l < found.len() ==> (#[trigger] found[k]).id@ != (#[trigger] found[l]).id@,
{
    let a = answered(resources, replies);
    lemma_answered_positions(resources, replies);
    assert forall|k: int, l: int| 0 <= k < l < found.len() implies (#[trigger] found[k]).id@ != (
    #[trigger] found[l]).id@ by {
        assert(discovered_from(found[k], a[k].0, a[k].1, a[k].2));
        assert(discovered_from(found[l], a[l].0, a[l].1, a[l].2));
        assert(a[k].0 < a[l].0);
        law_generated_ids_distinct(a[k].0, a[l].0, idn_field(idn_parts(a[k].2), 1), idn_field(idn_parts(a[l].2), 1));
    }
}

/// One discovery reports each resource once: where the resources queried
/// are strictly ordered (as `normalize_resources` leaves them), the
/// records assembled from them and their replies carry pairwise distinct
/// resources.
pub proof fn law_discovered_resources_distinct(
    resources: Seq<Seq<char>>,
    replies: Seq<Option<Seq<char>>>,
    found: Seq<DiscoveredInstrument>,
)
    requires
        strictly_sorted(resources),
        found.len() == answered(resources, replies).len(),
        forall|k: int|
            0 <= k < found.len() ==> discovered_from(
                #[trigger] found[k],
                answered(resources, replies)[k].0,
                answered(resources, replies)[k].1,
                answered(resources, replies)[k].2,
            ),
    ensures
        forall|k: int, l: int|
            0 <= k < l < found.len() ==> (#[trigger] found[k]).resource@ != (#[trigger] found[l]).resource@,
{
    let a = answered(resources, replies);
    lemma_answered_positions(resources, replies);
    assert forall|k: int, l: int| 0 <= k < l < found.len() implies (#[trigger] found[k]).resource@ != (
    #[trigger] found[l]).resource@ by {
        assert(discovered_from(found[k], a[k].0, a[k].1, a[k].2));
        assert(discovered_from(found[l], a[l].0, a[l].1, a[l].2));
        assert(a[k].0 < a[l].0);
        assert(seq_lt(resources[a[k].0 as int], resources[a[l].0 as int]));
        lemma_seq_lt_irreflexive(resources[a[k].0 as int]);
    }
}

} // verus!
