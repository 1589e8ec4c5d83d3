//! Parsing of IEEE 488.2 `*IDN?` replies into vendor, model, serial
//! number and firmware revision.
use vstd::prelude::*;
use vstd::string::*;
use crate::text::{is_ws, lemma_split_concat, lemma_split_pieces_free, lemma_join_first, lemma_trim_pat_ends, skip_from, back_to, lemma_split_no_sep, lemma_trim_plain, chars_of, join, join_chars, slice_chars, split_chars, split_on, string_of, trim, trim_chars};

verus! {

/// The text that stands in for a missing or empty field.
pub open spec fn unknown_text() -> Seq<char> {
    seq!['U', 'N', 'K', 'N', 'O', 'W', 'N']
}

/// Vendor/model/serial/firmware parsed out of a `*IDN?` response.
///
/// A compliant response has the form
/// `<vendor>,<model>,<serial number>,<firmware revision>`.
pub struct IdnFields {
    pub vendor: String,
    pub model: String,
    pub serial: String,
    pub firmware: String,
}

/// The pieces of a reply: the trimmed reply split at every comma, each
/// piece trimmed in turn.
pub open spec fn idn_parts(raw: Seq<char>) -> Seq<Seq<char>> {
    split_on(trim(raw), ',').map_values(|p: Seq<char>| trim(p))
}

/// Piece `idx`, or `UNKNOWN` where it is absent or empty.
pub open spec fn idn_field(parts: Seq<Seq<char>>, idx: int) -> Seq<char> {
    if 0 <= idx < parts.len() && parts[idx].len() > 0 {
        parts[idx]
    } else {
        unknown_text()
    }
}

/// The firmware field: with more than four pieces, every piece from the
/// fourth on, joined with commas; otherwise piece three as a field.
pub open spec fn idn_firmware(parts: Seq<Seq<char>>) -> Seq<char> {
    if parts.len() > 4 {
        join(parts.subrange(3, parts.len() as int), seq![','])
    } else {
        idn_field(parts, 3)
    }
}

/// Whether `f` is what `parse_idn` gives for `raw`.
pub open spec fn idn_fields_of(raw: Seq<char>, f: IdnFields) -> bool {
    let parts = idn_parts(raw);
    &&& f.vendor@ == idn_field(parts, 0)
    &&& f.model@ == idn_field(parts, 1)
    &&& f.serial@ == idn_field(parts, 2)
    &&& f.firmware@ == idn_firmware(parts)
}

/// The string `UNKNOWN`.
pub fn unknown_string() -> (s: String)
    ensures
        s@ == unknown_text(),
{
    let s = String::from_str("UNKNOWN");
    proof {
        reveal_strlit("UNKNOWN");
        assert(s@ =~= unknown_text());
    }
    s
}

/// Piece `idx` of `parts` as a string, or `UNKNOWN` where it is absent or
/// empty.
pub fn field(parts: &[Vec<char>], idx: usize) -> (r: String)
    ensures
        r@ == idn_field(parts@.map_values(|p: Vec<char>| p@), idx as int),
{
    if idx < parts.len() && parts[idx].len() > 0 {
        string_of(parts[idx].as_slice())
    } else {
        unknown_string()
    }
}

/// Parses a raw `*IDN?` response. Missing or empty fields read
/// `UNKNOWN`; extra commas after the firmware field (option strings that
/// some instruments append) stay part of the firmware field.
pub fn parse_idn(raw: &str) -> (r: IdnFields)
    ensures
        idn_fields_of(raw@, r),
{
    let chars = chars_of(raw);
    let trimmed = trim_chars(chars.as_slice());
    let pieces = split_chars(trimmed.as_slice(), ',');
    let mut parts: Vec<Vec<char>> = Vec::new();
    let mut i: usize = 0;
    while i < pieces.len()
        invariant
            i <= pieces@.len(),
            pieces@.len() == split_on(trim(raw@), ',').len(),
            forall|k: int|
                0 <= k < pieces@.len() ==> #[trigger] pieces@[k]@ == split_on(
                    trim(raw@),
                    ',',
                )[k],
            parts@.len() == i,
            forall|k: int|
                0 <= k < i ==> #[trigger] parts@[k]@ == trim(split_on(trim(raw@), ',')[k]),
        decreases pieces.len() - i,
    {
        let t = trim_chars(pieces[i].as_slice());
        parts.push(t);
        i = i + 1;
    }
    let ghost views = parts@.map_values(|p: Vec<char>| p@);
    assert(views =~= idn_parts(raw@));
    let firmware = if parts.len() > 4 {
        let mut rest: Vec<Vec<char>> = Vec::new();
        let mut j: usize = 3;
        while j < parts.len()
            invariant
                3 <= j <= parts@.len(),
                views == parts@.map_values(|p: Vec<char>| p@),
                rest@.map_values(|p: Vec<char>| p@) =~= views.subrange(3, j as int),
            decreases parts.len() - j,
        {
            let piece = slice_chars(parts[j].as_slice(), 0, parts[j].len());
            let ghost before = rest@;
            rest.push(piece);
            proof {
                assert(parts@[j as int]@.subrange(0, parts@[j as int]@.len() as int)
                    =~= parts@[j as int]@);
                assert(views[j as int] == parts@[j as int]@);
                assert(rest@ == before.push(piece));
                assert(rest@.map_values(|p: Vec<char>| p@) =~= before.map_values(
                    |p: Vec<char>| p@,
                ).push(piece@));
                assert(views.subrange(3, j as int + 1) =~= views.subrange(3, j as int).push(
                    views[j as int],
                ));
            }
            j = j + 1;
        }
        let joined = join_chars(rest.as_slice(), ',');
        string_of(joined.as_slice())
    } else {
        field(parts.as_slice(), 3)
    };
    IdnFields {
        vendor: field(parts.as_slice(), 0),
        model: field(parts.as_slice(), 1),
        serial: field(parts.as_slice(), 2),
        firmware,
    }
}

/// A field of a compliant reply: not empty, no comma, no whitespace at
/// either end.
pub open spec fn plain_field(x: Seq<char>) -> bool {
    &&& x.len() > 0
    &&& !x.contains(',')
    &&& !is_ws(x[0])
    &&& !is_ws(x[x.len() - 1])
}

/// A parsed reply never has an empty field: a missing or empty field
/// reads `UNKNOWN`, and a firmware field joined from several pieces holds
/// their commas.
pub proof fn law_idn_fields_never_empty(raw: Seq<char>, f: IdnFields)
    requires
        idn_fields_of(raw, f),
    ensures
        f.vendor@.len() > 0,
        f.model@.len() > 0,
        f.serial@.len() > 0,
        f.firmware@.len() > 0,
{
    let parts = idn_parts(raw);
    if parts.len() > 4 {
        let rest = parts.subrange(3, parts.len() as int);
        assert(join(rest, seq![',']) == join(rest.drop_last(), seq![',']) + seq![','] + rest.last());
    }
}

/// A compliant reply `<vendor>,<model>,<serial>,<firmware>` is read back
/// field for field.
pub proof fn law_idn_compliant_reply_read_back(
    vendor: Seq<char>,
    model: Seq<char>,
    serial: Seq<char>,
    firmware: Seq<char>,
    f: IdnFields,
)
    requires
        plain_field(vendor),
        plain_field(model),
        plain_field(serial),
        plain_field(firmware),
        idn_fields_of(
            vendor + seq![','] + model + seq![','] + serial + seq![','] + firmware,
            f,
        ),
    ensures
        f.vendor@ == vendor,
        f.model@ == model,
        f.serial@ == serial,
        f.firmware@ == firmware,
{
    let tail2 = serial + seq![','] + firmware;
    let tail1 = model + seq![','] + tail2;
    let raw = vendor + seq![','] + tail1;
    assert(raw =~= vendor + seq![','] + model + seq![','] + serial + seq![','] + firmware);
    assert(raw[0] == vendor[0]);
    assert(raw[raw.len() - 1] == firmware[firmware.len() - 1]);
    lemma_trim_plain(raw);
    lemma_split_concat(vendor, tail1, ',');
    lemma_split_concat(model, tail2, ',');
    lemma_split_concat(serial, firmware, ',');
    lemma_split_no_sep(vendor, ',');
    lemma_split_no_sep(model, ',');
    lemma_split_no_sep(serial, ',');
    lemma_split_no_sep(firmware, ',');
    let pieces = split_on(raw, ',');
    assert(pieces =~= seq![vendor, model, serial, firmware]);
    lemma_trim_plain(vendor);
    lemma_trim_plain(model);
    lemma_trim_plain(serial);
    lemma_trim_plain(firmware);
    let parts = idn_parts(raw);
    assert(parts =~= seq![vendor, model, serial, firmware]);
}

/// Each piece of a reply is trimmed and holds no comma: unless empty, it
/// neither starts nor ends with whitespace.
proof fn lemma_parts_plain(raw: Seq<char>)
    ensures
        forall|k: int| 0 <= k < idn_parts(raw).len() ==> !(#[trigger] idn_parts(raw)[k]).contains(','),
        forall|k: int|
            0 <= k < idn_parts(raw).len() && idn_parts(raw)[k].len() > 0 ==> !is_ws(
                (#[trigger] idn_parts(raw)[k])[0],
            ) && !is_ws(idn_parts(raw)[k].last()),
{
    let pieces = split_on(trim(raw), ',');
    lemma_split_pieces_free(trim(raw), ',');
    assert forall|k: int| 0 <= k < idn_parts(raw).len() implies !(#[trigger] idn_parts(raw)[k]).contains(',')
        && (idn_parts(raw)[k].len() > 0 ==> !is_ws(idn_parts(raw)[k][0]) && !is_ws(
        idn_parts(raw)[k].last(),
    )) by {
        let x = pieces[k];
        let p = idn_parts(raw)[k];
        assert(p == trim(x));
        lemma_trim_pat_ends(x, None);
        let a = skip_from(x, None, 0);
        let b = back_to(x, None, a, x.len() as int);
        assert(p == x.subrange(a, b));
        assert(!x.contains(','));
        if p.contains(',') {
            let i = choose|i: int| 0 <= i < p.len() && p[i] == ',';
            assert(x[a + i] == ',');
        }
    }
}

/// A field taken from plain pieces is plain; `UNKNOWN` is plain too.
proof fn lemma_field_plain(parts: Seq<Seq<char>>, idx: int)
    requires
        forall|k: int| 0 <= k < parts.len() ==> !(#[trigger] parts[k]).contains(','),
        forall|k: int|
            0 <= k < parts.len() && parts[k].len() > 0 ==> !is_ws((#[trigger] parts[k])[0]) && !is_ws(
                parts[k].last(),
            ),
    ensures
        plain_field(idn_field(parts, idx)),
{
    if !(0 <= idx < parts.len() && parts[idx].len() > 0) {
        let u = unknown_text();
        assert(!u.contains(',')) by {
            if u.contains(',') {
                let i = choose|i: int| 0 <= i < u.len() && u[i] == ',';
            }
        }
        assert(u[0] == 'U' && u[u.len() - 1] == 'N');
    } else {
        assert(parts[idx].last() == parts[idx][parts[idx].len() - 1]);
    }
}

/// A parsed reply's vendor, model and serial fields hold no comma and no
/// whitespace at either end; the firmware field has no whitespace at
/// either end either, and holds a comma only where the reply had more
/// than four comma-separated pieces. Each field trims to itself.
pub proof fn law_idn_fields_trimmed(raw: Seq<char>, f: IdnFields)
    requires
        idn_fields_of(raw, f),
    ensures
        plain_field(f.vendor@),
        plain_field(f.model@),
        plain_field(f.serial@),
        idn_parts(raw).len() <= 4 ==> plain_field(f.firmware@),
        f.firmware@.len() > 0 && !is_ws(f.firmware@[0]) && !is_ws(f.firmware@.last()),
        trim(f.vendor@) == f.vendor@,
        trim(f.model@) == f.model@,
        trim(f.serial@) == f.serial@,
        trim(f.firmware@) == f.firmware@,
{
    let parts = idn_parts(raw);
    lemma_parts_plain(raw);
    lemma_field_plain(parts, 0);
    lemma_field_plain(parts, 1);
    lemma_field_plain(parts, 2);
    lemma_field_plain(parts, 3);
    law_idn_fields_never_empty(raw, f);
    let fw = f.firmware@;
    if parts.len() > 4 {
        let rest = parts.subrange(3, parts.len() as int);
        assert(fw == join(rest, seq![',']));
        lemma_join_first(rest, seq![',']);
        assert(rest[0] == parts[3]);
        assert(join(rest, seq![',']) == join(rest.drop_last(), seq![',']) + seq![','] + rest.last());
        assert(rest.last() == parts[parts.len() - 1]);
        if rest.last().len() > 0 {
            assert(fw.last() == rest.last().last());
        } else {
            assert(fw.last() == ',');
        }
        assert(!is_ws(','));
    }
    assert(fw.last() == fw[fw.len() - 1]);
    lemma_trim_plain(f.vendor@);
    lemma_trim_plain(f.model@);
    lemma_trim_plain(f.serial@);
    lemma_trim_plain(fw);
}

} // verus!
