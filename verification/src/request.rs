use vstd::prelude::*;

use crate::error::XdiffError;
use crate::json::{obj_set, spec_scalar, JsonVal, JsonValue};
use crate::json_text::{encode_json, hex_char};
use crate::strutil::{
    chars_ieq, chars_to_string, push_all, push_str_chars, spec_decimal, spec_lower, str_to_chars,
    usize_to_chars,
};
use crate::ExtraArgs;

verus! {

broadcast use vstd::std_specs::vec::group_vec_axioms;

// ---------------------------------------------------------------------------
// String pair lists (headers, overrides) and their views.
// ---------------------------------------------------------------------------

/// The views of a list of string pairs.
pub open spec fn pairs_view(v: Seq<(String, String)>) -> Seq<(Seq<char>, Seq<char>)>
    decreases v.len(),
{
    if v.len() == 0 {
        Seq::empty()
    } else {
        pairs_view(v.drop_last()).push((v.last().0@, v.last().1@))
    }
}

pub proof fn lemma_pairs_view(v: Seq<(String, String)>)
    ensures
        pairs_view(v).len() == v.len(),
        forall|i: int| 0 <= i < v.len() ==> pairs_view(v)[i] == (v[i].0@, v[i].1@),
    decreases v.len(),
{
    if v.len() > 0 {
        lemma_pairs_view(v.drop_last());
        assert forall|i: int| 0 <= i < v.len() implies pairs_view(v)[i] == (v[i].0@, v[i].1@) by {
            if i < v.len() - 1 {
                assert(v.drop_last()[i] == v[i]);
            }
        }
    }
}

// ---------------------------------------------------------------------------
// The header multi-map: ordered, with case-insensitive names.
// ---------------------------------------------------------------------------

/// The first entry whose name equals `k` up to ASCII case, or -1.
pub open spec fn header_idx(hs: Seq<(Seq<char>, Seq<char>)>, k: Seq<char>) -> int
    decreases hs.len(),
{
    if hs.len() == 0 {
        -1
    } else if spec_lower(hs[0].0) == spec_lower(k) {
        0
    } else {
        let r = header_idx(hs.drop_first(), k);
        if r < 0 {
            -1
        } else {
            r + 1
        }
    }
}

pub open spec fn header_lookup(hs: Seq<(Seq<char>, Seq<char>)>, k: Seq<char>) -> Option<
    Seq<char>,
> {
    let i = header_idx(hs, k);
    if i < 0 {
        None
    } else {
        Some(hs[i].1)
    }
}

/// Setting a header, last write wins: an entry under the same name (up to
/// case) is replaced in place, a new name is appended.
pub open spec fn header_set(
    hs: Seq<(Seq<char>, Seq<char>)>,
    k: Seq<char>,
    v: Seq<char>,
) -> Seq<(Seq<char>, Seq<char>)> {
    let i = header_idx(hs, k);
    if i < 0 {
        hs.push((k, v))
    } else {
        hs.update(i, (k, v))
    }
}

/// Applying the header overrides in order on top of the template's headers.
pub open spec fn merge_headers(
    hs: Seq<(Seq<char>, Seq<char>)>,
    ov: Seq<(Seq<char>, Seq<char>)>,
) -> Seq<(Seq<char>, Seq<char>)>
    decreases ov.len(),
{
    if ov.len() == 0 {
        hs
    } else {
        merge_headers(header_set(hs, ov[0].0, ov[0].1), ov.drop_first())
    }
}

/// Defaulting the content type: if no header names it, `application/json`.
pub open spec fn ensure_content_type(hs: Seq<(Seq<char>, Seq<char>)>) -> Seq<
    (Seq<char>, Seq<char>),
> {
    if header_idx(hs, "content-type"@) < 0 {
        hs.push(("Content-Type"@, "application/json"@))
    } else {
        hs
    }
}

/// The first position at or after `i` holding a semicolon, or the length.
pub open spec fn semi_from(s: Seq<char>, i: int) -> int
    decreases s.len() - i,
{
    if 0 <= i < s.len() && s[i] != ';' {
        semi_from(s, i + 1)
    } else {
        i
    }
}

/// The media type named by the headers: the `Content-Type` value up to any
/// parameters, or nothing when the header is absent.
pub open spec fn content_type_of(hs: Seq<(Seq<char>, Seq<char>)>) -> Option<Seq<char>> {
    match header_lookup(hs, "content-type"@) {
        None => None,
        Some(v) => Some(v.take(semi_from(v, 0))),
    }
}

/// Where the first case-insensitive match sits, and that nothing before it
/// matches.
pub proof fn lemma_header_idx_correct(hs: Seq<(Seq<char>, Seq<char>)>, k: Seq<char>)
    ensures
        header_idx(hs, k) >= 0 ==> {
            let i = header_idx(hs, k);
            &&& 0 <= i < hs.len()
            &&& spec_lower(hs[i].0) == spec_lower(k)
            &&& forall|j: int| 0 <= j < i ==> spec_lower(#[trigger] hs[j].0) != spec_lower(k)
        },
        header_idx(hs, k) < 0 ==> forall|j: int|
            0 <= j < hs.len() ==> spec_lower(#[trigger] hs[j].0) != spec_lower(k),
    decreases hs.len(),
{
    if hs.len() == 0 {
    } else if spec_lower(hs[0].0) == spec_lower(k) {
    } else {
        lemma_header_idx_correct(hs.drop_first(), k);
        let r = header_idx(hs.drop_first(), k);
        if r < 0 {
            assert forall|j: int|
                0 <= j < hs.len() implies spec_lower(#[trigger] hs[j].0) != spec_lower(k) by {
                if j > 0 {
                    assert(hs.drop_first()[j - 1] == hs[j]);
                }
            }
        } else {
            assert(hs.drop_first()[r] == hs[r + 1]);
            assert forall|j: int|
                0 <= j < r + 1 implies spec_lower(#[trigger] hs[j].0) != spec_lower(k) by {
                if j > 0 {
                    assert(hs.drop_first()[j - 1] == hs[j]);
                }
            }
        }
    }
}

/// A first match determines the index.
pub proof fn lemma_header_idx_from_first(hs: Seq<(Seq<char>, Seq<char>)>, k: Seq<char>, i: int)
    requires
        0 <= i < hs.len(),
        spec_lower(hs[i].0) == spec_lower(k),
        forall|j: int| 0 <= j < i ==> spec_lower(#[trigger] hs[j].0) != spec_lower(k),
    ensures
        header_idx(hs, k) == i,
    decreases hs.len(),
{
    if i == 0 {
    } else {
        assert(spec_lower(hs[0].0) != spec_lower(k));
        assert(hs.drop_first()[i - 1] == hs[i]);
        assert forall|j: int|
            0 <= j < i - 1 implies spec_lower(#[trigger] hs.drop_first()[j].0) != spec_lower(
            k,
        ) by {
            assert(hs.drop_first()[j] == hs[j + 1]);
        }
        lemma_header_idx_from_first(hs.drop_first(), k, i - 1);
    }
}

/// The law of header overriding: after setting a name, looking that name up
/// (under any casing of it) yields exactly the value that was set.
pub proof fn lemma_header_override_wins(
    hs: Seq<(Seq<char>, Seq<char>)>,
    k: Seq<char>,
    v: Seq<char>,
    k2: Seq<char>,
)
    requires
        spec_lower(k2) == spec_lower(k),
    ensures
        header_lookup(header_set(hs, k, v), k2) == Some(v),
{
    lemma_header_idx_correct(hs, k);
    let i0 = header_idx(hs, k);
    if i0 < 0 {
        let p = hs.push((k, v));
        assert(p[hs.len() as int] == (k, v));
        assert forall|j: int|
            0 <= j < hs.len() implies spec_lower(#[trigger] p[j].0) != spec_lower(k2) by {
            assert(p[j] == hs[j]);
        }
        lemma_header_idx_from_first(p, k2, hs.len() as int);
    } else {
        let u = hs.update(i0, (k, v));
        assert(u[i0] == (k, v));
        assert forall|j: int|
            0 <= j < i0 implies spec_lower(#[trigger] u[j].0) != spec_lower(k2) by {
            assert(u[j] == hs[j]);
        }
        lemma_header_idx_from_first(u, k2, i0);
    }
}

// ---------------------------------------------------------------------------
// Query-string and form encoding of a JSON object.
// ---------------------------------------------------------------------------

/// Whether a character passes through form encoding unchanged.
pub open spec fn qs_unreserved(c: char) -> bool {
    ('A' <= c && c <= 'Z') || ('a' <= c && c <= 'z') || ('0' <= c && c <= '9') || c == '-' || c
        == '.' || c == '_' || c == '*'
}

/// The UTF-8 bytes of one character.
pub open spec fn utf8_bytes(c: char) -> Seq<u8> {
    let u = c as int;
    if u < 0x80 {
        seq![u as u8]
    } else if u < 0x800 {
        seq![(0xC0 + u / 64) as u8, (0x80 + u % 64) as u8]
    } else if u < 0x10000 {
        seq![(0xE0 + u / 4096) as u8, (0x80 + (u / 64) % 64) as u8, (0x80 + u % 64) as u8]
    } else {
        seq![
            (0xF0 + u / 262144) as u8,
            (0x80 + (u / 4096) % 64) as u8,
            (0x80 + (u / 64) % 64) as u8,
            (0x80 + u % 64) as u8,
        ]
    }
}

pub open spec fn pct_byte(b: u8) -> Seq<char> {
    seq!['%', hex_upper((b / 16) as nat), hex_upper((b % 16) as nat)]
}

pub open spec fn hex_upper(d: nat) -> char {
    if d < 10 {
        crate::strutil::spec_digit_char(d)
    } else if d == 10 {
        'A'
    } else if d == 11 {
        'B'
    } else if d == 12 {
        'C'
    } else if d == 13 {
        'D'
    } else if d == 14 {
        'E'
    } else {
        'F'
    }
}

pub open spec fn pct_bytes(bs: Seq<u8>) -> Seq<char>
    decreases bs.len(),
{
    if bs.len() == 0 {
        Seq::empty()
    } else {
        pct_bytes(bs.drop_last()) + pct_byte(bs.last())
    }
}

/// Form encoding of one character: unreserved characters stand as
/// themselves, a space becomes `+`, everything else its percent-escaped
/// UTF-8 bytes.
pub open spec fn pct_char(c: char) -> Seq<char> {
    if qs_unreserved(c) {
        seq![c]
    } else if c == ' ' {
        seq!['+']
    } else {
        pct_bytes(utf8_bytes(c))
    }
}

pub open spec fn pct_encode(s: Seq<char>) -> Seq<char>
    decreases s.len(),
{
    if s.len() == 0 {
        Seq::empty()
    } else {
        pct_encode(s.drop_last()) + pct_char(s.last())
    }
}

/// The text of a scalar value in a query string.
pub open spec fn scalar_text(v: JsonVal) -> Seq<char> {
    match v {
        JsonVal::Null => Seq::empty(),
        JsonVal::Bool(b) => if b {
            "true"@
        } else {
            "false"@
        },
        JsonVal::Num(s) => s,
        JsonVal::Str(s) => s,
        _ => Seq::empty(),
    }
}

/// The key under which a nested value is encoded: top-level keys stand
/// alone, nested keys in brackets.
pub open spec fn sub_prefix(prefix: Seq<char>, key: Seq<char>) -> Seq<char> {
    if prefix.len() == 0 {
        pct_encode(key)
    } else {
        prefix + seq!['['] + pct_encode(key) + seq![']']
    }
}

/// The `key=value` parts that one value contributes to a query string, in
/// order: scalars give one part, arrays index their elements, objects name
/// their members in brackets.
pub open spec fn qs_parts(prefix: Seq<char>, v: JsonVal) -> Seq<Seq<char>>
    decreases v,
{
    match v {
        JsonVal::Arr(items) => qs_parts_items(prefix, items, items.len() as int),
        JsonVal::Obj(entries) => qs_parts_entries(prefix, entries, entries.len() as int),
        _ => seq![prefix + seq!['='] + pct_encode(scalar_text(v))],
    }
}

pub open spec fn qs_parts_items(prefix: Seq<char>, items: Seq<JsonVal>, n: int) -> Seq<Seq<char>>
    decreases items, n,
{
    if n <= 0 || n > items.len() {
        Seq::empty()
    } else {
        qs_parts_items(prefix, items, n - 1) + qs_parts(
            prefix + seq!['['] + spec_decimal((n - 1) as nat) + seq![']'],
            items[n - 1],
        )
    }
}

pub open spec fn qs_parts_entries(
    prefix: Seq<char>,
    entries: Seq<(Seq<char>, JsonVal)>,
    n: int,
) -> Seq<Seq<char>>
    decreases entries, n,
{
    if n <= 0 || n > entries.len() {
        Seq::empty()
    } else {
        qs_parts_entries(prefix, entries, n - 1) + qs_parts(
            sub_prefix(prefix, entries[n - 1].0),
            entries[n - 1].1,
        )
    }
}

/// The parts joined with `&`.
pub open spec fn join_amp(parts: Seq<Seq<char>>) -> Seq<char>
    decreases parts.len(),
{
    if parts.len() == 0 {
        Seq::empty()
    } else if parts.len() == 1 {
        parts.last()
    } else {
        join_amp(parts.drop_last()) + seq!['&'] + parts.last()
    }
}

/// The form encoding of a whole object.
pub open spec fn qs_encode_obj(entries: Seq<(Seq<char>, JsonVal)>) -> Seq<char> {
    join_amp(qs_parts_entries(Seq::empty(), entries, entries.len() as int))
}

} // verus!

verus! {

// ---------------------------------------------------------------------------
// Executable form encoding.
// ---------------------------------------------------------------------------

fn hex_upper_exec(d: usize) -> (c: char)
    requires
        d < 16,
    ensures
        c == hex_upper(d as nat),
{
    match d {
        0 => '0',
        1 => '1',
        2 => '2',
        3 => '3',
        4 => '4',
        5 => '5',
        6 => '6',
        7 => '7',
        8 => '8',
        9 => '9',
        10 => 'A',
        11 => 'B',
        12 => 'C',
        13 => 'D',
        14 => 'E',
        _ => 'F',
    }
}

fn push_pct_byte(b: u8, out: &mut Vec<char>)
    ensures
        final(out)@ == old(out)@ + pct_byte(b),
{
    out.push('%');
    out.push(hex_upper_exec((b / 16) as usize));
    out.push(hex_upper_exec((b % 16) as usize));
    proof {
        assert(final(out)@ =~= old(out)@ + pct_byte(b));
    }
}

/// Appends the form encoding of one character.
fn push_pct_char(c: char, out: &mut Vec<char>)
    ensures
        final(out)@ == old(out)@ + pct_char(c),
{
    if ('A' <= c && c <= 'Z') || ('a' <= c && c <= 'z') || ('0' <= c && c <= '9') || c == '-' || c
        == '.' || c == '_' || c == '*' {
        out.push(c);
        proof {
            assert(final(out)@ =~= old(out)@ + pct_char(c));
        }
    } else if c == ' ' {
        out.push('+');
        proof {
            assert(final(out)@ =~= old(out)@ + pct_char(c));
        }
    } else {
        let u = c as u32;
        proof {
            assert(u == c as int);
        }
        let ghost bs = utf8_bytes(c);
        if u < 0x80 {
            push_pct_byte(u as u8, out);
            proof {
                reveal_with_fuel(pct_bytes, 6);
                assert(bs =~= seq![(c as int) as u8]);
                assert(bs.drop_last() =~= Seq::<u8>::empty());
                assert(pct_bytes(bs) =~= pct_byte((c as int) as u8));
                assert(final(out)@ =~= old(out)@ + pct_char(c));
            }
        } else if u < 0x800 {
            push_pct_byte((0xC0 + u / 64) as u8, out);
            push_pct_byte((0x80 + u % 64) as u8, out);
            proof {
                reveal_with_fuel(pct_bytes, 6);
                assert(bs =~= seq![(0xC0 + c as int / 64) as u8, (0x80 + c as int % 64) as u8]);
                assert(bs.drop_last() =~= seq![(0xC0 + c as int / 64) as u8]);
                assert(bs.drop_last().drop_last() =~= Seq::<u8>::empty());
                assert(final(out)@ =~= old(out)@ + pct_char(c));
            }
        } else if u < 0x10000 {
            push_pct_byte((0xE0 + u / 4096) as u8, out);
            push_pct_byte((0x80 + (u / 64) % 64) as u8, out);
            push_pct_byte((0x80 + u % 64) as u8, out);
            proof {
                reveal_with_fuel(pct_bytes, 6);
                assert(bs =~= seq![
                    (0xE0 + c as int / 4096) as u8,
                    (0x80 + (c as int / 64) % 64) as u8,
                    (0x80 + c as int % 64) as u8,
                ]);
                assert(bs.drop_last() =~= seq![
                    (0xE0 + c as int / 4096) as u8,
                    (0x80 + (c as int / 64) % 64) as u8,
                ]);
                assert(bs.drop_last().drop_last() =~= seq![(0xE0 + c as int / 4096) as u8]);
                assert(bs.drop_last().drop_last().drop_last() =~= Seq::<u8>::empty());
                assert(final(out)@ =~= old(out)@ + pct_char(c));
            }
        } else {
            push_pct_byte((0xF0 + u / 262144) as u8, out);
            push_pct_byte((0x80 + (u / 4096) % 64) as u8, out);
            push_pct_byte((0x80 + (u / 64) % 64) as u8, out);
            push_pct_byte((0x80 + u % 64) as u8, out);
            proof {
                reveal_with_fuel(pct_bytes, 6);
                assert(bs =~= seq![
                    (0xF0 + c as int / 262144) as u8,
                    (0x80 + (c as int / 4096) % 64) as u8,
                    (0x80 + (c as int / 64) % 64) as u8,
                    (0x80 + c as int % 64) as u8,
                ]);
                assert(bs.drop_last() =~= seq![
                    (0xF0 + c as int / 262144) as u8,
                    (0x80 + (c as int / 4096) % 64) as u8,
                    (0x80 + (c as int / 64) % 64) as u8,
                ]);
                assert(bs.drop_last().drop_last() =~= seq![
                    (0xF0 + c as int / 262144) as u8,
                    (0x80 + (c as int / 4096) % 64) as u8,
                ]);
                assert(bs.drop_last().drop_last().drop_last() =~= seq![
                    (0xF0 + c as int / 262144) as u8,
                ]);
                assert(bs.drop_last().drop_last().drop_last().drop_last() =~= Seq::<u8>::empty());
                assert(final(out)@ =~= old(out)@ + pct_char(c));
            }
        }
    }
}

/// Appends the form encoding of a string.
fn push_pct(s: &Vec<char>, out: &mut Vec<char>)
    ensures
        final(out)@ == old(out)@ + pct_encode(s@),
{
    let n = s.len();
    let mut i: usize = 0;
    while i < n
        invariant
            i <= n,
            n == s@.len(),
            out@ == old(out)@ + pct_encode(s@.take(i as int)),
        decreases n - i,
    {
        push_pct_char(s[i], out);
        proof {
            assert(s@.take(i + 1 as int).drop_last() =~= s@.take(i as int));
            assert(s@.take(i + 1 as int).last() == s@[i as int]);
        }
        i += 1;
    }
    proof {
        assert(s@.take(n as int) =~= s@);
    }
}

/// The scalar text of a value, for query strings.
fn scalar_text_exec(v: &JsonValue) -> (r: Vec<char>)
    ensures
        r@ == scalar_text(v@),
{
    match v {
        JsonValue::Null => Vec::new(),
        JsonValue::Bool(b) => {
            if *b {
                str_to_chars("true")
            } else {
                str_to_chars("false")
            }
        },
        JsonValue::Num(s) => crate::json::clone_chars(s),
        JsonValue::Str(s) => crate::json::clone_chars(s),
        JsonValue::Arr(_) => Vec::new(),
        JsonValue::Obj(_) => Vec::new(),
    }
}

/// Collects the `key=value` parts of one value.
#[verifier::loop_isolation(false)]
fn qs_collect(v: &JsonValue, prefix: &Vec<char>, parts: &mut Vec<Vec<char>>)
    ensures
        crate::diff::lines_view(final(parts)@) == crate::diff::lines_view(old(parts)@) + qs_parts(
            prefix@,
            v@,
        ),
    decreases v,
{
    match v {
        JsonValue::Arr(items) => {
            let n = items.len();
            let ghost iv = crate::json::arr_vals(items@);
            proof {
                crate::json::lemma_arr_vals(items@);
            }
            let mut i: usize = 0;
            while i < n
                invariant
                    i <= n,
                    crate::diff::lines_view(parts@) == crate::diff::lines_view(old(parts)@)
                        + qs_parts_items(prefix@, iv, i as int),
                decreases n - i,
            {
                let mut p2 = crate::json::clone_chars(prefix);
                p2.push('[');
                let d = usize_to_chars(i);
                push_all(&mut p2, &d);
                p2.push(']');
                proof {
                    assert(p2@ =~= prefix@ + seq!['['] + spec_decimal(i as nat) + seq![']']);
                }
                qs_collect(&items[i], &p2, parts);
                i += 1;
            }
        },
        JsonValue::Obj(entries) => {
            let n = entries.len();
            let ghost ev = crate::json::entries_vals(entries@);
            proof {
                crate::json::lemma_entries_vals(entries@);
            }
            let mut i: usize = 0;
            while i < n
                invariant
                    i <= n,
                    crate::diff::lines_view(parts@) == crate::diff::lines_view(old(parts)@)
                        + qs_parts_entries(prefix@, ev, i as int),
                decreases n - i,
            {
                let mut p2: Vec<char> = Vec::new();
                if prefix.len() == 0 {
                    push_pct(&entries[i].0, &mut p2);
                } else {
                    push_all(&mut p2, prefix);
                    p2.push('[');
                    push_pct(&entries[i].0, &mut p2);
                    p2.push(']');
                }
                proof {
                    assert(p2@ =~= sub_prefix(prefix@, ev[i as int].0));
                }
                qs_collect(&entries[i].1, &p2, parts);
                i += 1;
            }
        },
        _ => {
            let mut part = crate::json::clone_chars(prefix);
            part.push('=');
            let st = scalar_text_exec(v);
            push_pct(&st, &mut part);
            let ghost p0 = parts@;
            parts.push(part);
            proof {
                assert(parts@.drop_last() =~= p0);
                assert(part@ =~= prefix@ + seq!['='] + pct_encode(scalar_text(v@)));
                assert(crate::diff::lines_view(parts@) =~= crate::diff::lines_view(p0) + qs_parts(
                    prefix@,
                    v@,
                ));
            }
        },
    }
}

/// The form encoding of an object document.
pub fn qs_of_object(v: &JsonValue) -> (r: Vec<char>)
    requires
        v@ is Obj,
    ensures
        r@ == qs_encode_obj(v@->Obj_0),
{
    let mut parts: Vec<Vec<char>> = Vec::new();
    let empty_prefix: Vec<char> = Vec::new();
    proof {
        assert(crate::diff::lines_view(Seq::<Vec<char>>::empty()) + qs_parts(
            empty_prefix@,
            v@,
        ) =~= qs_parts(empty_prefix@, v@));
        assert(empty_prefix@ =~= Seq::<char>::empty());
    }
    qs_collect(v, &empty_prefix, &mut parts);
    let ghost pv = crate::diff::lines_view(parts@);
    proof {
        crate::diff::lemma_lines_view(parts@);
    }
    let mut out: Vec<char> = Vec::new();
    let n = parts.len();
    let mut i: usize = 0;
    while i < n
        invariant
            i <= n,
            n == parts@.len(),
            pv == crate::diff::lines_view(parts@),
            pv.len() == n,
            forall|j: int| 0 <= j < n ==> pv[j] == (#[trigger] parts@[j])@,
            out@ == join_amp(pv.take(i as int)),
        decreases n - i,
    {
        if i > 0 {
            out.push('&');
        }
        push_all(&mut out, &parts[i]);
        proof {
            assert(pv.take(i + 1 as int).drop_last() =~= pv.take(i as int));
            assert(pv.take(i + 1 as int).last() == pv[i as int]);
            assert(out@ =~= join_amp(pv.take(i + 1 as int)));
        }
        i += 1;
    }
    proof {
        assert(pv.take(n as int) =~= pv);
    }
    out
}

} // verus!

verus! {

// ---------------------------------------------------------------------------
// The request template.
// ---------------------------------------------------------------------------

/// A standard HTTP verb; requests default to `Get`.
#[derive(Debug, Clone, Copy, PartialEq, Eq, Structural)]
pub enum Method {
    Get,
    Post,
    Put,
    Delete,
    Head,
    Options,
    Patch,
    Trace,
    Connect,
}

impl Method {
    /// The verb's upper-case name on the wire.
    pub fn as_str(&self) -> (r: &'static str)
        ensures
            r@ == self.spec_name(),
    {
        match self {
            Method::Get => "GET",
            Method::Post => "POST",
            Method::Put => "PUT",
            Method::Delete => "DELETE",
            Method::Head => "HEAD",
            Method::Options => "OPTIONS",
            Method::Patch => "PATCH",
            Method::Trace => "TRACE",
            Method::Connect => "CONNECT",
        }
    }

    pub open spec fn spec_name(&self) -> Seq<char> {
        match self {
            Method::Get => "GET"@,
            Method::Post => "POST"@,
            Method::Put => "PUT"@,
            Method::Delete => "DELETE"@,
            Method::Head => "HEAD"@,
            Method::Options => "OPTIONS"@,
            Method::Patch => "PATCH"@,
            Method::Trace => "TRACE"@,
            Method::Connect => "CONNECT"@,
        }
    }
}

impl Default for Method {
    fn default() -> (r: Method)
        ensures
            r == Method::Get,
    {
        Method::Get
    }
}

/// An HTTP request description: verb, absolute URL, optional query-parameter
/// object, ordered headers with case-insensitive names, and an optional body
/// object. `params` and `body`, when present, must be object documents; that
/// is what `validate` checks.
pub struct RequestProfile {
    pub method: Method,
    pub url: String,
    pub params: Option<JsonValue>,
    pub headers: Vec<(String, String)>,
    pub body: Option<JsonValue>,
}

/// Whether an optional document is absent or an object.
pub open spec fn object_shaped(v: Option<JsonValue>) -> bool {
    match v {
        Some(p) => p@ is Obj,
        None => true,
    }
}

/// The entries an optional object document starts from: its own, or none.
pub open spec fn init_entries(v: Option<JsonValue>) -> Seq<(Seq<char>, JsonVal)> {
    match v {
        Some(p) => p@->Obj_0,
        None => Seq::empty(),
    }
}

/// Applying `key=value` overrides to an object in order: each sets or
/// overwrites its key, the value read under the scalar typing rule.
pub open spec fn apply_overrides(
    entries: Seq<(Seq<char>, JsonVal)>,
    ov: Seq<(Seq<char>, Seq<char>)>,
) -> Seq<(Seq<char>, JsonVal)>
    decreases ov.len(),
{
    if ov.len() == 0 {
        entries
    } else {
        apply_overrides(obj_set(entries, ov[0].0, spec_scalar(ov[0].1)), ov.drop_first())
    }
}

/// The serialized request body under a content type: JSON bodies are encoded
/// compactly, form bodies in form encoding; any other content type is
/// refused.
pub open spec fn spec_body_string(ct: Option<Seq<char>>, b: Seq<(Seq<char>, JsonVal)>) -> Option<
    Seq<char>,
> {
    match ct {
        None => None,
        Some(c) => if c == "application/json"@ {
            Some(encode_json(JsonVal::Obj(b)))
        } else if c == "application/x-www-form-urlencoded"@ || c == "multipart/form-data"@ {
            Some(qs_encode_obj(b))
        } else {
            None
        },
    }
}

/// The headers a merged request carries.
pub open spec fn spec_merged_headers(p: RequestProfile, args: ExtraArgs) -> Seq<
    (Seq<char>, Seq<char>),
> {
    ensure_content_type(merge_headers(pairs_view(p.headers@), pairs_view(args.headers@)))
}

/// The query object a merged request carries.
pub open spec fn spec_merged_query(p: RequestProfile, args: ExtraArgs) -> Seq<
    (Seq<char>, JsonVal),
> {
    apply_overrides(init_entries(p.params), pairs_view(args.query@))
}

/// The body object a merged request carries.
pub open spec fn spec_merged_body(p: RequestProfile, args: ExtraArgs) -> Seq<(Seq<char>, JsonVal)> {
    apply_overrides(init_entries(p.body), pairs_view(args.body@))
}

/// The position of the first case-insensitive match of `key`, scanning the
/// pairs from the front.
pub fn find_pair(hs: &Vec<(String, String)>, key: &Vec<char>) -> (r: Option<usize>)
    ensures
        r matches Some(i) ==> header_idx(pairs_view(hs@), key@) == i as int && (i as int)
            < hs@.len(),
        r is None ==> header_idx(pairs_view(hs@), key@) == -1,
{
    let ghost hv = pairs_view(hs@);
    proof {
        lemma_pairs_view(hs@);
        lemma_header_idx_correct(hv, key@);
    }
    let n = hs.len();
    let mut i: usize = 0;
    while i < n
        invariant
            i <= n,
            n == hs@.len(),
            hv == pairs_view(hs@),
            hv.len() == n,
            forall|j: int| 0 <= j < i ==> spec_lower(#[trigger] hv[j].0) != spec_lower(key@),
        decreases n - i,
    {
        let name = str_to_chars(hs[i].0.as_str());
        if chars_ieq(&name, key) {
            proof {
                lemma_pairs_view(hs@);
                assert(hv[i as int].0 == hs@[i as int].0@);
                lemma_header_idx_from_first(hv, key@, i as int);
            }
            return Some(i);
        }
        proof {
            lemma_pairs_view(hs@);
            assert(hv[i as int].0 == hs@[i as int].0@);
        }
        i += 1;
    }
    proof {
        lemma_header_idx_correct(hv, key@);
        if header_idx(hv, key@) >= 0 {
            let i0 = header_idx(hv, key@);
            assert(spec_lower(hv[i0].0) == spec_lower(key@));
        }
    }
    None
}

/// Sets a header, replacing the first same-named entry or appending.
fn set_pair(hs: &mut Vec<(String, String)>, k: String, v: String)
    ensures
        pairs_view(final(hs)@) == header_set(pairs_view(old(hs)@), k@, v@),
{
    let kc = str_to_chars(k.as_str());
    let ghost hv = pairs_view(hs@);
    let idx = find_pair(hs, &kc);
    let ghost k0 = k@;
    let ghost v0 = v@;
    match idx {
        Some(i) => {
            hs.set(i, (k, v));
            proof {
                lemma_pairs_view(old(hs)@);
                lemma_pairs_view(final(hs)@);
                assert(pairs_view(final(hs)@) =~= header_set(hv, k0, v0));
            }
        },
        None => {
            hs.push((k, v));
            proof {
                lemma_pairs_view(old(hs)@);
                lemma_pairs_view(final(hs)@);
                assert(pairs_view(final(hs)@) =~= header_set(hv, k0, v0));
            }
        },
    }
}

/// Clones a pair list.
fn clone_pairs(hs: &Vec<(String, String)>) -> (r: Vec<(String, String)>)
    ensures
        pairs_view(r@) == pairs_view(hs@),
        r@.len() == hs@.len(),
{
    let n = hs.len();
    let mut r: Vec<(String, String)> = Vec::new();
    let mut i: usize = 0;
    while i < n
        invariant
            i <= n,
            n == hs@.len(),
            r@.len() == i,
            forall|j: int|
                0 <= j < i ==> (#[trigger] r@[j]).0@ == hs@[j].0@ && r@[j].1@ == hs@[j].1@,
        decreases n - i,
    {
        let e = (hs[i].0.clone(), hs[i].1.clone());
        r.push(e);
        i += 1;
    }
    proof {
        lemma_pairs_view(r@);
        lemma_pairs_view(hs@);
        assert(pairs_view(r@) =~= pairs_view(hs@));
    }
    r
}

impl RequestProfile {
    /// Builds a request description from its parts.
    pub fn new(
        method: Method,
        url: String,
        params: Option<JsonValue>,
        headers: Vec<(String, String)>,
        body: Option<JsonValue>,
    ) -> (r: RequestProfile)
        ensures
            r.method == method && r.url == url && r.params == params && r.headers == headers
                && r.body == body,
    {
        RequestProfile { method, url, params, headers, body }
    }

    /// Checks the template's shape: `params` and `body`, when present, must
    /// be objects; anything else is an invalid shape naming the offending
    /// field, `params` being checked first.
    pub fn validate(&self) -> (r: Result<(), XdiffError>)
        ensures
            (r is Ok) == (object_shaped(self.params) && object_shaped(self.body)),
            !object_shaped(self.params) ==> (r matches Err(e) && e is InvalidShape
                && e->InvalidShape_0@ == "params must be an object"@),
            object_shaped(self.params) && !object_shaped(self.body) ==> (r matches Err(e)
                && e is InvalidShape && e->InvalidShape_0@ == "body must be an object"@),
    {
        match &self.params {
            Some(p) => {
                if !p.is_object() {
                    return Err(
                        XdiffError::InvalidShape(String::from_str("params must be an object")),
                    );
                }
            },
            None => {},
        }
        match &self.body {
            Some(b) => {
                if !b.is_object() {
                    return Err(
                        XdiffError::InvalidShape(String::from_str("body must be an object")),
                    );
                }
            },
            None => {},
        }
        Ok(())
    }

    /// Merges the overrides into the template and serializes the body: the
    /// final headers (with the content type defaulted to JSON), the merged
    /// query object, and the body text under the merged content type. A
    /// content type the serializer does not know is refused.
    pub fn generate(&self, args: &ExtraArgs) -> (r: Result<
        (Vec<(String, String)>, JsonValue, String),
        XdiffError,
    >)
        requires
            object_shaped(self.params),
            object_shaped(self.body),
        ensures
            (r is Ok) == (spec_body_string(
                content_type_of(spec_merged_headers(*self, *args)),
                spec_merged_body(*self, *args),
            ) is Some),
            r matches Ok(t) ==> pairs_view(t.0@) == spec_merged_headers(*self, *args) && t.1@
                == JsonVal::Obj(spec_merged_query(*self, *args)) && t.2@ == spec_body_string(
                content_type_of(spec_merged_headers(*self, *args)),
                spec_merged_body(*self, *args),
            )->Some_0,
            r matches Err(e) ==> e is UnsupportedContentType,
    {
        // headers: template's own, then the overrides, then the default
        let mut hs = clone_pairs(&self.headers);
        let ghost base = pairs_view(self.headers@);
        let ghost ovh = pairs_view(args.headers@);
        let n = args.headers.len();
        let mut i: usize = 0;
        proof {
            lemma_pairs_view(args.headers@);
            assert(ovh.skip(0) =~= ovh);
        }
        while i < n
            invariant
                i <= n,
                n == args.headers@.len(),
                ovh == pairs_view(args.headers@),
                ovh.len() == n,
                forall|j: int|
                    0 <= j < n ==> (#[trigger] ovh[j]) == (args.headers@[j].0@, args.headers@[j].1@),
                merge_headers(pairs_view(hs@), ovh.skip(i as int)) == merge_headers(base, ovh),
            decreases n - i,
        {
            let k = args.headers[i].0.clone();
            let v = args.headers[i].1.clone();
            proof {
                assert(ovh.skip(i as int)[0] == ovh[i as int]);
                assert(ovh.skip(i as int).drop_first() =~= ovh.skip(i + 1 as int));
            }
            set_pair(&mut hs, k, v);
            i += 1;
        }
        proof {
            assert(ovh.skip(n as int) =~= Seq::<(Seq<char>, Seq<char>)>::empty());
        }
        let ct_key = str_to_chars("content-type");
        let ghost pre_ct = pairs_view(hs@);
        proof {
            assert(pre_ct == merge_headers(base, ovh));
        }
        let has_ct = find_pair(&hs, &ct_key);
        match has_ct {
            Option::None => {
                let ghost pre = hs@;
                hs.push(
                    (String::from_str("Content-Type"), String::from_str("application/json")),
                );
                proof {
                    assert(hs@.drop_last() =~= pre);
                    assert(pairs_view(hs@) == pairs_view(pre).push(
                        ("Content-Type"@, "application/json"@),
                    ));
                    reveal_strlit("Content-Type");
                    reveal_strlit("content-type");
                    assert(spec_lower("Content-Type"@) =~= spec_lower("content-type"@));
                    lemma_header_idx_correct(pairs_view(pre), ct_key@);
                    assert forall|j: int|
                        0 <= j < pairs_view(pre).len() implies spec_lower(
                        #[trigger] pairs_view(hs@)[j].0,
                    ) != spec_lower(ct_key@) by {
                        assert(pairs_view(hs@)[j] == pairs_view(pre)[j]);
                    }
                    lemma_header_idx_from_first(
                        pairs_view(hs@),
                        ct_key@,
                        pairs_view(pre).len() as int,
                    );
                }
            },
            Option::Some(_) => {},
        }
        let ghost final_hs = spec_merged_headers(*self, *args);
        proof {
            assert(pairs_view(hs@) =~= final_hs);
            assert(header_idx(pairs_view(hs@), ct_key@) >= 0);
        }
        // query and body objects
        let mut query = match &self.params {
            Some(p) => crate::json::clone_json(p),
            None => JsonValue::empty_object(),
        };
        let ghost ovq = pairs_view(args.query@);
        proof {
            lemma_pairs_view(args.query@);
            assert(ovq.skip(0) =~= ovq);
        }
        let nq = args.query.len();
        let mut qi: usize = 0;
        while qi < nq
            invariant
                qi <= nq,
                nq == args.query@.len(),
                ovq == pairs_view(args.query@),
                ovq.len() == nq,
                forall|j: int|
                    0 <= j < nq ==> (#[trigger] ovq[j]) == (args.query@[j].0@, args.query@[j].1@),
                query@ is Obj,
                apply_overrides(query@->Obj_0, ovq.skip(qi as int)) == apply_overrides(
                    init_entries(self.params),
                    ovq,
                ),
            decreases nq - qi,
        {
            let k = str_to_chars(args.query[qi].0.as_str());
            let v = str_to_chars(args.query[qi].1.as_str());
            proof {
                assert(ovq.skip(qi as int)[0] == ovq[qi as int]);
                assert(ovq.skip(qi as int).drop_first() =~= ovq.skip(qi + 1 as int));
            }
            let sv = crate::json::parse_scalar(v);
            query = query.with_key_set(k, sv);
            qi += 1;
        }
        proof {
            assert(ovq.skip(nq as int) =~= Seq::<(Seq<char>, Seq<char>)>::empty());
        }
        let mut body = match &self.body {
            Some(b) => crate::json::clone_json(b),
            None => JsonValue::empty_object(),
        };
        let ghost ovb = pairs_view(args.body@);
        proof {
            lemma_pairs_view(args.body@);
            assert(ovb.skip(0) =~= ovb);
        }
        let nb = args.body.len();
        let mut bi: usize = 0;
        while bi < nb
            invariant
                bi <= nb,
                nb == args.body@.len(),
                ovb == pairs_view(args.body@),
                ovb.len() == nb,
                forall|j: int|
                    0 <= j < nb ==> (#[trigger] ovb[j]) == (args.body@[j].0@, args.body@[j].1@),
                body@ is Obj,
                apply_overrides(body@->Obj_0, ovb.skip(bi as int)) == apply_overrides(
                    init_entries(self.body),
                    ovb,
                ),
            decreases nb - bi,
        {
            let k = str_to_chars(args.body[bi].0.as_str());
            let v = str_to_chars(args.body[bi].1.as_str());
            proof {
                assert(ovb.skip(bi as int)[0] == ovb[bi as int]);
                assert(ovb.skip(bi as int).drop_first() =~= ovb.skip(bi + 1 as int));
            }
            let sv = crate::json::parse_scalar(v);
            body = body.with_key_set(k, sv);
            bi += 1;
        }
        proof {
            assert(ovb.skip(nb as int) =~= Seq::<(Seq<char>, Seq<char>)>::empty());
        }
        // content-type-driven serialization
        let ct_idx = find_pair(&hs, &ct_key);
        let i = match ct_idx {
            Some(i) => i,
            None => {
                proof {
                    lemma_header_idx_correct(pairs_view(hs@), ct_key@);
                    assert(false);
                }
                0
            },
        };
        proof {
            lemma_header_idx_correct(pairs_view(hs@), ct_key@);
            lemma_pairs_view(hs@);
        }
        let raw_ct = str_to_chars(hs[i].1.as_str());
        let mut j: usize = 0;
        let m = raw_ct.len();
        while j < m && raw_ct[j] != ';'
            invariant
                j <= m,
                m == raw_ct@.len(),
                semi_from(raw_ct@, 0) == semi_from(raw_ct@, j as int),
            decreases m - j,
        {
            j += 1;
        }
        let mut ct: Vec<char> = Vec::new();
        let mut p: usize = 0;
        while p < j
            invariant
                p <= j <= m,
                m == raw_ct@.len(),
                ct@ =~= raw_ct@.subrange(0, p as int),
            decreases j - p,
        {
            ct.push(raw_ct[p]);
            proof {
                assert(ct@ =~= raw_ct@.subrange(0, p + 1 as int));
            }
            p += 1;
        }
        proof {
            lemma_pairs_view(hs@);
            assert(pairs_view(hs@)[i as int].1 == hs@[i as int].1@);
            assert(header_lookup(final_hs, "content-type"@) == Some(raw_ct@));
            assert(ct@ =~= raw_ct@.take(semi_from(raw_ct@, 0)));
            assert(content_type_of(final_hs) == Some(ct@));
        }
        let lit_json = str_to_chars("application/json");
        let lit_form = str_to_chars("application/x-www-form-urlencoded");
        let lit_multi = str_to_chars("multipart/form-data");
        if crate::strutil::chars_equal(&ct, &lit_json) {
            let bs = crate::json_text::to_json_chars(&body);
            let body_str = chars_to_string(&bs);
            Ok((hs, query, body_str))
        } else if crate::strutil::chars_equal(&ct, &lit_form) || crate::strutil::chars_equal(
            &ct,
            &lit_multi,
        ) {
            let bs = qs_of_object(&body);
            let body_str = chars_to_string(&bs);
            Ok((hs, query, body_str))
        } else {
            let cts = chars_to_string(&ct);
            Err(XdiffError::UnsupportedContentType(cts))
        }
    }
}

} // verus!

verus! {

impl RequestProfile {
    /// The final URL the merged request goes to: the template's URL with the
    /// merged query object appended as a query string, or unchanged when the
    /// merged query is empty. A URL that does not parse is an invalid shape;
    /// a content type the serializer refuses is propagated from the merge.
    pub fn get_url(&self, args: &ExtraArgs) -> (r: Result<String, XdiffError>)
        requires
            object_shaped(self.params),
            object_shaped(self.body),
        ensures
            spec_body_string(
                content_type_of(spec_merged_headers(*self, *args)),
                spec_merged_body(*self, *args),
            ) is None ==> (r matches Err(e) && e is UnsupportedContentType),
            spec_body_string(
                content_type_of(spec_merged_headers(*self, *args)),
                spec_merged_body(*self, *args),
            ) is Some ==> {
                let q = spec_merged_query(*self, *args);
                if q.len() == 0 {
                    r matches Ok(u) && u@ == self.url@
                } else if crate::urlext::url_parse_ok(self.url@) {
                    r matches Ok(u) && u@ == crate::urlext::url_base_of(self.url@) + seq!['?']
                        + qs_encode_obj(q)
                } else {
                    r matches Err(e) && e is InvalidShape
                }
            },
    {
        let generated = self.generate(args)?;
        let (_, query, _) = generated;
        let is_empty = match &query {
            JsonValue::Obj(entries) => entries.len() == 0,
            _ => {
                proof {
                    assert(false);
                }
                true
            },
        };
        proof {
            crate::json::lemma_entries_vals(query->Obj_0@);
        }
        if is_empty {
            proof {
                assert(query@->Obj_0.len() == 0);
            }
            return Ok(self.url.clone());
        }
        match crate::urlext::url_without_query(self.url.as_str()) {
            Some(base) => {
                let mut out = str_to_chars(base.as_str());
                out.push('?');
                let qs = qs_of_object(&query);
                push_all(&mut out, &qs);
                let s = chars_to_string(&out);
                proof {
                    assert(s@ =~= crate::urlext::url_base_of(self.url@) + seq!['?']
                        + qs_encode_obj(spec_merged_query(*self, *args)));
                }
                Ok(s)
            },
            None => Err(XdiffError::InvalidShape(String::from_str("url"))),
        }
    }

    /// Builds a GET request template from a bare URL: any query string is
    /// decomposed into the `params` object (each value read under the scalar
    /// typing rule, later duplicates of a key winning) and stripped from the
    /// URL; headers and body start empty. A string that is not an absolute
    /// URL cannot be parsed into a template.
    pub fn parse_from_url_string(s: &str) -> (r: Result<RequestProfile, XdiffError>)
        ensures
            (r is Ok) == crate::urlext::url_parse_ok(s@),
            r matches Ok(p) ==> {
                &&& p.method == Method::Get
                &&& p.url@ == crate::urlext::url_base_of(s@)
                &&& p.params matches Some(pv) && pv@ == JsonVal::Obj(
                    apply_overrides(Seq::empty(), crate::urlext::url_pairs_of(s@)),
                )
                &&& p.headers@.len() == 0
                &&& p.body is None
            },
            r matches Err(e) ==> e is ConfigParseError,
    {
        let base = match crate::urlext::url_without_query(s) {
            Some(b) => b,
            None => {
                return Err(XdiffError::ConfigParseError(String::from_str(s)));
            },
        };
        let pairs = match crate::urlext::url_query_pairs(s) {
            Some(ps) => ps,
            None => {
                proof {
                    assert(false);
                }
                Vec::new()
            },
        };
        let ghost pv = crate::urlext::url_pairs_of(s@);
        proof {
            lemma_pairs_view(pairs@);
            assert(pairs_view(pairs@) =~= pv);
            assert(pv.skip(0) =~= pv);
        }
        let mut params = JsonValue::empty_object();
        let n = pairs.len();
        let mut i: usize = 0;
        while i < n
            invariant
                i <= n,
                n == pairs@.len(),
                pairs_view(pairs@) == pv,
                pv.len() == n,
                forall|j: int| 0 <= j < n ==> (#[trigger] pv[j]) == (pairs@[j].0@, pairs@[j].1@),
                params@ is Obj,
                apply_overrides(params@->Obj_0, pv.skip(i as int)) == apply_overrides(
                    Seq::empty(),
                    pv,
                ),
            decreases n - i,
        {
            let k = str_to_chars(pairs[i].0.as_str());
            let v = str_to_chars(pairs[i].1.as_str());
            proof {
                assert(pv.skip(i as int)[0] == pv[i as int]);
                assert(pv.skip(i as int).drop_first() =~= pv.skip(i + 1 as int));
            }
            let sv = crate::json::parse_scalar(v);
            params = params.with_key_set(k, sv);
            i += 1;
        }
        proof {
            assert(pv.skip(n as int) =~= Seq::<(Seq<char>, Seq<char>)>::empty());
        }
        Ok(
            RequestProfile {
                method: Method::Get,
                url: base,
                params: Some(params),
                headers: Vec::new(),
                body: None,
            },
        )
    }
}

} // verus!
