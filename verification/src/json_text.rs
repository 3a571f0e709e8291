use vstd::prelude::*;

use crate::json::{arr_vals, entries_vals, json_view, JsonVal, JsonValue};
use crate::strutil::{push_str_chars, push_all};
use crate::json::clone_chars;

verus! {

broadcast use vstd::std_specs::vec::group_vec_axioms;

// ---------------------------------------------------------------------------
// The encoding, as a mathematical function of the model.
// ---------------------------------------------------------------------------

/// The hexadecimal digit character for a value below sixteen.
pub open spec fn hex_char(d: nat) -> char {
    if d < 10 {
        crate::strutil::spec_digit_char(d)
    } else if d == 10 {
        'a'
    } else if d == 11 {
        'b'
    } else if d == 12 {
        'c'
    } else if d == 13 {
        'd'
    } else if d == 14 {
        'e'
    } else {
        'f'
    }
}

/// How one character appears inside a JSON string literal: quotes and
/// backslashes are escaped, the common control characters get their short
/// escapes, the remaining control characters a `\u00XX` escape, and
/// everything else stands as itself.
pub open spec fn escape_char(c: char) -> Seq<char> {
    if c == '"' {
        seq!['\\', '"']
    } else if c == '\\' {
        seq!['\\', '\\']
    } else if c == '\n' {
        seq!['\\', 'n']
    } else if c == '\r' {
        seq!['\\', 'r']
    } else if c == '\t' {
        seq!['\\', 't']
    } else if c == '\u{8}' {
        seq!['\\', 'b']
    } else if c == '\u{c}' {
        seq!['\\', 'f']
    } else if (c as int) < 32 {
        seq!['\\', 'u', '0', '0', hex_char(((c as int) / 16) as nat), hex_char(
            ((c as int) % 16) as nat,
        )]
    } else {
        seq![c]
    }
}

pub open spec fn escape_chars(s: Seq<char>) -> Seq<char>
    decreases s.len(),
{
    if s.len() == 0 {
        Seq::empty()
    } else {
        escape_chars(s.drop_last()) + escape_char(s.last())
    }
}

/// A JSON string literal: the escaped characters between double quotes.
pub open spec fn encode_string(s: Seq<char>) -> Seq<char> {
    seq!['"'] + escape_chars(s) + seq!['"']
}

/// The compact (single-line) encoding of a document.
pub open spec fn encode_json(v: JsonVal) -> Seq<char>
    decreases v,
{
    match v {
        JsonVal::Null => "null"@,
        JsonVal::Bool(b) => if b {
            "true"@
        } else {
            "false"@
        },
        JsonVal::Num(s) => s,
        JsonVal::Str(s) => encode_string(s),
        JsonVal::Arr(items) => seq!['['] + encode_items(items) + seq![']'],
        JsonVal::Obj(entries) => seq!['{'] + encode_entries(entries) + seq!['}'],
    }
}

pub open spec fn encode_items(items: Seq<JsonVal>) -> Seq<char>
    decreases items,
{
    if items.len() == 0 {
        Seq::empty()
    } else if items.len() == 1 {
        encode_json(items.last())
    } else {
        encode_items(items.drop_last()) + seq![','] + encode_json(items.last())
    }
}

pub open spec fn encode_entries(entries: Seq<(Seq<char>, JsonVal)>) -> Seq<char>
    decreases entries,
{
    if entries.len() == 0 {
        Seq::empty()
    } else if entries.len() == 1 {
        encode_string(entries.last().0) + seq![':'] + encode_json(entries.last().1)
    } else {
        encode_entries(entries.drop_last()) + seq![','] + encode_string(entries.last().0) + seq![
            ':',
        ] + encode_json(entries.last().1)
    }
}

/// The pretty (multi-line) encoding: two more spaces of indentation per
/// nesting level, one element or member per line, as the usual pretty JSON
/// printers lay it out. `ind` is the indentation of the surrounding level.
pub open spec fn encode_pretty(v: JsonVal, ind: Seq<char>) -> Seq<char>
    decreases v,
{
    match v {
        JsonVal::Null => "null"@,
        JsonVal::Bool(b) => if b {
            "true"@
        } else {
            "false"@
        },
        JsonVal::Num(s) => s,
        JsonVal::Str(s) => encode_string(s),
        JsonVal::Arr(items) => if items.len() == 0 {
            "[]"@
        } else {
            seq!['['] + pretty_items(items, ind + "  "@) + seq!['\n'] + ind + seq![']']
        },
        JsonVal::Obj(entries) => if entries.len() == 0 {
            "{}"@
        } else {
            seq!['{'] + pretty_entries(entries, ind + "  "@) + seq!['\n'] + ind + seq!['}']
        },
    }
}

pub open spec fn pretty_items(items: Seq<JsonVal>, ind: Seq<char>) -> Seq<char>
    decreases items,
{
    if items.len() == 0 {
        Seq::empty()
    } else if items.len() == 1 {
        seq!['\n'] + ind + encode_pretty(items.last(), ind)
    } else {
        pretty_items(items.drop_last(), ind) + seq![','] + seq!['\n'] + ind + encode_pretty(
            items.last(),
            ind,
        )
    }
}

pub open spec fn pretty_entries(entries: Seq<(Seq<char>, JsonVal)>, ind: Seq<char>) -> Seq<char>
    decreases entries,
{
    if entries.len() == 0 {
        Seq::empty()
    } else if entries.len() == 1 {
        seq!['\n'] + ind + encode_string(entries.last().0) + seq![':', ' '] + encode_pretty(
            entries.last().1,
            ind,
        )
    } else {
        pretty_entries(entries.drop_last(), ind) + seq![',', '\n'] + ind + encode_string(
            entries.last().0,
        ) + seq![':', ' '] + encode_pretty(entries.last().1, ind)
    }
}

// ---------------------------------------------------------------------------
// The executable writer.
// ---------------------------------------------------------------------------

fn hex_char_exec(d: usize) -> (c: char)
    requires
        d < 16,
    ensures
        c == hex_char(d as nat),
{
    match d {
        0 => '0',
        1 => '1',
        2 => '2',
        3 => '3',
        4 => '4',
        5 => '5',
        6 => '6',
        7 => '7',
        8 => '8',
        9 => '9',
        10 => 'a',
        11 => 'b',
        12 => 'c',
        13 => 'd',
        14 => 'e',
        _ => 'f',
    }
}

/// Appends the escaped form of one character.
fn write_escaped_char(c: char, out: &mut Vec<char>)
    ensures
        final(out)@ == old(out)@ + escape_char(c),
{
    if c == '"' {
        out.push('\\');
        out.push('"');
    } else if c == '\\' {
        out.push('\\');
        out.push('\\');
    } else if c == '\n' {
        out.push('\\');
        out.push('n');
    } else if c == '\r' {
        out.push('\\');
        out.push('r');
    } else if c == '\t' {
        out.push('\\');
        out.push('t');
    } else if c == '\u{8}' {
        out.push('\\');
        out.push('b');
    } else if c == '\u{c}' {
        out.push('\\');
        out.push('f');
    } else if (c as u32) < 32 {
        let u = (c as u32) as usize;
        out.push('\\');
        out.push('u');
        out.push('0');
        out.push('0');
        out.push(hex_char_exec(u / 16));
        out.push(hex_char_exec(u % 16));
        proof {
            assert(final(out)@ =~= old(out)@ + escape_char(c));
        }
    } else {
        out.push(c);
    }
    proof {
        assert(final(out)@ =~= old(out)@ + escape_char(c));
    }
}

/// Appends a JSON string literal holding `s`.
fn write_string_literal(s: &Vec<char>, out: &mut Vec<char>)
    ensures
        final(out)@ == old(out)@ + encode_string(s@),
{
    out.push('"');
    let n = s.len();
    let mut i: usize = 0;
    while i < n
        invariant
            n == s@.len(),
            i <= n,
            out@ == old(out)@ + seq!['"'] + escape_chars(s@.take(i as int)),
        decreases n - i,
    {
        proof {
            assert(s@.take(i + 1 as int).drop_last() =~= s@.take(i as int));
            assert(s@.take(i + 1 as int).last() == s@[i as int]);
        }
        write_escaped_char(s[i], out);
        i += 1;
    }
    out.push('"');
    proof {
        assert(s@.take(n as int) =~= s@);
        assert(final(out)@ =~= old(out)@ + encode_string(s@));
    }
}

/// Appends the compact encoding of a document.
#[verifier::loop_isolation(false)]
pub fn write_json(v: &JsonValue, out: &mut Vec<char>)
    ensures
        final(out)@ == old(out)@ + encode_json(v@),
    decreases v,
{
    match v {
        JsonValue::Null => {
            push_str_chars(out, "null");
        },
        JsonValue::Bool(b) => {
            if *b {
                push_str_chars(out, "true");
            } else {
                push_str_chars(out, "false");
            }
        },
        JsonValue::Num(s) => {
            push_all(out, s);
        },
        JsonValue::Str(s) => {
            write_string_literal(s, out);
        },
        JsonValue::Arr(items) => {
            let ghost iv = arr_vals(items@);
            proof {
                crate::json::lemma_arr_vals(items@);
            }
            out.push('[');
            let n = items.len();
            let mut i: usize = 0;
            while i < n
                invariant
                    i <= n,
                    out@ == old(out)@ + seq!['['] + encode_items(iv.take(i as int)),
                decreases n - i,
            {
                if i > 0 {
                    out.push(',');
                }
                write_json(&items[i], out);
                proof {
                    assert(iv.take(i + 1 as int).drop_last() =~= iv.take(i as int));
                    assert(iv.take(i + 1 as int).last() == iv[i as int]);
                    assert(out@ =~= old(out)@ + seq!['['] + encode_items(iv.take(i + 1 as int)));
                }
                i += 1;
            }
            out.push(']');
            proof {
                assert(iv.take(n as int) =~= iv);
                assert(final(out)@ =~= old(out)@ + encode_json(v@));
            }
        },
        JsonValue::Obj(entries) => {
            let ghost ev = entries_vals(entries@);
            proof {
                crate::json::lemma_entries_vals(entries@);
            }
            out.push('{');
            let n = entries.len();
            let mut i: usize = 0;
            while i < n
                invariant
                    i <= n,
                    out@ == old(out)@ + seq!['{'] + encode_entries(ev.take(i as int)),
                decreases n - i,
            {
                if i > 0 {
                    out.push(',');
                }
                write_string_literal(&entries[i].0, out);
                out.push(':');
                write_json(&entries[i].1, out);
                proof {
                    assert(ev.take(i + 1 as int).drop_last() =~= ev.take(i as int));
                    assert(ev.take(i + 1 as int).last() == ev[i as int]);
                    assert(out@ =~= old(out)@ + seq!['{'] + encode_entries(ev.take(i + 1 as int)));
                }
                i += 1;
            }
            out.push('}');
            proof {
                assert(ev.take(n as int) =~= ev);
                assert(final(out)@ =~= old(out)@ + encode_json(v@));
            }
        },
    }
}

/// The compact encoding of a document.
pub fn to_json_chars(v: &JsonValue) -> (r: Vec<char>)
    ensures
        r@ == encode_json(v@),
{
    let mut out: Vec<char> = Vec::new();
    write_json(v, &mut out);
    out
}

/// Appends the pretty encoding of a document at the given indentation.
#[verifier::loop_isolation(false)]
#[verifier::rlimit(60)]
pub fn write_json_pretty(v: &JsonValue, ind: &Vec<char>, out: &mut Vec<char>)
    ensures
        final(out)@ == old(out)@ + encode_pretty(v@, ind@),
    decreases v,
{
    match v {
        JsonValue::Null => {
            push_str_chars(out, "null");
        },
        JsonValue::Bool(b) => {
            if *b {
                push_str_chars(out, "true");
            } else {
                push_str_chars(out, "false");
            }
        },
        JsonValue::Num(s) => {
            push_all(out, s);
        },
        JsonValue::Str(s) => {
            write_string_literal(s, out);
        },
        JsonValue::Arr(items) => {
            let ghost iv = arr_vals(items@);
            proof {
                crate::json::lemma_arr_vals(items@);
            }
            if items.len() == 0 {
                push_str_chars(out, "[]");
                proof {
                    assert(iv =~= Seq::<JsonVal>::empty());
                }
            } else {
                let mut ind2 = clone_chars(ind);
                ind2.push(' ');
                ind2.push(' ');
                proof {
                    assert(ind2@ =~= ind@ + "  "@) by {
                        reveal_strlit("  ");
                    }
                }
                out.push('[');
                let n = items.len();
                let mut i: usize = 0;
                while i < n
                    invariant
                        i <= n,
                        ind2@ == ind@ + "  "@,
                        out@ == old(out)@ + seq!['['] + pretty_items(iv.take(i as int), ind2@),
                    decreases n - i,
                {
                    if i > 0 {
                        out.push(',');
                    }
                    out.push('\n');
                    push_all(out, &ind2);
                    write_json_pretty(&items[i], &ind2, out);
                    proof {
                        assert(iv.take(i + 1 as int).drop_last() =~= iv.take(i as int));
                        assert(iv.take(i + 1 as int).last() == iv[i as int]);
                        assert(out@ =~= old(out)@ + seq!['['] + pretty_items(
                            iv.take(i + 1 as int),
                            ind2@,
                        ));
                    }
                    i += 1;
                }
                out.push('\n');
                push_all(out, ind);
                out.push(']');
                proof {
                    assert(iv.take(n as int) =~= iv);
                    assert(final(out)@ =~= old(out)@ + encode_pretty(v@, ind@));
                }
            }
        },
        JsonValue::Obj(entries) => {
            let ghost ev = entries_vals(entries@);
            proof {
                crate::json::lemma_entries_vals(entries@);
            }
            if entries.len() == 0 {
                push_str_chars(out, "{}");
                proof {
                    assert(ev =~= Seq::<(Seq<char>, JsonVal)>::empty());
                }
            } else {
                let mut ind2 = clone_chars(ind);
                ind2.push(' ');
                ind2.push(' ');
                proof {
                    assert(ind2@ =~= ind@ + "  "@) by {
                        reveal_strlit("  ");
                    }
                }
                out.push('{');
                let n = entries.len();
                let mut i: usize = 0;
                while i < n
                    invariant
                        i <= n,
                        ind2@ == ind@ + "  "@,
                        out@ == old(out)@ + seq!['{'] + pretty_entries(ev.take(i as int), ind2@),
                    decreases n - i,
                {
                    if i > 0 {
                        out.push(',');
                    }
                    out.push('\n');
                    push_all(out, &ind2);
                    write_string_literal(&entries[i].0, out);
                    out.push(':');
                    out.push(' ');
                    write_json_pretty(&entries[i].1, &ind2, out);
                    proof {
                        assert(ev.take(i + 1 as int).drop_last() =~= ev.take(i as int));
                        assert(ev.take(i + 1 as int).last() == ev[i as int]);
                        assert(out@ =~= old(out)@ + seq!['{'] + pretty_entries(
                            ev.take(i + 1 as int),
                            ind2@,
                        ));
                    }
                    i += 1;
                }
                out.push('\n');
                push_all(out, ind);
                out.push('}');
                proof {
                    assert(ev.take(n as int) =~= ev);
                    assert(final(out)@ =~= old(out)@ + encode_pretty(v@, ind@));
                }
            }
        },
    }
}

/// The pretty encoding of a document.
pub fn to_json_chars_pretty(v: &JsonValue) -> (r: Vec<char>)
    ensures
        r@ == encode_pretty(v@, Seq::empty()),
{
    let ind: Vec<char> = Vec::new();
    let mut out: Vec<char> = Vec::new();
    write_json_pretty(v, &ind, &mut out);
    proof {
        assert(ind@ =~= Seq::<char>::empty());
    }
    out
}

} // verus!
