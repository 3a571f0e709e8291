use vstd::prelude::*;

use crate::json::{
    is_digit, obj_set, scan_number, JsonVal, JsonValue,
};

verus! {

broadcast use vstd::std_specs::vec::group_vec_axioms;

// ---------------------------------------------------------------------------
// The grammar, as spec functions: a deterministic recursive descent over the
// character sequence. Each function takes the position it starts at and
// yields the parsed value and the position just after it, or `None` when the
// text does not match the grammar there.
// ---------------------------------------------------------------------------

pub open spec fn is_ws(c: char) -> bool {
    c == ' ' || c == '\t' || c == '\n' || c == '\r'
}

/// The first position at or after `i` holding no whitespace.
pub open spec fn skip_ws(s: Seq<char>, i: int) -> int
    decreases s.len() - i,
{
    if 0 <= i < s.len() && is_ws(s[i]) {
        skip_ws(s, i + 1)
    } else {
        i
    }
}

/// The value of a hexadecimal digit character.
pub open spec fn hex_val(c: char) -> Option<int> {
    if '0' <= c && c <= '9' {
        Some(c as int - '0' as int)
    } else if 'a' <= c && c <= 'f' {
        Some(c as int - 'a' as int + 10)
    } else if 'A' <= c && c <= 'F' {
        Some(c as int - 'A' as int + 10)
    } else {
        None
    }
}

/// The value of the four hexadecimal digits at `i`.
pub open spec fn hex4_at(s: Seq<char>, i: int) -> Option<int> {
    if 0 <= i && i + 4 <= s.len() {
        match (hex_val(s[i]), hex_val(s[i + 1]), hex_val(s[i + 2]), hex_val(s[i + 3])) {
            (Some(a), Some(b), Some(c), Some(d)) => Some(a * 4096 + b * 256 + c * 16 + d),
            _ => None,
        }
    } else {
        None
    }
}

/// Whether a code unit from a `\u` escape is a high or low surrogate.
pub open spec fn is_high_surrogate(u: int) -> bool {
    0xD800 <= u < 0xDC00
}

pub open spec fn is_low_surrogate(u: int) -> bool {
    0xDC00 <= u < 0xE000
}

/// The contents of a string literal starting at `i` (the position just after
/// the opening quote), and the position just after the closing quote. The
/// escapes are the JSON ones; a `\u` escape carrying a high surrogate must be
/// followed by one carrying a low surrogate, and the pair forms one
/// character; unescaped control characters are not accepted.
pub open spec fn scan_string(s: Seq<char>, i: int) -> Option<(Seq<char>, int)>
    decreases s.len() - i,
{
    if i < 0 || i >= s.len() {
        None
    } else {
        let c = s[i];
        if c == '"' {
            Some((Seq::empty(), i + 1))
        } else if c == '\\' {
            if i + 1 >= s.len() {
                None
            } else {
                let e = s[i + 1];
                if e == 'u' {
                    match hex4_at(s, i + 2) {
                        None => None,
                        Some(u) => {
                            if is_high_surrogate(u) {
                                if i + 8 <= s.len() && s[i + 6] == '\\' && s[i + 7] == 'u' {
                                    match hex4_at(s, i + 8) {
                                        None => None,
                                        Some(u2) => {
                                            if is_low_surrogate(u2) {
                                                let code = 0x10000 + (u - 0xD800) * 0x400 + (u2
                                                    - 0xDC00);
                                                match scan_string(s, i + 12) {
                                                    None => None,
                                                    Some((t, j)) => Some(
                                                        (seq![code as char] + t, j),
                                                    ),
                                                }
                                            } else {
                                                None
                                            }
                                        },
                                    }
                                } else {
                                    None
                                }
                            } else if is_low_surrogate(u) {
                                None
                            } else {
                                match scan_string(s, i + 6) {
                                    None => None,
                                    Some((t, j)) => Some((seq![u as char] + t, j)),
                                }
                            }
                        },
                    }
                } else {
                    match escape_short(e) {
                        None => None,
                        Some(ch) => match scan_string(s, i + 2) {
                            None => None,
                            Some((t, j)) => Some((seq![ch] + t, j)),
                        },
                    }
                }
            }
        } else if (c as int) < 32 {
            None
        } else {
            match scan_string(s, i + 1) {
                None => None,
                Some((t, j)) => Some((seq![c] + t, j)),
            }
        }
    }
}

/// The character named by a one-letter escape.
pub open spec fn escape_short(e: char) -> Option<char> {
    if e == '"' {
        Some('"')
    } else if e == '\\' {
        Some('\\')
    } else if e == '/' {
        Some('/')
    } else if e == 'b' {
        Some('\u{8}')
    } else if e == 'f' {
        Some('\u{c}')
    } else if e == 'n' {
        Some('\n')
    } else if e == 'r' {
        Some('\r')
    } else if e == 't' {
        Some('\t')
    } else {
        None
    }
}

/// A number token always covers at least one character.
pub proof fn lemma_scan_number_bounds(s: Seq<char>, i: int)
    requires
        0 <= i <= s.len(),
    ensures
        scan_number(s, i) matches Some(j) ==> i < j <= s.len(),
{
    let i1 = if i < s.len() && s[i] == '-' {
        i + 1
    } else {
        i
    };
    if i1 < s.len() && is_digit(s[i1]) {
        crate::json::lemma_scan_digits_bounds(s, i1 + 1);
        let i2 = if s[i1] == '0' {
            i1 + 1
        } else {
            crate::json::scan_digits(s, i1)
        };
        assert(i1 < i2 <= s.len());
        let i3 = crate::json::scan_frac(s, i2);
        if i2 < s.len() && s[i2] == '.' && i2 + 1 < s.len() && is_digit(s[i2 + 1]) {
            crate::json::lemma_scan_digits_bounds(s, i2 + 1);
        }
        if i3 >= 0 {
            assert(i2 <= i3 <= s.len());
            if i3 < s.len() && (s[i3] == 'e' || s[i3] == 'E') {
                let jj = if i3 + 1 < s.len() && (s[i3 + 1] == '+' || s[i3 + 1] == '-') {
                    i3 + 2
                } else {
                    i3 + 1
                };
                if jj < s.len() && is_digit(s[jj]) {
                    crate::json::lemma_scan_digits_bounds(s, jj);
                }
            }
        }
    }
}

/// Folding a parsed member list into an object: later members overwrite
/// earlier ones under the same key, which keeps its first position.
pub open spec fn obj_from_pairs(
    acc: Seq<(Seq<char>, JsonVal)>,
    pairs: Seq<(Seq<char>, JsonVal)>,
) -> Seq<(Seq<char>, JsonVal)>
    decreases pairs.len(),
{
    if pairs.len() == 0 {
        acc
    } else {
        obj_from_pairs(obj_set(acc, pairs[0].0, pairs[0].1), pairs.drop_first())
    }
}

/// One JSON value starting exactly at `i` (no leading whitespace), and the
/// position just after it.
pub open spec fn parse_value(s: Seq<char>, i: int) -> Option<(JsonVal, int)>
    decreases s.len() - i, 0int,
{
    if i < 0 || i >= s.len() {
        None
    } else {
        let c = s[i];
        if c == 'n' {
            if i + 4 <= s.len() && s[i + 1] == 'u' && s[i + 2] == 'l' && s[i + 3] == 'l' {
                Some((JsonVal::Null, i + 4))
            } else {
                None
            }
        } else if c == 't' {
            if i + 4 <= s.len() && s[i + 1] == 'r' && s[i + 2] == 'u' && s[i + 3] == 'e' {
                Some((JsonVal::Bool(true), i + 4))
            } else {
                None
            }
        } else if c == 'f' {
            if i + 5 <= s.len() && s[i + 1] == 'a' && s[i + 2] == 'l' && s[i + 3] == 's' && s[i
                + 4] == 'e' {
                Some((JsonVal::Bool(false), i + 5))
            } else {
                None
            }
        } else if c == '"' {
            match scan_string(s, i + 1) {
                None => None,
                Some((t, j)) => Some((JsonVal::Str(t), j)),
            }
        } else if c == '-' || is_digit(c) {
            match scan_number(s, i) {
                None => None,
                Some(j) => Some((JsonVal::Num(s.subrange(i, j)), j)),
            }
        } else if c == '[' {
            match parse_elements(s, i + 1, true) {
                None => None,
                Some((items, j)) => Some((JsonVal::Arr(items), j)),
            }
        } else if c == '{' {
            match parse_members(s, i + 1, true) {
                None => None,
                Some((pairs, j)) => Some((JsonVal::Obj(obj_from_pairs(Seq::empty(), pairs)), j)),
            }
        } else {
            None
        }
    }
}

/// The elements of an array, starting just after the opening bracket or a
/// comma, up to and including the closing bracket. `first` is whether no
/// element was read yet (only then may the array close at once).
pub open spec fn parse_elements(s: Seq<char>, i: int, first: bool) -> Option<(Seq<JsonVal>, int)>
    decreases s.len() - i, 1int,
{
    if i < 0 || i > s.len() {
        None
    } else {
        let j = skip_ws(s, i);
        if j < i || j >= s.len() {
            None
        } else if s[j] == ']' && first {
            Some((Seq::empty(), j + 1))
        } else {
            match parse_value(s, j) {
                None => None,
                Some((v, k)) => {
                    if k <= j || k > s.len() {
                        None
                    } else {
                        let m = skip_ws(s, k);
                        if m < k || m >= s.len() {
                            None
                        } else if s[m] == ']' {
                            Some((seq![v], m + 1))
                        } else if s[m] == ',' {
                            match parse_elements(s, m + 1, false) {
                                None => None,
                                Some((items, e)) => Some((seq![v] + items, e)),
                            }
                        } else {
                            None
                        }
                    }
                },
            }
        }
    }
}

/// The members of an object, starting just after the opening brace or a
/// comma, up to and including the closing brace, as the raw (possibly
/// repeating) key/value list.
pub open spec fn parse_members(s: Seq<char>, i: int, first: bool) -> Option<
    (Seq<(Seq<char>, JsonVal)>, int),
>
    decreases s.len() - i, 1int,
{
    if i < 0 || i > s.len() {
        None
    } else {
        let j = skip_ws(s, i);
        if j < i || j >= s.len() {
            None
        } else if s[j] == '}' && first {
            Some((Seq::empty(), j + 1))
        } else if s[j] != '"' {
            None
        } else {
            match scan_string(s, j + 1) {
                None => None,
                Some((key, k)) => {
                    if k <= j || k > s.len() {
                        None
                    } else {
                        let m = skip_ws(s, k);
                        if m < k || m >= s.len() || s[m] != ':' {
                            None
                        } else {
                            let p = skip_ws(s, m + 1);
                            if p < m + 1 || p > s.len() {
                                None
                            } else {
                                match parse_value(s, p) {
                                    None => None,
                                    Some((v, q)) => {
                                        if q <= p || q > s.len() {
                                            None
                                        } else {
                                            let r = skip_ws(s, q);
                                            if r < q || r >= s.len() {
                                                None
                                            } else if s[r] == '}' {
                                                Some((seq![(key, v)], r + 1))
                                            } else if s[r] == ',' {
                                                match parse_members(s, r + 1, false) {
                                                    None => None,
                                                    Some((pairs, e)) => Some(
                                                        (seq![(key, v)] + pairs, e),
                                                    ),
                                                }
                                            } else {
                                                None
                                            }
                                        }
                                    },
                                }
                            }
                        }
                    }
                },
            }
        }
    }
}

/// A whole JSON document: one value, with whitespace allowed around it and
/// nothing else.
pub open spec fn spec_parse_json(s: Seq<char>) -> Option<JsonVal> {
    let i = skip_ws(s, 0);
    match parse_value(s, i) {
        None => None,
        Some((v, j)) => {
            if 0 <= j <= s.len() && skip_ws(s, j) == s.len() {
                Some(v)
            } else {
                None
            }
        },
    }
}

// ---------------------------------------------------------------------------
// The executable parser.
// ---------------------------------------------------------------------------

pub fn skip_ws_exec(s: &Vec<char>, i: usize) -> (r: usize)
    requires
        i <= s@.len(),
    ensures
        r as int == skip_ws(s@, i as int),
        i <= r <= s@.len(),
{
    let n = s.len();
    let mut j = i;
    while j < n && (s[j] == ' ' || s[j] == '\t' || s[j] == '\n' || s[j] == '\r')
        invariant
            i <= j <= n,
            n == s@.len(),
            skip_ws(s@, i as int) == skip_ws(s@, j as int),
        decreases n - j,
    {
        j += 1;
    }
    j
}

fn hex_val_exec(c: char) -> (r: Option<u32>)
    ensures
        r matches Some(v) ==> hex_val(c) == Some(v as int) && v < 16,
        r is None ==> hex_val(c) is None,
{
    if '0' <= c && c <= '9' {
        Some((c as u32) - ('0' as u32))
    } else if 'a' <= c && c <= 'f' {
        Some((c as u32) - ('a' as u32) + 10)
    } else if 'A' <= c && c <= 'F' {
        Some((c as u32) - ('A' as u32) + 10)
    } else {
        None
    }
}

fn hex4_exec(s: &Vec<char>, i: usize) -> (r: Option<u32>)
    requires
        i <= s@.len(),
    ensures
        r matches Some(u) ==> hex4_at(s@, i as int) == Some(u as int) && i + 4 <= s@.len() && u
            < 0x10000,
        r is None ==> hex4_at(s@, i as int) is None,
{
    if s.len() - i < 4 {
        return None;
    }
    let a = hex_val_exec(s[i]);
    let b = hex_val_exec(s[i + 1]);
    let c = hex_val_exec(s[i + 2]);
    let d = hex_val_exec(s[i + 3]);
    match (a, b, c, d) {
        (Some(a), Some(b), Some(c), Some(d)) => Some(a * 4096 + b * 256 + c * 16 + d),
        _ => None,
    }
}

/// Composition of a scanned prefix with the rest of a string scan.
pub open spec fn prepend_scan(p: Seq<char>, r: Option<(Seq<char>, int)>) -> Option<
    (Seq<char>, int),
> {
    match r {
        None => None,
        Some((t, j)) => Some((p + t, j)),
    }
}

/// Putting one more character in front of a scanned prefix.
proof fn lemma_prepend_assoc(a: Seq<char>, c: char, r: Option<(Seq<char>, int)>)
    ensures
        prepend_scan(a, prepend_scan(seq![c], r)) == prepend_scan(a.push(c), r),
{
    match r {
        Some((t, j)) => {
            assert(a + (seq![c] + t) =~= a.push(c) + t);
        },
        None => {},
    }
}

fn escape_short_exec(e: char) -> (r: Option<char>)
    ensures
        r == escape_short(e),
{
    if e == '"' {
        Some('"')
    } else if e == '\\' {
        Some('\\')
    } else if e == '/' {
        Some('/')
    } else if e == 'b' {
        Some('\u{8}')
    } else if e == 'f' {
        Some('\u{c}')
    } else if e == 'n' {
        Some('\n')
    } else if e == 'r' {
        Some('\r')
    } else if e == 't' {
        Some('\t')
    } else {
        None
    }
}

/// Scans a string literal's contents, starting just after the opening quote.
pub fn scan_string_exec(s: &Vec<char>, i: usize) -> (r: Option<(Vec<char>, usize)>)
    requires
        i <= s@.len(),
    ensures
        r matches Some((t, j)) ==> scan_string(s@, i as int) == Some((t@, j as int)) && i < j
            <= s@.len(),
        r is None ==> scan_string(s@, i as int) is None,
{
    let n = s.len();
    let mut acc: Vec<char> = Vec::new();
    let mut cur = i;
    loop
        invariant
            i <= cur <= n,
            n == s@.len(),
            scan_string(s@, i as int) == prepend_scan(acc@, scan_string(s@, cur as int)),
        decreases n - cur,
    {
        if cur >= n {
            return None;
        }
        let c = s[cur];
        if c == '"' {
            proof {
                assert(scan_string(s@, cur as int) == Some((Seq::<char>::empty(), cur + 1 as int)));
                assert(acc@ + Seq::<char>::empty() =~= acc@);
            }
            return Some((acc, cur + 1));
        } else if c == '\\' {
            if cur + 1 >= n {
                return None;
            }
            let e = s[cur + 1];
            if e == 'u' {
                let u = match hex4_exec(s, cur + 2) {
                    Some(u) => u,
                    None => {
                        return None;
                    },
                };
                if 0xD800 <= u && u < 0xDC00 {
                    if !(n - cur >= 8 && s[cur + 6] == '\\' && s[cur + 7] == 'u') {
                        return None;
                    }
                    let u2 = match hex4_exec(s, cur + 8) {
                        Some(u2) => u2,
                        None => {
                            return None;
                        },
                    };
                    if !(0xDC00 <= u2 && u2 < 0xE000) {
                        return None;
                    }
                    let code: u32 = 0x10000 + (u - 0xD800) * 0x400 + (u2 - 0xDC00);
                    let ch = match crate::strutil::char_from_u32(code) {
                        Some(ch) => ch,
                        None => {
                            proof {
                                assert(false);
                            }
                            return None;
                        },
                    };
                    proof {
                        assert(ch == (code as int) as char);
                        assert(acc@.push(ch) =~= acc@ + seq![ch]);
                    }
                    let ghost acc0 = acc@;
                    acc.push(ch);
                    cur = cur + 12;
                    proof {
                        lemma_prepend_assoc(acc0, ch, scan_string(s@, cur as int));
                    }
                } else if 0xDC00 <= u && u < 0xE000 {
                    return None;
                } else {
                    let ch = match crate::strutil::char_from_u32(u) {
                        Some(ch) => ch,
                        None => {
                            proof {
                                assert(false);
                            }
                            return None;
                        },
                    };
                    proof {
                        assert(ch == (u as int) as char);
                    }
                    let ghost acc0 = acc@;
                    acc.push(ch);
                    cur = cur + 6;
                    proof {
                        lemma_prepend_assoc(acc0, ch, scan_string(s@, cur as int));
                    }
                }
            } else {
                let ch = match escape_short_exec(e) {
                    Some(ch) => ch,
                    None => {
                        return None;
                    },
                };
                let ghost acc0 = acc@;
                acc.push(ch);
                cur = cur + 2;
                proof {
                    lemma_prepend_assoc(acc0, ch, scan_string(s@, cur as int));
                }
            }
        } else if c <= '\u{1f}' {
            proof {
                assert((c as int) < 32);
            }
            return None;
        } else {
            proof {
                assert(!((c as int) < 32));
            }
            let ghost acc0 = acc@;
            acc.push(c);
            cur = cur + 1;
            proof {
                lemma_prepend_assoc(acc0, c, scan_string(s@, cur as int));
            }
        }
    }
}

/// Parses one value starting exactly at `i`.
pub fn parse_value_exec(s: &Vec<char>, i: usize) -> (r: Option<(JsonValue, usize)>)
    requires
        i <= s@.len(),
    ensures
        r matches Some((v, j)) ==> parse_value(s@, i as int) == Some((v@, j as int)) && i < j
            <= s@.len(),
        r is None ==> parse_value(s@, i as int) is None,
    decreases s@.len() - i, 0int,
{
    let n = s.len();
    if i >= n {
        return None;
    }
    let c = s[i];
    if c == 'n' {
        if n - i >= 4 && s[i + 1] == 'u' && s[i + 2] == 'l' && s[i + 3] == 'l' {
            Some((JsonValue::Null, i + 4))
        } else {
            None
        }
    } else if c == 't' {
        if n - i >= 4 && s[i + 1] == 'r' && s[i + 2] == 'u' && s[i + 3] == 'e' {
            Some((JsonValue::Bool(true), i + 4))
        } else {
            None
        }
    } else if c == 'f' {
        if n - i >= 5 && s[i + 1] == 'a' && s[i + 2] == 'l' && s[i + 3] == 's' && s[i + 4] == 'e' {
            Some((JsonValue::Bool(false), i + 5))
        } else {
            None
        }
    } else if c == '"' {
        match scan_string_exec(s, i + 1) {
            None => None,
            Some((t, j)) => Some((JsonValue::Str(t), j)),
        }
    } else if c == '-' || ('0' <= c && c <= '9') {
        match crate::json::scan_number_exec(s, i) {
            None => None,
            Some(j) => {
                let mut lit: Vec<char> = Vec::new();
                let mut k = i;
                while k < j
                    invariant
                        i <= k <= j <= n,
                        n == s@.len(),
                        lit@ =~= s@.subrange(i as int, k as int),
                    decreases j - k,
                {
                    lit.push(s[k]);
                    proof {
                        assert(lit@ =~= s@.subrange(i as int, k + 1 as int));
                    }
                    k += 1;
                }
                proof {
                    lemma_scan_number_bounds(s@, i as int);
                }
                Some((JsonValue::Num(lit), j))
            },
        }
    } else if c == '[' {
        match parse_elements_exec(s, i + 1, true) {
            None => None,
            Some((items, j)) => Some((JsonValue::Arr(items), j)),
        }
    } else if c == '{' {
        match parse_members_exec(s, i + 1, true) {
            None => None,
            Some((obj, j)) => Some((obj, j)),
        }
    } else {
        None
    }
}

/// Continuing an element parse: what the results from position `i` look like
/// once the elements already read are put in front.
pub open spec fn prepend_elems(p: Seq<JsonVal>, r: Option<(Seq<JsonVal>, int)>) -> Option<
    (Seq<JsonVal>, int),
> {
    match r {
        None => None,
        Some((items, e)) => Some((p + items, e)),
    }
}

/// Parses array elements starting just after `[` or a comma.
pub fn parse_elements_exec(s: &Vec<char>, i: usize, first: bool) -> (r: Option<
    (Vec<JsonValue>, usize),
>)
    requires
        i <= s@.len(),
    ensures
        r matches Some((items, j)) ==> parse_elements(s@, i as int, first) == Some(
            (crate::json::arr_vals(items@), j as int),
        ) && i < j <= s@.len(),
        r is None ==> parse_elements(s@, i as int, first) is None,
    decreases s@.len() - i, 1int,
{
    let n = s.len();
    let mut acc: Vec<JsonValue> = Vec::new();
    let mut cur = i;
    let mut fst = first;
    proof {
        assert(acc@ =~= Seq::<JsonValue>::empty());
        let pr = parse_elements(s@, i as int, first);
        if pr is Some {
            assert(Seq::<JsonVal>::empty() + pr->Some_0.0 =~= pr->Some_0.0);
        }
    }
    loop
        invariant
            i <= cur <= n,
            n == s@.len(),
            parse_elements(s@, i as int, first) == prepend_elems(
                crate::json::arr_vals(acc@),
                parse_elements(s@, cur as int, fst),
            ),
        decreases n - cur,
    {
        let ghost acc0 = acc@;
        let j = skip_ws_exec(s, cur);
        if j >= n {
            return None;
        }
        if s[j] == ']' && fst {
            proof {
                assert(crate::json::arr_vals(acc@) + Seq::<JsonVal>::empty() =~= crate::json::arr_vals(
                    acc@,
                ));
            }
            return Some((acc, j + 1));
        }
        let (v, k) = match parse_value_exec(s, j) {
            None => {
                return None;
            },
            Some(vk) => vk,
        };
        let m = skip_ws_exec(s, k);
        if m >= n {
            return None;
        }
        if s[m] == ']' {
            proof {
                crate::json::lemma_arr_vals(acc@.push(v));
                crate::json::lemma_arr_vals(acc@);
                assert(crate::json::arr_vals(acc@.push(v)) =~= crate::json::arr_vals(acc@) + seq![
                    v@,
                ]);
            }
            acc.push(v);
            return Some((acc, m + 1));
        } else if s[m] == ',' {
            proof {
                crate::json::lemma_arr_vals(acc@.push(v));
                crate::json::lemma_arr_vals(acc@);
                assert(crate::json::arr_vals(acc@.push(v)) =~= crate::json::arr_vals(acc@) + seq![
                    v@,
                ]);
                assert(forall|items: Seq<JsonVal>|
                    ((crate::json::arr_vals(acc0) + seq![v@]) + items) =~= (crate::json::arr_vals(
                        acc0,
                    ) + (seq![v@] + items)));
            }
            acc.push(v);
            cur = m + 1;
            fst = false;
        } else {
            return None;
        }
    }
}

/// Continuing a member parse: what the results from position `i` look like
/// once the members already read are folded in front.
pub open spec fn fold_members(
    acc: Seq<(Seq<char>, JsonVal)>,
    r: Option<(Seq<(Seq<char>, JsonVal)>, int)>,
) -> Option<(Seq<(Seq<char>, JsonVal)>, int)> {
    match r {
        None => None,
        Some((pairs, e)) => Some((obj_from_pairs(acc, pairs), e)),
    }
}

/// Parses object members starting just after `{` or a comma, folding them
/// into an object as they come: a repeated key keeps its first position and
/// takes the later value.
pub fn parse_members_exec(s: &Vec<char>, i: usize, first: bool) -> (r: Option<(JsonValue, usize)>)
    requires
        i <= s@.len(),
    ensures
        r matches Some((obj, j)) ==> (match parse_members(s@, i as int, first) {
            Some((pairs, e)) => obj@ == JsonVal::Obj(obj_from_pairs(Seq::empty(), pairs)) && e == j
                as int && i < j <= s@.len(),
            None => false,
        }),
        r is None ==> parse_members(s@, i as int, first) is None,
    decreases s@.len() - i, 1int,
{
    let n = s.len();
    let mut obj = JsonValue::empty_object();
    let mut cur = i;
    let mut fst = first;
    loop
        invariant
            i <= cur <= n,
            n == s@.len(),
            obj@ is Obj,
            fold_members(Seq::empty(), parse_members(s@, i as int, first)) == fold_members(
                obj@->Obj_0,
                parse_members(s@, cur as int, fst),
            ),
        decreases n - cur,
    {
        let j = skip_ws_exec(s, cur);
        if j >= n {
            return None;
        }
        if s[j] == '}' && fst {
            return Some((obj, j + 1));
        }
        if s[j] != '"' {
            return None;
        }
        let (key, k) = match scan_string_exec(s, j + 1) {
            None => {
                return None;
            },
            Some(kk) => kk,
        };
        let m = skip_ws_exec(s, k);
        if m >= n || s[m] != ':' {
            return None;
        }
        let p = skip_ws_exec(s, m + 1);
        let (v, q) = match parse_value_exec(s, p) {
            None => {
                return None;
            },
            Some(vq) => vq,
        };
        let r2 = skip_ws_exec(s, q);
        if r2 >= n {
            return None;
        }
        if s[r2] == '}' {
            let ghost kv = key@;
            let ghost vv = v@;
            let ghost ov = obj@->Obj_0;
            let ghost pairs_here = seq![(kv, vv)];
            proof {
                assert(pairs_here[0] == (kv, vv));
                assert(pairs_here.drop_first() =~= Seq::<(Seq<char>, JsonVal)>::empty());
                assert(obj_from_pairs(ov, pairs_here) == obj_from_pairs(
                    obj_set(ov, kv, vv),
                    pairs_here.drop_first(),
                ));
                assert(obj_from_pairs(ov, pairs_here) == obj_set(ov, kv, vv));
                assert(parse_members(s@, cur as int, fst) == Some((pairs_here, r2 + 1 as int)));
            }
            let obj2 = obj.with_key_set(key, v);
            proof {
                assert(obj2@->Obj_0 == obj_from_pairs(ov, pairs_here));
            }
            return Some((obj2, r2 + 1));
        } else if s[r2] == ',' {
            let ghost ov = obj@->Obj_0;
            let ghost kv = key@;
            let ghost vv = v@;
            obj = obj.with_key_set(key, v);
            proof {
                assert(forall|pairs: Seq<(Seq<char>, JsonVal)>|
                    (seq![(kv, vv)] + pairs).drop_first() =~= pairs);
                assert(forall|pairs: Seq<(Seq<char>, JsonVal)>|
                    #[trigger] obj_from_pairs(ov, seq![(kv, vv)] + pairs) == obj_from_pairs(
                        obj_set(ov, kv, vv),
                        pairs,
                    )) by {
                    assert forall|pairs: Seq<(Seq<char>, JsonVal)>|
                        #[trigger] obj_from_pairs(ov, seq![(kv, vv)] + pairs) == obj_from_pairs(
                            obj_set(ov, kv, vv),
                            pairs,
                        ) by {
                        let whole = seq![(kv, vv)] + pairs;
                        assert(whole[0] == (kv, vv));
                        assert(whole.drop_first() =~= pairs);
                    }
                }
            }
            cur = r2 + 1;
            fst = false;
        } else {
            return None;
        }
    }
}

/// Parses a whole document.
pub fn parse_json(s: &Vec<char>) -> (r: Option<JsonValue>)
    ensures
        r matches Some(v) ==> spec_parse_json(s@) == Some(v@),
        r is None ==> spec_parse_json(s@) is None,
{
    let i = skip_ws_exec(s, 0);
    match parse_value_exec(s, i) {
        None => None,
        Some((v, j)) => {
            let k = skip_ws_exec(s, j);
            if k == s.len() {
                Some(v)
            } else {
                None
            }
        },
    }
}

} // verus!
