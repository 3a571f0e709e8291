use vstd::prelude::*;

use crate::error::XdiffError;
use crate::strutil::chars_to_string;
use crate::ExtraArgs;

verus! {

/// Which part of the request an override directive aims at.
#[derive(Debug, Clone, PartialEq, Eq, Structural)]
pub enum KeyValType {
    Query,
    Header,
    Body,
}

/// One parsed override directive.
#[derive(Debug, Clone, PartialEq, Eq)]
pub struct KeyVal {
    pub key_type: KeyValType,
    pub key: String,
    pub value: String,
}

/// The command line as data: one action to run.
pub struct Args {
    pub action: Action,
}

/// What the tool is asked to do: run a named profile, or interactively build
/// one from URLs.
#[non_exhaustive]
pub enum Action {
    Run(RunArgs),
    Parse,
}

/// The arguments of a run: the profile name, the override directives, and an
/// optional config path.
pub struct RunArgs {
    pub profile: String,
    pub extar_params: Vec<KeyVal>,
    pub config: Option<String>,
}

/// Whitespace for directive trimming.
pub open spec fn is_space(c: char) -> bool {
    c == ' ' || c == '\t' || c == '\n' || c == '\r'
}

/// The first position at or after `i` that holds no whitespace.
pub open spec fn ltrim_from(s: Seq<char>, i: int) -> int
    decreases s.len() - i,
{
    if 0 <= i < s.len() && is_space(s[i]) {
        ltrim_from(s, i + 1)
    } else {
        i
    }
}

/// The position just after the last non-whitespace character before `j`.
pub open spec fn rtrim_to(s: Seq<char>, j: int) -> int
    decreases j,
{
    if 0 < j <= s.len() && is_space(s[j - 1]) {
        rtrim_to(s, j - 1)
    } else {
        j
    }
}

/// The string with surrounding whitespace removed.
pub open spec fn spec_trim(s: Seq<char>) -> Seq<char> {
    let l = ltrim_from(s, 0);
    let r = rtrim_to(s, s.len() as int);
    if r <= l {
        Seq::empty()
    } else {
        s.subrange(l, r)
    }
}

/// The first position at or after `i` holding `=`, or the length.
pub open spec fn eq_from(s: Seq<char>, i: int) -> int
    decreases s.len() - i,
{
    if 0 <= i < s.len() && s[i] != '=' {
        eq_from(s, i + 1)
    } else {
        i
    }
}

pub open spec fn is_ascii_alpha(c: char) -> bool {
    ('a' <= c && c <= 'z') || ('A' <= c && c <= 'Z')
}

/// The key text of a directive: what stands before the first `=`, trimmed.
pub open spec fn spec_directive_key(s: Seq<char>) -> Seq<char> {
    spec_trim(s.take(eq_from(s, 0)))
}

/// The value text of a directive: what stands after the first `=`, trimmed.
pub open spec fn spec_directive_value(s: Seq<char>) -> Seq<char> {
    spec_trim(s.skip(eq_from(s, 0) + 1))
}

/// Whether a directive is well formed: it has an `=`, a nonempty key, and a
/// recognized leading key character.
pub open spec fn directive_ok(s: Seq<char>) -> bool {
    let k = spec_directive_key(s);
    &&& eq_from(s, 0) < s.len()
    &&& k.len() > 0
    &&& (k[0] == '%' || k[0] == '@' || is_ascii_alpha(k[0]))
}

/// The part of the request a well-formed directive aims at, read off its
/// sigil: `%` marks a header, `@` a body field, a plain letter a query
/// parameter.
pub open spec fn spec_directive_type(s: Seq<char>) -> KeyValType {
    let k = spec_directive_key(s);
    if k[0] == '%' {
        KeyValType::Header
    } else if k[0] == '@' {
        KeyValType::Body
    } else {
        KeyValType::Query
    }
}

/// The key a well-formed directive carries: the sigil, if any, is dropped.
pub open spec fn spec_directive_name(s: Seq<char>) -> Seq<char> {
    let k = spec_directive_key(s);
    if k[0] == '%' || k[0] == '@' {
        k.skip(1)
    } else {
        k
    }
}

fn trim_chars(s: &Vec<char>) -> (r: Vec<char>)
    ensures
        r@ == spec_trim(s@),
{
    let n = s.len();
    let mut l: usize = 0;
    while l < n && (s[l] == ' ' || s[l] == '\t' || s[l] == '\n' || s[l] == '\r')
        invariant
            l <= n,
            n == s@.len(),
            ltrim_from(s@, 0) == ltrim_from(s@, l as int),
        decreases n - l,
    {
        l += 1;
    }
    let mut r: usize = n;
    while r > 0 && (s[r - 1] == ' ' || s[r - 1] == '\t' || s[r - 1] == '\n' || s[r - 1] == '\r')
        invariant
            r <= n,
            n == s@.len(),
            rtrim_to(s@, n as int) == rtrim_to(s@, r as int),
        decreases r,
    {
        r -= 1;
    }
    let mut out: Vec<char> = Vec::new();
    if r <= l {
        proof {
            assert(out@ =~= spec_trim(s@));
        }
        return out;
    }
    let mut i = l;
    while i < r
        invariant
            l <= i <= r <= n,
            n == s@.len(),
            out@ =~= s@.subrange(l as int, i as int),
        decreases r - i,
    {
        out.push(s[i]);
        proof {
            assert(out@ =~= s@.subrange(l as int, i + 1 as int));
        }
        i += 1;
    }
    proof {
        assert(out@ =~= spec_trim(s@));
    }
    out
}

/// Parses one override directive `key=value`: the leading character of the
/// trimmed key picks the part of the request it aims at (`%` a header, `@` a
/// body field, a letter a query parameter); anything else, or a missing `=`
/// or empty key, is an invalid override key.
pub fn parse_key_val(s: &str) -> (r: Result<KeyVal, XdiffError>)
    ensures
        (r is Ok) == directive_ok(s@),
        r matches Ok(kv) ==> kv.key_type == spec_directive_type(s@) && kv.key@
            == spec_directive_name(s@) && kv.value@ == spec_directive_value(s@),
        r matches Err(e) ==> e is InvalidOverrideKey,
{
    let chars = crate::strutil::str_to_chars(s);
    let n = chars.len();
    let mut e: usize = 0;
    while e < n && chars[e] != '='
        invariant
            e <= n,
            n == chars@.len(),
            eq_from(chars@, 0) == eq_from(chars@, e as int),
        decreases n - e,
    {
        e += 1;
    }
    if e == n {
        return Err(XdiffError::InvalidOverrideKey(chars_to_string(&chars)));
    }
    let mut key_part: Vec<char> = Vec::new();
    let mut i: usize = 0;
    while i < e
        invariant
            i <= e <= n,
            n == chars@.len(),
            key_part@ =~= chars@.subrange(0, i as int),
        decreases e - i,
    {
        key_part.push(chars[i]);
        proof {
            assert(key_part@ =~= chars@.subrange(0, i + 1 as int));
        }
        i += 1;
    }
    let mut value_part: Vec<char> = Vec::new();
    let mut j: usize = e + 1;
    while j < n
        invariant
            e + 1 <= j <= n,
            n == chars@.len(),
            value_part@ =~= chars@.subrange(e + 1 as int, j as int),
        decreases n - j,
    {
        value_part.push(chars[j]);
        proof {
            assert(value_part@ =~= chars@.subrange(e + 1 as int, j + 1 as int));
        }
        j += 1;
    }
    proof {
        assert(key_part@ =~= chars@.take(eq_from(chars@, 0)));
        assert(value_part@ =~= chars@.skip(eq_from(chars@, 0) + 1));
    }
    let key = trim_chars(&key_part);
    let value = trim_chars(&value_part);
    if key.len() == 0 {
        return Err(XdiffError::InvalidOverrideKey(chars_to_string(&chars)));
    }
    let c0 = key[0];
    if c0 == '%' {
        let mut name: Vec<char> = Vec::new();
        let mut p: usize = 1;
        while p < key.len()
            invariant
                1 <= p <= key@.len(),
                name@ =~= key@.subrange(1, p as int),
            decreases key@.len() - p,
        {
            name.push(key[p]);
            proof {
                assert(name@ =~= key@.subrange(1, p + 1 as int));
            }
            p += 1;
        }
        proof {
            assert(name@ =~= spec_directive_key(s@).skip(1));
        }
        Ok(
            KeyVal {
                key_type: KeyValType::Header,
                key: chars_to_string(&name),
                value: chars_to_string(&value),
            },
        )
    } else if c0 == '@' {
        let mut name: Vec<char> = Vec::new();
        let mut p: usize = 1;
        while p < key.len()
            invariant
                1 <= p <= key@.len(),
                name@ =~= key@.subrange(1, p as int),
            decreases key@.len() - p,
        {
            name.push(key[p]);
            proof {
                assert(name@ =~= key@.subrange(1, p + 1 as int));
            }
            p += 1;
        }
        proof {
            assert(name@ =~= spec_directive_key(s@).skip(1));
        }
        Ok(
            KeyVal {
                key_type: KeyValType::Body,
                key: chars_to_string(&name),
                value: chars_to_string(&value),
            },
        )
    } else if ('a' <= c0 && c0 <= 'z') || ('A' <= c0 && c0 <= 'Z') {
        Ok(
            KeyVal {
                key_type: KeyValType::Query,
                key: chars_to_string(&key),
                value: chars_to_string(&value),
            },
        )
    } else {
        Err(XdiffError::InvalidOverrideKey(chars_to_string(&chars)))
    }
}

/// The headers among a directive list, in order.
pub open spec fn part_headers(kvs: Seq<KeyVal>) -> Seq<(Seq<char>, Seq<char>)>
    decreases kvs.len(),
{
    if kvs.len() == 0 {
        Seq::empty()
    } else if kvs.last().key_type == KeyValType::Header {
        part_headers(kvs.drop_last()).push((kvs.last().key@, kvs.last().value@))
    } else {
        part_headers(kvs.drop_last())
    }
}

/// The query parameters among a directive list, in order.
pub open spec fn part_query(kvs: Seq<KeyVal>) -> Seq<(Seq<char>, Seq<char>)>
    decreases kvs.len(),
{
    if kvs.len() == 0 {
        Seq::empty()
    } else if kvs.last().key_type == KeyValType::Query {
        part_query(kvs.drop_last()).push((kvs.last().key@, kvs.last().value@))
    } else {
        part_query(kvs.drop_last())
    }
}

/// The body fields among a directive list, in order.
pub open spec fn part_body(kvs: Seq<KeyVal>) -> Seq<(Seq<char>, Seq<char>)>
    decreases kvs.len(),
{
    if kvs.len() == 0 {
        Seq::empty()
    } else if kvs.last().key_type == KeyValType::Body {
        part_body(kvs.drop_last()).push((kvs.last().key@, kvs.last().value@))
    } else {
        part_body(kvs.drop_last())
    }
}

impl ExtraArgs {
    /// Splits parsed directives into the three override lists, keeping each
    /// list's order.
    pub fn from_key_vals(kvs: Vec<KeyVal>) -> (r: ExtraArgs)
        ensures
            crate::request::pairs_view(r.headers@) == part_headers(kvs@),
            crate::request::pairs_view(r.query@) == part_query(kvs@),
            crate::request::pairs_view(r.body@) == part_body(kvs@),
    {
        let mut headers: Vec<(String, String)> = Vec::new();
        let mut query: Vec<(String, String)> = Vec::new();
        let mut body: Vec<(String, String)> = Vec::new();
        let n = kvs.len();
        let mut i: usize = 0;
        while i < n
            invariant
                i <= n,
                n == kvs@.len(),
                crate::request::pairs_view(headers@) == part_headers(kvs@.take(i as int)),
                crate::request::pairs_view(query@) == part_query(kvs@.take(i as int)),
                crate::request::pairs_view(body@) == part_body(kvs@.take(i as int)),
            decreases n - i,
        {
            let k = kvs[i].key.clone();
            let v = kvs[i].value.clone();
            proof {
                assert(kvs@.take(i + 1 as int).drop_last() =~= kvs@.take(i as int));
                assert(kvs@.take(i + 1 as int).last() == kvs@[i as int]);
            }
            match kvs[i].key_type {
                KeyValType::Header => {
                    let ghost h0 = headers@;
                    headers.push((k, v));
                    proof {
                        assert(headers@.drop_last() =~= h0);
                    }
                },
                KeyValType::Query => {
                    let ghost q0 = query@;
                    query.push((k, v));
                    proof {
                        assert(query@.drop_last() =~= q0);
                    }
                },
                KeyValType::Body => {
                    let ghost b0 = body@;
                    body.push((k, v));
                    proof {
                        assert(body@.drop_last() =~= b0);
                    }
                },
            }
            i += 1;
        }
        proof {
            assert(kvs@.take(n as int) =~= kvs@);
        }
        ExtraArgs { headers, query, body }
    }
}

} // verus!
