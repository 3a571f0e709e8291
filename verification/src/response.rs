use vstd::prelude::*;

use crate::error::XdiffError;
use crate::json::{obj_remove, JsonVal, JsonValue};
use crate::json_parse::spec_parse_json;
use crate::json_text::encode_pretty;
use crate::request::{content_type_of, pairs_view, lemma_pairs_view, find_pair};
use crate::strutil::{
    chars_ieq, chars_to_string, push_all, push_str_chars, spec_decimal, spec_lower, str_to_chars,
    usize_to_chars,
};

verus! {

broadcast use vstd::std_specs::vec::group_vec_axioms;

/// The response filter: names of headers and of top-level body keys left out
/// of the normalized text.
#[derive(Debug, Clone, PartialEq, Eq, Default)]
pub struct ResponseProfile {
    pub skip_headers: Vec<String>,
    pub skip_body: Vec<String>,
}

impl ResponseProfile {
    pub fn new(skip_headers: Vec<String>, skip_body: Vec<String>) -> (r: ResponseProfile)
        ensures
            r.skip_headers == skip_headers,
            r.skip_body == skip_body,
    {
        ResponseProfile { skip_headers, skip_body }
    }
}

/// One received HTTP response, as plain data: protocol version text, status
/// code, canonical reason phrase (empty when the status has none), headers in
/// arrival order, and the body text.
pub struct RawResponse {
    pub version: String,
    pub status: u16,
    pub reason: String,
    pub headers: Vec<(String, String)>,
    pub body: String,
}

/// The views of a list of strings.
pub open spec fn strs_view(v: Seq<String>) -> Seq<Seq<char>>
    decreases v.len(),
{
    if v.len() == 0 {
        Seq::empty()
    } else {
        strs_view(v.drop_last()).push(v.last()@)
    }
}

pub proof fn lemma_strs_view(v: Seq<String>)
    ensures
        strs_view(v).len() == v.len(),
        forall|i: int| 0 <= i < v.len() ==> strs_view(v)[i] == v[i]@,
    decreases v.len(),
{
    if v.len() > 0 {
        lemma_strs_view(v.drop_last());
        assert forall|i: int| 0 <= i < v.len() implies strs_view(v)[i] == v[i]@ by {
            if i < v.len() - 1 {
                assert(v.drop_last()[i] == v[i]);
            }
        }
    }
}

/// Whether a name is in the skip list, up to ASCII case.
pub open spec fn in_skip(skips: Seq<Seq<char>>, name: Seq<char>) -> bool {
    exists|i: int| 0 <= i < skips.len() && spec_lower(#[trigger] skips[i]) == spec_lower(name)
}

/// The status line: protocol version, status code, reason phrase.
pub open spec fn spec_status_text(r: RawResponse) -> Seq<char> {
    r.version@ + seq![' '] + spec_decimal(r.status as nat) + seq![' '] + r.reason@
}

/// The header block: one `name: value` line per header whose name is not
/// skipped, in arrival order, closed by one blank line.
pub open spec fn spec_headers_lines(
    hs: Seq<(Seq<char>, Seq<char>)>,
    skips: Seq<Seq<char>>,
) -> Seq<char>
    decreases hs.len(),
{
    if hs.len() == 0 {
        Seq::empty()
    } else if in_skip(skips, hs.last().0) {
        spec_headers_lines(hs.drop_last(), skips)
    } else {
        spec_headers_lines(hs.drop_last(), skips) + hs.last().0 + seq![':', ' '] + hs.last().1
            + seq!['\n']
    }
}

pub open spec fn spec_headers_text(hs: Seq<(Seq<char>, Seq<char>)>, skips: Seq<Seq<char>>) -> Seq<
    char,
> {
    spec_headers_lines(hs, skips) + seq!['\n']
}

/// Removing each skipped key from an object's top level, in order.
pub open spec fn remove_keys(
    entries: Seq<(Seq<char>, JsonVal)>,
    skips: Seq<Seq<char>>,
) -> Seq<(Seq<char>, JsonVal)>
    decreases skips.len(),
{
    if skips.len() == 0 {
        entries
    } else {
        remove_keys(obj_remove(entries, skips[0]), skips.drop_first())
    }
}

/// The law of body filtering: the filtered object holds exactly the keys
/// that were present and are not in the skip list, so every skipped key is
/// gone and nothing else is.
pub proof fn lemma_remove_keys_spec(
    entries: Seq<(Seq<char>, JsonVal)>,
    skips: Seq<Seq<char>>,
    k: Seq<char>,
)
    ensures
        crate::json::obj_has_key(remove_keys(entries, skips), k) == (crate::json::obj_has_key(
            entries,
            k,
        ) && !skips.contains(k)),
    decreases skips.len(),
{
    if skips.len() == 0 {
        assert(!skips.contains(k));
    } else {
        crate::json::lemma_obj_remove_keys(entries, skips[0], k);
        lemma_remove_keys_spec(crate::json::obj_remove(entries, skips[0]), skips.drop_first(), k);
        assert(skips.contains(k) == (skips[0] == k || skips.drop_first().contains(k))) by {
            if skips.drop_first().contains(k) {
                let i = choose|i: int|
                    0 <= i < skips.drop_first().len() && skips.drop_first()[i] == k;
                assert(skips[i + 1] == k);
            }
            if skips.contains(k) && skips[0] != k {
                let i = choose|i: int| 0 <= i < skips.len() && skips[i] == k;
                assert(i > 0);
                assert(skips.drop_first()[i - 1] == k);
            }
        }
    }
}

/// The body filter: an object document loses its skipped top-level keys, any
/// other document passes through untouched.
pub open spec fn filter_doc(v: JsonVal, skips: Seq<Seq<char>>) -> JsonVal {
    match v {
        JsonVal::Obj(entries) => JsonVal::Obj(remove_keys(entries, skips)),
        _ => v,
    }
}

/// What filtering a JSON body text yields: the text parsed as JSON, filtered,
/// and pretty-printed; or nothing when the text is not JSON.
pub open spec fn spec_filter_json(s: Seq<char>, skips: Seq<Seq<char>>) -> Option<Seq<char>> {
    match spec_parse_json(s) {
        None => None,
        Some(v) => Some(encode_pretty(filter_doc(v, skips), Seq::empty())),
    }
}

/// The body part of the normalized text: a JSON body is filtered and
/// pretty-printed (and fails to normalize when it does not parse), any other
/// body passes through verbatim; either way one newline closes it.
pub open spec fn spec_body_text(
    ct: Option<Seq<char>>,
    body: Seq<char>,
    skips: Seq<Seq<char>>,
) -> Option<Seq<char>> {
    if ct == Some("application/json"@) {
        match spec_filter_json(body, skips) {
            None => None,
            Some(t) => Some(t + seq!['\n']),
        }
    } else {
        Some(body + seq!['\n'])
    }
}

/// The whole canonical text of a response under a filter: status line,
/// filtered headers, blank separator, filtered body.
pub open spec fn spec_normalize(r: RawResponse, p: ResponseProfile) -> Option<Seq<char>> {
    match spec_body_text(
        content_type_of(pairs_view(r.headers@)),
        r.body@,
        strs_view(p.skip_body@),
    ) {
        None => None,
        Some(b) => Some(
            spec_status_text(r) + seq!['\n'] + spec_headers_text(
                pairs_view(r.headers@),
                strs_view(p.skip_headers@),
            ) + b,
        ),
    }
}

/// Whether the name is in the skip list, up to ASCII case.
fn in_skip_exec(skips: &Vec<String>, name: &Vec<char>) -> (r: bool)
    ensures
        r == in_skip(strs_view(skips@), name@),
{
    let ghost sv = strs_view(skips@);
    proof {
        lemma_strs_view(skips@);
    }
    let n = skips.len();
    let mut i: usize = 0;
    while i < n
        invariant
            i <= n,
            n == skips@.len(),
            sv == strs_view(skips@),
            sv.len() == n,
            forall|j: int| 0 <= j < n ==> sv[j] == skips@[j]@,
            forall|j: int| 0 <= j < i ==> spec_lower(#[trigger] sv[j]) != spec_lower(name@),
        decreases n - i,
    {
        let s = str_to_chars(skips[i].as_str());
        if chars_ieq(&s, name) {
            proof {
                assert(spec_lower(sv[i as int]) == spec_lower(name@));
            }
            return true;
        }
        i += 1;
    }
    proof {
        if in_skip(sv, name@) {
            let j = choose|j: int|
                0 <= j < sv.len() && spec_lower(#[trigger] sv[j]) == spec_lower(name@);
        }
    }
    false
}

impl RawResponse {
    /// The status line of the normalized text.
    pub fn get_status_text(&self) -> (r: String)
        ensures
            r@ == spec_status_text(*self),
    {
        let mut out = str_to_chars(self.version.as_str());
        out.push(' ');
        let d = usize_to_chars(self.status as usize);
        push_all(&mut out, &d);
        out.push(' ');
        push_str_chars(&mut out, self.reason.as_str());
        proof {
            assert(out@ =~= spec_status_text(*self));
        }
        chars_to_string(&out)
    }

    /// The filtered header block of the normalized text.
    pub fn get_heardes_text(&self, skip_headers: &Vec<String>) -> (r: String)
        ensures
            r@ == spec_headers_text(pairs_view(self.headers@), strs_view(skip_headers@)),
    {
        let ghost hv = pairs_view(self.headers@);
        let ghost sv = strs_view(skip_headers@);
        proof {
            lemma_pairs_view(self.headers@);
        }
        let mut out: Vec<char> = Vec::new();
        let n = self.headers.len();
        let mut i: usize = 0;
        while i < n
            invariant
                i <= n,
                n == self.headers@.len(),
                hv == pairs_view(self.headers@),
                sv == strs_view(skip_headers@),
                hv.len() == n,
                forall|j: int|
                    0 <= j < n ==> (#[trigger] hv[j]) == (
                        self.headers@[j].0@,
                        self.headers@[j].1@,
                    ),
                out@ == spec_headers_lines(hv.take(i as int), sv),
            decreases n - i,
        {
            let name = str_to_chars(self.headers[i].0.as_str());
            proof {
                assert(hv.take(i + 1 as int).drop_last() =~= hv.take(i as int));
                assert(hv.take(i + 1 as int).last() == hv[i as int]);
            }
            if !in_skip_exec(skip_headers, &name) {
                push_all(&mut out, &name);
                out.push(':');
                out.push(' ');
                push_str_chars(&mut out, self.headers[i].1.as_str());
                out.push('\n');
                proof {
                    assert(out@ =~= spec_headers_lines(hv.take(i + 1 as int), sv));
                }
            } else {
                proof {
                    assert(out@ =~= spec_headers_lines(hv.take(i + 1 as int), sv));
                }
            }
            i += 1;
        }
        proof {
            assert(hv.take(n as int) =~= hv);
        }
        out.push('\n');
        proof {
            assert(out@ =~= spec_headers_text(hv, sv));
        }
        chars_to_string(&out)
    }

    /// The names of the response's headers, in arrival order.
    pub fn get_headers_keys(&self) -> (r: Vec<String>)
        ensures
            r@.len() == self.headers@.len(),
            forall|i: int| 0 <= i < r@.len() ==> (#[trigger] r@[i])@ == self.headers@[i].0@,
    {
        let n = self.headers.len();
        let mut r: Vec<String> = Vec::new();
        let mut i: usize = 0;
        while i < n
            invariant
                i <= n,
                n == self.headers@.len(),
                r@.len() == i,
                forall|j: int| 0 <= j < i ==> (#[trigger] r@[j])@ == self.headers@[j].0@,
            decreases n - i,
        {
            let name = self.headers[i].0.clone();
            r.push(name);
            i += 1;
        }
        r
    }

    /// The media type of the response, read from its `Content-Type` header
    /// up to any parameters.
    pub fn get_content_type(&self) -> (r: Option<String>)
        ensures
            r matches Some(s) ==> content_type_of(pairs_view(self.headers@)) == Some(s@),
            r is None ==> content_type_of(pairs_view(self.headers@)) is None,
    {
        let ct_key = str_to_chars("content-type");
        let idx = match find_pair(&self.headers, &ct_key) {
            Some(i) => i,
            None => {
                proof {
                    crate::request::lemma_header_idx_correct(pairs_view(self.headers@), ct_key@);
                }
                return None;
            },
        };
        proof {
            crate::request::lemma_header_idx_correct(pairs_view(self.headers@), ct_key@);
            lemma_pairs_view(self.headers@);
        }
        let raw = str_to_chars(self.headers[idx].1.as_str());
        let m = raw.len();
        let mut j: usize = 0;
        while j < m && raw[j] != ';'
            invariant
                j <= m,
                m == raw@.len(),
                crate::request::semi_from(raw@, 0) == crate::request::semi_from(raw@, j as int),
            decreases m - j,
        {
            j += 1;
        }
        let mut ct: Vec<char> = Vec::new();
        let mut p: usize = 0;
        while p < j
            invariant
                p <= j <= m,
                m == raw@.len(),
                ct@ =~= raw@.subrange(0, p as int),
            decreases j - p,
        {
            ct.push(raw[p]);
            proof {
                assert(ct@ =~= raw@.subrange(0, p + 1 as int));
            }
            p += 1;
        }
        proof {
            assert(pairs_view(self.headers@)[idx as int].1 == self.headers@[idx as int].1@);
            assert(ct@ =~= raw@.take(crate::request::semi_from(raw@, 0)));
        }
        Some(chars_to_string(&ct))
    }
}

/// Filters a JSON body text: parses it, removes the skipped top-level keys
/// when the root is an object, and pretty-prints the rest. A text that is
/// not JSON cannot be decoded.
pub fn filter_json(text: &str, skip: &Vec<String>) -> (r: Result<String, XdiffError>)
    ensures
        (r is Ok) == (spec_parse_json(text@) is Some),
        r matches Ok(t) ==> spec_filter_json(text@, strs_view(skip@)) == Some(t@),
        r matches Err(e) ==> e is BodyDecodeError,
{
    let chars = str_to_chars(text);
    let parsed = match crate::json_parse::parse_json(&chars) {
        Some(v) => v,
        None => {
            return Err(XdiffError::BodyDecodeError);
        },
    };
    let ghost sv = strs_view(skip@);
    proof {
        lemma_strs_view(skip@);
        assert(sv.skip(0) =~= sv);
    }
    let filtered = if parsed.is_object() {
        let mut doc = parsed;
        let n = skip.len();
        let mut i: usize = 0;
        while i < n
            invariant
                i <= n,
                n == skip@.len(),
                sv == strs_view(skip@),
                sv.len() == n,
                forall|j: int| 0 <= j < n ==> sv[j] == skip@[j]@,
                doc@ is Obj,
                JsonVal::Obj(remove_keys(doc@->Obj_0, sv.skip(i as int))) == JsonVal::Obj(
                    remove_keys(spec_parse_json(text@)->Some_0->Obj_0, sv),
                ),
            decreases n - i,
        {
            let k = str_to_chars(skip[i].as_str());
            proof {
                assert(sv.skip(i as int)[0] == sv[i as int]);
                assert(sv.skip(i as int).drop_first() =~= sv.skip(i + 1 as int));
            }
            doc = doc.with_key_removed(&k);
            i += 1;
        }
        proof {
            assert(sv.skip(n as int) =~= Seq::<Seq<char>>::empty());
        }
        doc
    } else {
        parsed
    };
    let pretty = crate::json_text::to_json_chars_pretty(&filtered);
    Ok(chars_to_string(&pretty))
}

/// The body part of the normalized text: JSON bodies are filtered and
/// pretty-printed, anything else passes through verbatim; one newline closes
/// the block either way.
pub fn get_body_text(res: &RawResponse, skip_body: &Vec<String>) -> (r: Result<String, XdiffError>)
    ensures
        (r is Ok) == (spec_body_text(
            content_type_of(pairs_view(res.headers@)),
            res.body@,
            strs_view(skip_body@),
        ) is Some),
        r matches Ok(t) ==> spec_body_text(
            content_type_of(pairs_view(res.headers@)),
            res.body@,
            strs_view(skip_body@),
        ) == Some(t@),
        r matches Err(e) ==> e is BodyDecodeError,
{
    let ct = res.get_content_type();
    let is_json = match &ct {
        Some(c) => {
            let cc = str_to_chars(c.as_str());
            let lit = str_to_chars("application/json");
            crate::strutil::chars_equal(&cc, &lit)
        },
        None => false,
    };
    if is_json {
        let body_copy: String = res.body.clone();
        let filtered = filter_json(body_copy.as_str(), skip_body)?;
        let mut out = str_to_chars(filtered.as_str());
        out.push('\n');
        proof {
            assert(out@ =~= spec_filter_json(res.body@, strs_view(skip_body@))->Some_0 + seq![
                '\n',
            ]);
        }
        Ok(chars_to_string(&out))
    } else {
        let mut out = str_to_chars(res.body.as_str());
        out.push('\n');
        proof {
            assert(out@ =~= res.body@ + seq!['\n']);
        }
        Ok(chars_to_string(&out))
    }
}

impl RawResponse {
    /// The canonical comparable text of this response under a filter: the
    /// status line, the filtered headers closed by a blank line, and the
    /// filtered body. A response declared as JSON whose body does not parse
    /// cannot be normalized.
    pub fn get_text(&self, profile: &ResponseProfile) -> (r: Result<String, XdiffError>)
        ensures
            (r is Ok) == (spec_normalize(*self, *profile) is Some),
            r matches Ok(t) ==> spec_normalize(*self, *profile) == Some(t@),
            r matches Err(e) ==> e is BodyDecodeError,
    {
        let status = self.get_status_text();
        let headers = self.get_heardes_text(&profile.skip_headers);
        let body = get_body_text(self, &profile.skip_body)?;
        let mut out = str_to_chars(status.as_str());
        out.push('\n');
        push_str_chars(&mut out, headers.as_str());
        push_str_chars(&mut out, body.as_str());
        proof {
            assert(out@ =~= spec_normalize(*self, *profile)->Some_0);
        }
        Ok(chars_to_string(&out))
    }
}

} // verus!
