use vstd::prelude::*;

use crate::strutil::str_to_chars;

verus! {

use vstd::pervasive::VecAdditionalExecFns;

broadcast use vstd::std_specs::vec::group_vec_axioms;

/// The mathematical model of a JSON document. Numbers keep their literal
/// spelling as written, so no numeric precision is lost and no floating-point
/// value is ever materialized; objects are ordered key/value sequences.
pub enum JsonVal {
    Null,
    Bool(bool),
    Num(Seq<char>),
    Str(Seq<char>),
    Arr(Seq<JsonVal>),
    Obj(Seq<(Seq<char>, JsonVal)>),
}

/// A JSON document. The executable twin of `JsonVal`: strings and number
/// literals are character vectors, arrays and objects are vectors. Object
/// entries keep their first-insertion order; a well-formed object has no
/// repeated key.
pub enum JsonValue {
    Null,
    Bool(bool),
    Num(Vec<char>),
    Str(Vec<char>),
    Arr(Vec<JsonValue>),
    Obj(Vec<(Vec<char>, JsonValue)>),
}

/// The model of a document: structural recursion over the value.
pub open spec fn json_view(v: JsonValue) -> JsonVal
    decreases v,
{
    match v {
        JsonValue::Null => JsonVal::Null,
        JsonValue::Bool(b) => JsonVal::Bool(b),
        JsonValue::Num(s) => JsonVal::Num(s@),
        JsonValue::Str(s) => JsonVal::Str(s@),
        JsonValue::Arr(items) => JsonVal::Arr(arr_vals(items@)),
        JsonValue::Obj(entries) => JsonVal::Obj(entries_vals(entries@)),
    }
}

/// The models of an array's elements, in order.
pub open spec fn arr_vals(items: Seq<JsonValue>) -> Seq<JsonVal>
    decreases items,
{
    if items.len() == 0 {
        Seq::empty()
    } else {
        arr_vals(items.drop_last()).push(json_view(items.last()))
    }
}

/// The models of an object's entries, in order.
pub open spec fn entries_vals(entries: Seq<(Vec<char>, JsonValue)>) -> Seq<(Seq<char>, JsonVal)>
    decreases entries,
{
    if entries.len() == 0 {
        Seq::empty()
    } else {
        entries_vals(entries.drop_last()).push(
            (entries.last().0@, json_view(entries.last().1)),
        )
    }
}

impl View for JsonValue {
    type V = JsonVal;

    open spec fn view(&self) -> JsonVal {
        json_view(*self)
    }
}

/// `arr_vals` maps the elements one for one.
pub proof fn lemma_arr_vals(items: Seq<JsonValue>)
    ensures
        arr_vals(items).len() == items.len(),
        forall|i: int| 0 <= i < items.len() ==> arr_vals(items)[i] == json_view(items[i]),
    decreases items.len(),
{
    if items.len() > 0 {
        lemma_arr_vals(items.drop_last());
        assert forall|i: int| 0 <= i < items.len() implies arr_vals(items)[i] == json_view(
            items[i],
        ) by {
            if i < items.len() - 1 {
                assert(items.drop_last()[i] == items[i]);
            }
        }
    }
}

/// `entries_vals` maps the entries one for one.
pub proof fn lemma_entries_vals(entries: Seq<(Vec<char>, JsonValue)>)
    ensures
        entries_vals(entries).len() == entries.len(),
        forall|i: int|
            0 <= i < entries.len() ==> entries_vals(entries)[i] == (
                entries[i].0@,
                json_view(entries[i].1),
            ),
    decreases entries.len(),
{
    if entries.len() > 0 {
        lemma_entries_vals(entries.drop_last());
        assert forall|i: int|
            0 <= i < entries.len() implies entries_vals(entries)[i] == (
            entries[i].0@,
            json_view(entries[i].1),
        ) by {
            if i < entries.len() - 1 {
                assert(entries.drop_last()[i] == entries[i]);
            }
        }
    }
}

// ---------------------------------------------------------------------------
// The JSON number grammar.
// ---------------------------------------------------------------------------

pub open spec fn is_digit(c: char) -> bool {
    '0' <= c && c <= '9'
}

/// The first position at or after `i` that does not hold a decimal digit.
pub open spec fn scan_digits(s: Seq<char>, i: int) -> int
    decreases s.len() - i,
{
    if 0 <= i < s.len() && is_digit(s[i]) {
        scan_digits(s, i + 1)
    } else {
        i
    }
}

pub proof fn lemma_scan_digits_bounds(s: Seq<char>, i: int)
    requires
        0 <= i <= s.len(),
    ensures
        i <= scan_digits(s, i) <= s.len(),
    decreases s.len() - i,
{
    if i < s.len() && is_digit(s[i]) {
        lemma_scan_digits_bounds(s, i + 1);
    }
}

/// Where a JSON number starting at `i` ends, or `None` if no number starts
/// there: an optional minus sign, an integer part with no leading zero, an
/// optional fraction, an optional exponent.
pub open spec fn scan_number(s: Seq<char>, i: int) -> Option<int> {
    let i1 = if i < s.len() && s[i] == '-' {
        i + 1
    } else {
        i
    };
    if i1 < s.len() && is_digit(s[i1]) {
        let i2 = if s[i1] == '0' {
            i1 + 1
        } else {
            scan_digits(s, i1)
        };
        let i3 = scan_frac(s, i2);
        if i3 < 0 {
            None
        } else {
            let i4 = scan_exp(s, i3);
            if i4 < 0 {
                None
            } else {
                Some(i4)
            }
        }
    } else {
        None
    }
}

/// Where the optional fraction part starting at `i` ends, or a negative value
/// if a '.' is present but not followed by a digit.
pub open spec fn scan_frac(s: Seq<char>, i: int) -> int {
    if 0 <= i < s.len() && s[i] == '.' {
        if i + 1 < s.len() && is_digit(s[i + 1]) {
            scan_digits(s, i + 1)
        } else {
            -1
        }
    } else {
        i
    }
}

/// Where the optional exponent part starting at `i` ends, or a negative value
/// if an 'e' marker is present but malformed.
pub open spec fn scan_exp(s: Seq<char>, i: int) -> int {
    if 0 <= i < s.len() && (s[i] == 'e' || s[i] == 'E') {
        let j = if i + 1 < s.len() && (s[i + 1] == '+' || s[i + 1] == '-') {
            i + 2
        } else {
            i + 1
        };
        if j < s.len() && is_digit(s[j]) {
            scan_digits(s, j)
        } else {
            -1
        }
    } else {
        i
    }
}

/// Whether `s` is exactly one JSON number literal.
pub open spec fn is_json_number(s: Seq<char>) -> bool {
    scan_number(s, 0) == Some(s.len() as int)
}

// ---------------------------------------------------------------------------
// Executable number scanning and the override value-typing rule.
// ---------------------------------------------------------------------------

pub fn is_digit_exec(c: char) -> (r: bool)
    ensures
        r == is_digit(c),
{
    '0' <= c && c <= '9'
}

pub fn scan_digits_exec(s: &Vec<char>, i: usize) -> (r: usize)
    requires
        i <= s@.len(),
    ensures
        r as int == scan_digits(s@, i as int),
        i <= r <= s@.len(),
{
    let n = s.len();
    let mut j = i;
    while j < n && '0' <= s[j] && s[j] <= '9'
        invariant
            i <= j <= n,
            n == s@.len(),
            scan_digits(s@, i as int) == scan_digits(s@, j as int),
        decreases n - j,
    {
        j += 1;
    }
    proof {
        assert(scan_digits(s@, j as int) == j as int);
    }
    j
}

/// Executable twin of `scan_number`.
pub fn scan_number_exec(s: &Vec<char>, i: usize) -> (r: Option<usize>)
    requires
        i <= s@.len(),
    ensures
        r matches Some(j) ==> scan_number(s@, i as int) == Some(j as int) && i <= j <= s@.len(),
        r is None ==> scan_number(s@, i as int) is None,
{
    let n = s.len();
    let i1 = if i < n && s[i] == '-' {
        i + 1
    } else {
        i
    };
    if !(i1 < n && is_digit_exec(s[i1])) {
        return None;
    }
    let i2 = if s[i1] == '0' {
        i1 + 1
    } else {
        scan_digits_exec(s, i1)
    };
    // fraction
    let i3 = if i2 < n && s[i2] == '.' {
        if i2 + 1 < n && is_digit_exec(s[i2 + 1]) {
            scan_digits_exec(s, i2 + 1)
        } else {
            return None;
        }
    } else {
        i2
    };
    proof {
        assert(i3 as int == scan_frac(s@, i2 as int));
    }
    // exponent
    let i4 = if i3 < n && (s[i3] == 'e' || s[i3] == 'E') {
        let j = if i3 + 1 < n && (s[i3 + 1] == '+' || s[i3 + 1] == '-') {
            i3 + 2
        } else {
            i3 + 1
        };
        if j < n && is_digit_exec(s[j]) {
            scan_digits_exec(s, j)
        } else {
            return None;
        }
    } else {
        i3
    };
    proof {
        assert(i4 as int == scan_exp(s@, i3 as int));
    }
    Some(i4)
}

/// Whether the characters form exactly one JSON number literal.
pub fn is_json_number_exec(s: &Vec<char>) -> (r: bool)
    ensures
        r == is_json_number(s@),
{
    match scan_number_exec(s, 0) {
        Some(j) => j == s.len(),
        None => false,
    }
}

/// The value-typing rule for override directives and URL query values: a
/// value is taken as the JSON scalar it unambiguously spells (`null`, `true`,
/// `false`, or a JSON number literal), and as a plain string otherwise.
pub open spec fn spec_scalar(s: Seq<char>) -> JsonVal {
    if s == "null"@ {
        JsonVal::Null
    } else if s == "true"@ {
        JsonVal::Bool(true)
    } else if s == "false"@ {
        JsonVal::Bool(false)
    } else if is_json_number(s) {
        JsonVal::Num(s)
    } else {
        JsonVal::Str(s)
    }
}

/// Applies the value-typing rule to one override value.
pub fn parse_scalar(v: Vec<char>) -> (r: JsonValue)
    ensures
        r@ == spec_scalar(v@),
        wf_json(r@),
{
    let lit_null = str_to_chars("null");
    let lit_true = str_to_chars("true");
    let lit_false = str_to_chars("false");
    if crate::strutil::chars_equal(&v, &lit_null) {
        JsonValue::Null
    } else if crate::strutil::chars_equal(&v, &lit_true) {
        JsonValue::Bool(true)
    } else if crate::strutil::chars_equal(&v, &lit_false) {
        JsonValue::Bool(false)
    } else if is_json_number_exec(&v) {
        JsonValue::Num(v)
    } else {
        JsonValue::Str(v)
    }
}

// ---------------------------------------------------------------------------
// Well-formedness and object operations on the model.
// ---------------------------------------------------------------------------

pub open spec fn obj_has_key(entries: Seq<(Seq<char>, JsonVal)>, key: Seq<char>) -> bool {
    exists|i: int| 0 <= i < entries.len() && entries[i].0 == key
}

/// The index of the entry holding `key`, or -1 when absent; keys are found at
/// their first occurrence.
pub open spec fn obj_key_idx(entries: Seq<(Seq<char>, JsonVal)>, key: Seq<char>) -> int
    decreases entries.len(),
{
    if entries.len() == 0 {
        -1
    } else if entries[0].0 == key {
        0
    } else {
        let r = obj_key_idx(entries.drop_first(), key);
        if r < 0 {
            -1
        } else {
            r + 1
        }
    }
}

pub open spec fn obj_lookup(entries: Seq<(Seq<char>, JsonVal)>, key: Seq<char>) -> Option<
    JsonVal,
> {
    let i = obj_key_idx(entries, key);
    if i < 0 {
        None
    } else {
        Some(entries[i].1)
    }
}

/// Setting a key: an existing entry keeps its position and gets the new
/// value; a new key is appended at the end.
pub open spec fn obj_set(
    entries: Seq<(Seq<char>, JsonVal)>,
    key: Seq<char>,
    value: JsonVal,
) -> Seq<(Seq<char>, JsonVal)> {
    let i = obj_key_idx(entries, key);
    if i < 0 {
        entries.push((key, value))
    } else {
        entries.update(i, (key, value))
    }
}

/// Removing a key drops every entry carrying it and keeps the rest in order.
pub open spec fn obj_remove(entries: Seq<(Seq<char>, JsonVal)>, key: Seq<char>) -> Seq<
    (Seq<char>, JsonVal),
>
    decreases entries.len(),
{
    if entries.len() == 0 {
        Seq::empty()
    } else {
        let rest = obj_remove(entries.drop_last(), key);
        if entries.last().0 == key {
            rest
        } else {
            rest.push(entries.last())
        }
    }
}

/// Removal keeps exactly the entries under other keys.
pub proof fn lemma_obj_remove_keys(entries: Seq<(Seq<char>, JsonVal)>, key: Seq<char>, k: Seq<char>)
    ensures
        obj_has_key(obj_remove(entries, key), k) == (obj_has_key(entries, k) && k != key),
    decreases entries.len(),
{
    let r = obj_remove(entries, key);
    if entries.len() == 0 {
        assert(!obj_has_key(r, k));
        assert(!obj_has_key(entries, k));
    } else {
        let prefix = entries.drop_last();
        let e = entries.last();
        lemma_obj_remove_keys(prefix, key, k);
        let rp = obj_remove(prefix, key);
        assert(obj_has_key(prefix, k) ==> obj_has_key(entries, k)) by {
            if obj_has_key(prefix, k) {
                let i = choose|i: int| 0 <= i < prefix.len() && prefix[i].0 == k;
                assert(entries[i].0 == k);
            }
        }
        if e.0 == key {
            assert(r == rp);
            if obj_has_key(entries, k) && k != key {
                let i = choose|i: int| 0 <= i < entries.len() && entries[i].0 == k;
                assert(i < entries.len() - 1);
                assert(prefix[i].0 == k);
            }
        } else {
            assert(r == rp.push(e));
            if obj_has_key(entries, k) && k != key {
                let i = choose|i: int| 0 <= i < entries.len() && entries[i].0 == k;
                if i == entries.len() - 1 {
                    assert(r[r.len() - 1].0 == k);
                } else {
                    assert(prefix[i].0 == k);
                    let j = choose|j: int| 0 <= j < rp.len() && rp[j].0 == k;
                    assert(r[j].0 == k);
                }
            }
            if obj_has_key(r, k) {
                let i = choose|i: int| 0 <= i < r.len() && r[i].0 == k;
                if i == r.len() - 1 {
                    assert(e.0 == k);
                    assert(entries[entries.len() - 1].0 == k);
                } else {
                    assert(rp[i].0 == k);
                }
            }
        }
    }
}

/// Appending one entry to the input appends it to the removal's result when
/// its key differs, and changes nothing when it matches.
pub proof fn lemma_obj_remove_push(
    entries: Seq<(Seq<char>, JsonVal)>,
    key: Seq<char>,
    e: (Seq<char>, JsonVal),
)
    ensures
        obj_remove(entries.push(e), key) == if e.0 != key {
            obj_remove(entries, key).push(e)
        } else {
            obj_remove(entries, key)
        },
{
    let p = entries.push(e);
    assert(p.len() > 0);
    assert(p.last() == e);
    assert(p.drop_last() =~= entries);
}

pub proof fn lemma_obj_key_idx_correct(entries: Seq<(Seq<char>, JsonVal)>, key: Seq<char>)
    ensures
        obj_has_key(entries, key) ==> {
            let i = obj_key_idx(entries, key);
            &&& 0 <= i < entries.len()
            &&& entries[i].0 == key
            &&& forall|j: int| 0 <= j < i ==> entries[j].0 != key
        },
        !obj_has_key(entries, key) ==> obj_key_idx(entries, key) == -1,
    decreases entries.len(),
{
    if entries.len() > 0 && entries[0].0 != key {
        lemma_obj_key_idx_correct(entries.drop_first(), key);
        assert forall|i: int| 0 <= i < entries.len() && entries[i].0 == key implies
            0 <= i - 1 < entries.drop_first().len() && entries.drop_first()[i - 1].0 == key by {
            assert(entries.drop_first()[i - 1] == entries[i]);
        }
    }
}

/// Whether every key of an (already viewed) object is distinct.
pub open spec fn keys_unique(entries: Seq<(Seq<char>, JsonVal)>) -> bool {
    forall|i: int, j: int|
        0 <= i < j < entries.len() ==> entries[i].0 != entries[j].0
}

/// A well-formed document: object keys are distinct at every level and every
/// number literal obeys the JSON number grammar.
pub open spec fn wf_json(v: JsonVal) -> bool
    decreases v,
{
    match v {
        JsonVal::Null => true,
        JsonVal::Bool(_) => true,
        JsonVal::Num(s) => is_json_number(s),
        JsonVal::Str(_) => true,
        JsonVal::Arr(items) => forall|i: int|
            0 <= i < items.len() ==> wf_json(#[trigger] items[i]),
        JsonVal::Obj(entries) => {
            &&& keys_unique(entries)
            &&& forall|i: int| 0 <= i < entries.len() ==> wf_json(#[trigger] entries[i].1)
        },
    }
}

pub proof fn lemma_obj_set_preserves_unique(
    entries: Seq<(Seq<char>, JsonVal)>,
    key: Seq<char>,
    value: JsonVal,
)
    requires
        keys_unique(entries),
    ensures
        keys_unique(obj_set(entries, key, value)),
        obj_lookup(obj_set(entries, key, value), key) == Some(value),
{
    lemma_obj_key_idx_correct(entries, key);
    let r = obj_set(entries, key, value);
    if obj_key_idx(entries, key) < 0 {
        assert(forall|j: int| 0 <= j < entries.len() ==> entries[j].0 != key);
        assert(keys_unique(r));
        lemma_obj_key_idx_correct(r, key);
        assert(obj_has_key(r, key)) by {
            assert(r[entries.len() as int].0 == key);
        }
        let i = obj_key_idx(r, key);
        assert(forall|j: int| 0 <= j < entries.len() ==> r[j] == entries[j]);
        assert(i == entries.len()) by {
            assert(r[i].0 == key);
        }
    } else {
        let i0 = obj_key_idx(entries, key);
        assert(keys_unique(r));
        lemma_obj_key_idx_correct(r, key);
        assert(obj_has_key(r, key)) by {
            assert(r[i0].0 == key);
        }
        let i = obj_key_idx(r, key);
        assert(r[i].0 == key);
        assert(i == i0) by {
            if i < i0 {
                assert(entries[i].0 == key);
            } else if i > i0 {
                assert(r[i] == entries[i]);
            }
        }
    }
}

pub proof fn lemma_obj_remove_unique(entries: Seq<(Seq<char>, JsonVal)>, key: Seq<char>)
    requires
        keys_unique(entries),
    ensures
        keys_unique(obj_remove(entries, key)),
        !obj_has_key(obj_remove(entries, key), key),
    decreases entries.len(),
{
    lemma_obj_remove_keys(entries, key, key);
    if entries.len() > 0 {
        let prefix = entries.drop_last();
        let e = entries.last();
        assert(keys_unique(prefix)) by {
            assert(forall|i: int| 0 <= i < prefix.len() ==> prefix[i] == entries[i]);
        }
        lemma_obj_remove_unique(prefix, key);
        let rp = obj_remove(prefix, key);
        if e.0 == key {
        } else {
            let r = rp.push(e);
            assert(!obj_has_key(prefix, e.0)) by {
                if obj_has_key(prefix, e.0) {
                    let i = choose|i: int| 0 <= i < prefix.len() && prefix[i].0 == e.0;
                    assert(entries[i].0 == entries[entries.len() - 1].0);
                }
            }
            lemma_obj_remove_keys(prefix, key, e.0);
            assert(!obj_has_key(rp, e.0));
            assert forall|i: int, j: int| 0 <= i < j < r.len() implies r[i].0 != r[j].0 by {
                if j == r.len() - 1 {
                    assert(r[i] == rp[i]);
                    if r[i].0 == e.0 {
                        assert(obj_has_key(rp, e.0));
                    }
                } else {
                    assert(r[i] == rp[i] && r[j] == rp[j]);
                }
            }
        }
    }
}

// ---------------------------------------------------------------------------
// Executable operations.
// ---------------------------------------------------------------------------

impl JsonValue {
    /// Whether the document's root is an object.
    pub fn is_object(&self) -> (r: bool)
        ensures
            r == (self@ is Obj),
    {
        match self {
            JsonValue::Obj(_) => true,
            _ => false,
        }
    }

    /// An empty object.
    pub fn empty_object() -> (r: JsonValue)
        ensures
            r@ == JsonVal::Obj(Seq::<(Seq<char>, JsonVal)>::empty()),
            wf_json(r@),
    {
        let r = JsonValue::Obj(Vec::new());
        proof {
            assert(r@->Obj_0 == entries_vals(Seq::empty()));
        }
        r
    }

    /// A string value.
    pub fn string_of(s: &str) -> (r: JsonValue)
        ensures
            r@ == JsonVal::Str(s@),
            wf_json(r@),
    {
        JsonValue::Str(str_to_chars(s))
    }
}

/// The entries of an object, with their views.
pub open spec fn entries_view(entries: Vec<(Vec<char>, JsonValue)>) -> Seq<(Seq<char>, JsonVal)> {
    entries_vals(entries@)
}
/// The position of `key` among `entries`, scanning from the front.
pub fn find_key(entries: &Vec<(Vec<char>, JsonValue)>, key: &Vec<char>) -> (r: Option<usize>)
    ensures
        r matches Some(i) ==> obj_key_idx(entries_view(*entries), key@) == i as int && (i as int)
            < entries@.len() && entries_view(*entries)[i as int].0 == key@,
        r is None ==> obj_key_idx(entries_view(*entries), key@) == -1,
{
    let ghost ev = entries_view(*entries);
    proof {
        lemma_entries_vals(entries@);
        lemma_obj_key_idx_correct(ev, key@);
    }
    let n = entries.len();
    let mut i: usize = 0;
    while i < n
        invariant
            n == entries@.len(),
            i <= n,
            ev == entries_view(*entries),
            ev.len() == n,
            forall|j: int| 0 <= j < i ==> ev[j].0 != key@,
        decreases n - i,
    {
        proof {
            lemma_entries_vals(entries@);
        }
        if crate::strutil::chars_equal(&entries[i].0, key) {
            proof {
                assert(ev[i as int].0 == key@);
                lemma_obj_key_idx_correct(ev, key@);
            }
            return Some(i);
        }
        i += 1;
    }
    proof {
        assert(!obj_has_key(ev, key@));
        lemma_obj_key_idx_correct(ev, key@);
    }
    None
}

impl JsonValue {
    /// Sets or overwrites `key` in an object document, the merge rule used for
    /// query and body overrides: an existing key keeps its position and gets
    /// the new value, a new key is appended at the end.
    pub fn with_key_set(self, key: Vec<char>, value: JsonValue) -> (r: JsonValue)
        requires
            self@ is Obj,
        ensures
            r@ == JsonVal::Obj(obj_set(self@->Obj_0, key@, value@)),
    {
        let ghost old_view = self@->Obj_0;
        match self {
            JsonValue::Obj(mut entries) => {
                let ghost oe = entries@;
                proof {
                    assert(old_view == entries_vals(oe));
                }
                let idx = find_key(&entries, &key);
                let ghost kv = key@;
                let ghost vv = value@;
                match idx {
                    Some(i) => {
                        entries.set(i, (key, value));
                        proof {
                            lemma_entries_vals(oe);
                            lemma_entries_vals(entries@);
                            assert(entries_vals(entries@) =~= old_view.update(
                                i as int,
                                (kv, vv),
                            ));
                        }
                    },
                    None => {
                        entries.push((key, value));
                        proof {
                            assert(entries@.drop_last() =~= oe);
                            assert(entries_vals(entries@) == entries_vals(oe).push((kv, vv)));
                        }
                    },
                }
                let r = JsonValue::Obj(entries);
                proof {
                    assert(r@->Obj_0 == entries_vals(entries@));
                }
                r
            },
            v => {
                proof {
                    assert(false);
                }
                v
            },
        }
    }

    /// Removes `key` from an object document: the top-level body filter rule.
    pub fn with_key_removed(self, key: &Vec<char>) -> (r: JsonValue)
        requires
            self@ is Obj,
        ensures
            r@ == JsonVal::Obj(obj_remove(self@->Obj_0, key@)),
    {
        let ghost old_view = self@->Obj_0;
        match self {
            JsonValue::Obj(entries) => {
                let ghost ev = entries_vals(entries@);
                proof {
                    assert(old_view == ev);
                    lemma_entries_vals(entries@);
                }
                let n = entries.len();
                let mut kept: Vec<(Vec<char>, JsonValue)> = Vec::new();
                let mut i: usize = 0;
                while i < n
                    invariant
                        n == entries@.len(),
                        i <= n,
                        ev == entries_vals(entries@),
                        ev.len() == n,
                        entries_vals(kept@) =~= obj_remove(ev.take(i as int), key@),
                    decreases n - i,
                {
                    proof {
                        lemma_entries_vals(entries@);
                        assert(ev.take(i + 1 as int) =~= ev.take(i as int).push(ev[i as int]));
                        lemma_obj_remove_push(ev.take(i as int), key@, ev[i as int]);
                    }
                    let ghost old_kept = kept@;
                    let keep = !crate::strutil::chars_equal(&entries[i].0, key);
                    if keep {
                        let e = (clone_chars(&entries[i].0), clone_json(&entries[i].1));
                        kept.push(e);
                        proof {
                            assert(kept@.drop_last() =~= old_kept);
                            assert(entries_vals(kept@) == entries_vals(old_kept).push(
                                ev[i as int],
                            ));
                            assert(entries_vals(kept@) =~= obj_remove(
                                ev.take(i + 1 as int),
                                key@,
                            ));
                        }
                    } else {
                        proof {
                            assert(entries_vals(kept@) =~= obj_remove(
                                ev.take(i + 1 as int),
                                key@,
                            ));
                        }
                    }
                    i += 1;
                }
                proof {
                    assert(ev.take(n as int) =~= ev);
                }
                let r = JsonValue::Obj(kept);
                proof {
                    assert(r@->Obj_0 == entries_vals(kept@));
                    assert(r@->Obj_0 =~= obj_remove(old_view, key@));
                }
                r
            },
            v => {
                proof {
                    assert(false);
                }
                v
            },
        }
    }

    /// Looks a key up in an object document.
    pub fn get_key(&self, key: &Vec<char>) -> (r: Option<&JsonValue>)
        requires
            self@ is Obj,
        ensures
            r matches Some(v) ==> obj_lookup(self@->Obj_0, key@) == Some(v@),
            r is None ==> obj_lookup(self@->Obj_0, key@) is None,
    {
        match self {
            JsonValue::Obj(entries) => {
                proof {
                    assert(entries_view(*entries) == self@->Obj_0);
                }
                let idx = find_key(entries, key);
                match idx {
                    Some(i) => {
                        let v = &entries[i].1;
                        proof {
                            lemma_entries_vals(entries@);
                            assert(entries_view(*entries)[i as int].1 == v@);
                        }
                        Some(v)
                    },
                    None => None,
                }
            },
            _ => None,
        }
    }
}

/// Clones a character vector.
pub fn clone_chars(v: &Vec<char>) -> (r: Vec<char>)
    ensures
        r@ == v@,
{
    let mut r: Vec<char> = Vec::new();
    crate::strutil::push_all(&mut r, v);
    r
}

/// Clones a JSON document.
#[verifier::loop_isolation(false)]
pub fn clone_json(v: &JsonValue) -> (r: JsonValue)
    ensures
        r@ == v@,
    decreases v,
{
    match v {
        JsonValue::Null => JsonValue::Null,
        JsonValue::Bool(b) => JsonValue::Bool(*b),
        JsonValue::Num(s) => JsonValue::Num(clone_chars(s)),
        JsonValue::Str(s) => JsonValue::Str(clone_chars(s)),
        JsonValue::Arr(items) => {
            let n = items.len();
            let mut out: Vec<JsonValue> = Vec::new();
            let mut i: usize = 0;
            while i < n
                invariant
                    n == items@.len(),
                    i <= n,
                    out@.len() == i,
                    forall|j: int| 0 <= j < i ==> out@[j]@ == items@[j]@,
                decreases n - i,
            {
                let c = clone_json(&items[i]);
                out.push(c);
                i += 1;
            }
            let r = JsonValue::Arr(out);
            proof {
                lemma_arr_vals(out@);
                lemma_arr_vals(items@);
                assert(arr_vals(out@) =~= arr_vals(items@));
            }
            r
        },
        JsonValue::Obj(entries) => {
            let n = entries.len();
            let mut out: Vec<(Vec<char>, JsonValue)> = Vec::new();
            let mut i: usize = 0;
            while i < n
                invariant
                    n == entries@.len(),
                    i <= n,
                    out@.len() == i,
                    forall|j: int|
                        0 <= j < i ==> out@[j].0@ == entries@[j].0@ && out@[j].1@
                            == entries@[j].1@,
                decreases n - i,
            {
                let e = (clone_chars(&entries[i].0), clone_json(&entries[i].1));
                out.push(e);
                i += 1;
            }
            let r = JsonValue::Obj(out);
            proof {
                lemma_entries_vals(out@);
                lemma_entries_vals(entries@);
                assert(entries_vals(out@) =~= entries_vals(entries@));
            }
            r
        },
    }
}

} // verus!
