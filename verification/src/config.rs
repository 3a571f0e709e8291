use vstd::prelude::*;

use crate::error::XdiffError;
use crate::request::{object_shaped, RequestProfile};
use crate::response::ResponseProfile;
use crate::strutil::str_to_chars;

verus! {

/// Structural validation, shared by every profile store variant.
pub trait ConfigValidate {
    fn validate(&self) -> Result<(), XdiffError>;
}

/// A named pair of requests to compare, with the response filter to apply to
/// both sides.
pub struct DiffProfile {
    pub req1: RequestProfile,
    pub req2: RequestProfile,
    pub res: ResponseProfile,
}

/// Whether one request template is structurally valid.
pub open spec fn request_valid(p: RequestProfile) -> bool {
    object_shaped(p.params) && object_shaped(p.body)
}

/// Whether both sides of a comparison profile are structurally valid.
pub open spec fn profile_valid(p: DiffProfile) -> bool {
    request_valid(p.req1) && request_valid(p.req2)
}

impl DiffProfile {
    pub fn new(req1: RequestProfile, req2: RequestProfile, res: ResponseProfile) -> (r: DiffProfile)
        ensures
            r.req1 == req1 && r.req2 == req2 && r.res == res,
    {
        DiffProfile { req1, req2, res }
    }

    /// Checks both requests; the first invalid side is reported by name,
    /// `req1` being checked first.
    pub fn validate(&self) -> (r: Result<(), XdiffError>)
        ensures
            (r is Ok) == profile_valid(*self),
            !request_valid(self.req1) ==> (r matches Err(e) && e is InvalidShape
                && e->InvalidShape_0@ == "req1 failed to validate"@),
            request_valid(self.req1) && !request_valid(self.req2) ==> (r matches Err(e)
                && e is InvalidShape && e->InvalidShape_0@ == "req2 failed to validate"@),
    {
        match self.req1.validate() {
            Ok(_) => {},
            Err(_) => {
                return Err(
                    XdiffError::InvalidShape(String::from_str("req1 failed to validate")),
                );
            },
        }
        match self.req2.validate() {
            Ok(_) => {},
            Err(_) => {
                return Err(
                    XdiffError::InvalidShape(String::from_str("req2 failed to validate")),
                );
            },
        }
        Ok(())
    }
}

impl ConfigValidate for DiffProfile {
    fn validate(&self) -> Result<(), XdiffError> {
        DiffProfile::validate(self)
    }
}

/// The position of a name among entries, scanning from the front.
pub open spec fn name_idx<T>(entries: Seq<(String, T)>, name: Seq<char>) -> int
    decreases entries.len(),
{
    if entries.len() == 0 {
        -1
    } else if entries[0].0@ == name {
        0
    } else {
        let r = name_idx(entries.drop_first(), name);
        if r < 0 {
            -1
        } else {
            r + 1
        }
    }
}

pub open spec fn has_name<T>(entries: Seq<(String, T)>, name: Seq<char>) -> bool {
    exists|i: int| 0 <= i < entries.len() && (#[trigger] entries[i].0)@ == name
}

pub proof fn lemma_name_idx_correct<T>(entries: Seq<(String, T)>, name: Seq<char>)
    ensures
        has_name(entries, name) ==> {
            let i = name_idx(entries, name);
            &&& 0 <= i < entries.len()
            &&& entries[i].0@ == name
        },
        !has_name(entries, name) ==> name_idx(entries, name) == -1,
    decreases entries.len(),
{
    if entries.len() > 0 && entries[0].0@ != name {
        lemma_name_idx_correct(entries.drop_first(), name);
        if has_name(entries, name) {
            let i = choose|i: int|
                0 <= i < entries.len() && (#[trigger] entries[i].0)@ == name;
            assert(entries.drop_first()[i - 1] == entries[i]);
            assert(has_name(entries.drop_first(), name));
        } else {
            if has_name(entries.drop_first(), name) {
                let i = choose|i: int|
                    0 <= i < entries.drop_first().len() && (#[trigger] entries.drop_first()[i].0)@
                        == name;
                assert(entries[i + 1] == entries.drop_first()[i]);
            }
        }
    }
}

/// The store of named comparison profiles, in the order the config document
/// gave them; names are expected to be unique and lookups find the first.
pub struct DiffConfig {
    pub profiles: Vec<(String, DiffProfile)>,
}

impl DiffConfig {
    pub fn new(profiles: Vec<(String, DiffProfile)>) -> (r: DiffConfig)
        ensures
            r.profiles == profiles,
    {
        DiffConfig { profiles }
    }

    /// The profile under a name, when the store holds it.
    pub fn get_profile(&self, name: &str) -> (r: Option<&DiffProfile>)
        ensures
            (r is Some) == has_name(self.profiles@, name@),
            r matches Some(p) ==> exists|i: int|
                0 <= i < self.profiles@.len() && (#[trigger] self.profiles@[i]).0@ == name@ && p
                    == &self.profiles@[i].1,
    {
        let nm = str_to_chars(name);
        let n = self.profiles.len();
        let mut i: usize = 0;
        while i < n
            invariant
                i <= n,
                n == self.profiles@.len(),
                nm@ == name@,
                forall|j: int| 0 <= j < i ==> (#[trigger] self.profiles@[j]).0@ != name@,
            decreases n - i,
        {
            let cand = str_to_chars(self.profiles[i].0.as_str());
            if crate::strutil::chars_equal(&cand, &nm) {
                proof {
                    assert(self.profiles@[i as int].0@ == name@);
                }
                return Some(&self.profiles[i].1);
            }
            i += 1;
        }
        proof {
            if has_name(self.profiles@, name@) {
                let j = choose|j: int|
                    0 <= j < self.profiles@.len() && (#[trigger] self.profiles@[j].0)@ == name@;
            }
        }
        None
    }

    /// The profile under a name; an absent name is a recoverable error, never
    /// a crash.
    pub fn get(&self, name: &str) -> (r: Result<&DiffProfile, XdiffError>)
        ensures
            (r is Ok) == has_name(self.profiles@, name@),
            r matches Err(e) ==> e is ProfileNotFound && e->ProfileNotFound_0@ == name@,
    {
        match self.get_profile(name) {
            Some(p) => Ok(p),
            None => {
                let owned = crate::strutil::chars_to_string(&str_to_chars(name));
                Err(XdiffError::ProfileNotFound(owned))
            },
        }
    }

    /// Validates every profile, in store order; the first invalid one is
    /// reported by name.
    pub fn validate(&self) -> (r: Result<(), XdiffError>)
        ensures
            (r is Ok) == (forall|i: int|
                0 <= i < self.profiles@.len() ==> profile_valid(#[trigger] self.profiles@[i].1)),
            r matches Err(e) ==> e is InvalidShape && exists|i: int|
                0 <= i < self.profiles@.len() && !profile_valid(#[trigger] self.profiles@[i].1)
                    && e->InvalidShape_0@ == self.profiles@[i].0@ && (forall|j: int|
                    0 <= j < i ==> profile_valid(#[trigger] self.profiles@[j].1)),
    {
        let n = self.profiles.len();
        let mut i: usize = 0;
        while i < n
            invariant
                i <= n,
                n == self.profiles@.len(),
                forall|j: int| 0 <= j < i ==> profile_valid(#[trigger] self.profiles@[j].1),
            decreases n - i,
        {
            match self.profiles[i].1.validate() {
                Ok(_) => {},
                Err(_) => {
                    let owned = self.profiles[i].0.clone();
                    return Err(XdiffError::InvalidShape(owned));
                },
            }
            i += 1;
        }
        Ok(())
    }
}

impl ConfigValidate for DiffConfig {
    fn validate(&self) -> Result<(), XdiffError> {
        DiffConfig::validate(self)
    }
}

/// The store of named single requests, for the single-request mode.
pub struct RequestConfig {
    pub profiles: Vec<(String, RequestProfile)>,
}

impl RequestConfig {
    pub fn new(profiles: Vec<(String, RequestProfile)>) -> (r: RequestConfig)
        ensures
            r.profiles == profiles,
    {
        RequestConfig { profiles }
    }

    /// The request under a name, when the store holds it.
    pub fn get_profile(&self, name: &str) -> (r: Option<&RequestProfile>)
        ensures
            (r is Some) == has_name(self.profiles@, name@),
            r matches Some(p) ==> exists|i: int|
                0 <= i < self.profiles@.len() && (#[trigger] self.profiles@[i]).0@ == name@ && p
                    == &self.profiles@[i].1,
    {
        let nm = str_to_chars(name);
        let n = self.profiles.len();
        let mut i: usize = 0;
        while i < n
            invariant
                i <= n,
                n == self.profiles@.len(),
                nm@ == name@,
                forall|j: int| 0 <= j < i ==> (#[trigger] self.profiles@[j]).0@ != name@,
            decreases n - i,
        {
            let cand = str_to_chars(self.profiles[i].0.as_str());
            if crate::strutil::chars_equal(&cand, &nm) {
                proof {
                    assert(self.profiles@[i as int].0@ == name@);
                }
                return Some(&self.profiles[i].1);
            }
            i += 1;
        }
        proof {
            if has_name(self.profiles@, name@) {
                let j = choose|j: int|
                    0 <= j < self.profiles@.len() && (#[trigger] self.profiles@[j].0)@ == name@;
            }
        }
        None
    }

    /// The request under a name; an absent name is a recoverable error.
    pub fn get(&self, name: &str) -> (r: Result<&RequestProfile, XdiffError>)
        ensures
            (r is Ok) == has_name(self.profiles@, name@),
            r matches Err(e) ==> e is ProfileNotFound && e->ProfileNotFound_0@ == name@,
    {
        match self.get_profile(name) {
            Some(p) => Ok(p),
            None => {
                let owned = crate::strutil::chars_to_string(&str_to_chars(name));
                Err(XdiffError::ProfileNotFound(owned))
            },
        }
    }

    /// Validates every request, in store order; the first invalid one is
    /// reported by name.
    pub fn validate(&self) -> (r: Result<(), XdiffError>)
        ensures
            (r is Ok) == (forall|i: int|
                0 <= i < self.profiles@.len() ==> request_valid(#[trigger] self.profiles@[i].1)),
            r matches Err(e) ==> e is InvalidShape && exists|i: int|
                0 <= i < self.profiles@.len() && !request_valid(#[trigger] self.profiles@[i].1)
                    && e->InvalidShape_0@ == self.profiles@[i].0@ && (forall|j: int|
                    0 <= j < i ==> request_valid(#[trigger] self.profiles@[j].1)),
    {
        let n = self.profiles.len();
        let mut i: usize = 0;
        while i < n
            invariant
                i <= n,
                n == self.profiles@.len(),
                forall|j: int| 0 <= j < i ==> request_valid(#[trigger] self.profiles@[j].1),
            decreases n - i,
        {
            match self.profiles[i].1.validate() {
                Ok(_) => {},
                Err(_) => {
                    let owned = self.profiles[i].0.clone();
                    return Err(XdiffError::InvalidShape(owned));
                },
            }
            i += 1;
        }
        Ok(())
    }
}

impl ConfigValidate for RequestConfig {
    fn validate(&self) -> Result<(), XdiffError> {
        RequestConfig::validate(self)
    }
}

impl ConfigValidate for RequestProfile {
    fn validate(&self) -> Result<(), XdiffError> {
        RequestProfile::validate(self)
    }
}

} // verus!
