use vstd::prelude::*;

verus! {

/// The library's error taxonomy. Every recoverable failure of the core is one
/// of these variants; the string payloads carry context (an offending profile
/// name, a rejected content type) for the final rendered message.
#[derive(Debug, Clone, PartialEq, Eq)]
pub enum XdiffError {
    /// A structured config document could not be decoded into profiles.
    ConfigParseError(String),
    /// A profile name was looked up that the store does not hold.
    ProfileNotFound(String),
    /// A template's `params` or `body` is present but not object-typed.
    InvalidShape(String),
    /// An override directive has a malformed key or is missing `=`.
    InvalidOverrideKey(String),
    /// The merged request carries a content type the serializer does not know.
    UnsupportedContentType(String),
    /// The HTTP transport failed; the message is propagated unchanged.
    TransportError(String),
    /// A response body declared as JSON did not parse as JSON.
    BodyDecodeError,
    /// Formatting of the rendered output failed.
    RenderError,
}

impl XdiffError {
    /// A short machine-readable label for the variant, used by the
    /// presentation layer when rendering the final message.
    pub fn label(&self) -> (r: &'static str)
        ensures
            r@ == self.spec_label(),
    {
        match self {
            XdiffError::ConfigParseError(_) => "config parse error",
            XdiffError::ProfileNotFound(_) => "profile not found",
            XdiffError::InvalidShape(_) => "invalid shape",
            XdiffError::InvalidOverrideKey(_) => "invalid override key",
            XdiffError::UnsupportedContentType(_) => "unsupported content type",
            XdiffError::TransportError(_) => "transport error",
            XdiffError::BodyDecodeError => "body decode error",
            XdiffError::RenderError => "render error",
        }
    }

    pub open spec fn spec_label(&self) -> Seq<char> {
        match self {
            XdiffError::ConfigParseError(_) => "config parse error"@,
            XdiffError::ProfileNotFound(_) => "profile not found"@,
            XdiffError::InvalidShape(_) => "invalid shape"@,
            XdiffError::InvalidOverrideKey(_) => "invalid override key"@,
            XdiffError::UnsupportedContentType(_) => "unsupported content type"@,
            XdiffError::TransportError(_) => "transport error"@,
            XdiffError::BodyDecodeError => "body decode error"@,
            XdiffError::RenderError => "render error"@,
        }
    }

    /// The context payload carried by the variant, if any: the profile name,
    /// the rejected key, the unsupported content type, or the transport's own
    /// message.
    pub fn detail(&self) -> (r: Option<&String>)
        ensures
            r matches Some(s) ==> s@ == self.spec_detail()->Some_0,
            (r is Some) == (self.spec_detail() is Some),
    {
        match self {
            XdiffError::ConfigParseError(s) => Some(s),
            XdiffError::ProfileNotFound(s) => Some(s),
            XdiffError::InvalidShape(s) => Some(s),
            XdiffError::InvalidOverrideKey(s) => Some(s),
            XdiffError::UnsupportedContentType(s) => Some(s),
            XdiffError::TransportError(s) => Some(s),
            XdiffError::BodyDecodeError => None,
            XdiffError::RenderError => None,
        }
    }

    pub open spec fn spec_detail(&self) -> Option<Seq<char>> {
        match self {
            XdiffError::ConfigParseError(s) => Some(s@),
            XdiffError::ProfileNotFound(s) => Some(s@),
            XdiffError::InvalidShape(s) => Some(s@),
            XdiffError::InvalidOverrideKey(s) => Some(s@),
            XdiffError::UnsupportedContentType(s) => Some(s@),
            XdiffError::TransportError(s) => Some(s@),
            XdiffError::BodyDecodeError => None,
            XdiffError::RenderError => None,
        }
    }
}

} // verus!
