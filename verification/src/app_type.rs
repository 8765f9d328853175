//! The kind of application a swarm runs.

use vstd::prelude::*;
use vstd::string::StringExecFns;

verus! {

/// Application type of a swarm: a catalog, a forum or another kind named by
/// its type byte.
#[derive(Debug, Copy, Clone, PartialEq, Eq, Structural)]
pub enum AppType {
    Catalog,
    Forum,
    Other(u8),
}

/// Equality of two string slices, as std's `==` on `str` decides it.
#[verifier::external_body]
pub(crate) fn str_eq(a: &str, b: &str) -> (r: bool)
    ensures
        r == (a@ == b@),
{
    a == b
}

/// A `String` holding the characters of `s`.
pub(crate) fn string_of(s: &str) -> (r: String)
    ensures
        r@ == s@,
{
    String::from_str(s)
}

impl AppType {
    /// The type byte: 255 for a catalog, 254 for a forum, the carried byte otherwise.
    pub open spec fn spec_byte(self) -> u8 {
        match self {
            AppType::Catalog => 255,
            AppType::Forum => 254,
            AppType::Other(v) => v,
        }
    }

    /// The application type that a type byte names.
    pub open spec fn spec_from(byte: u8) -> AppType {
        if byte == 255 {
            AppType::Catalog
        } else if byte == 254 {
            AppType::Forum
        } else {
            AppType::Other(byte)
        }
    }

    pub fn byte(&self) -> (r: u8)
        ensures
            r == self.spec_byte(),
    {
        match self {
            AppType::Catalog => 255,
            AppType::Forum => 254,
            AppType::Other(val) => *val,
        }
    }

    pub fn from(byte: u8) -> (r: Self)
        ensures
            r == Self::spec_from(byte),
    {
        match byte {
            255 => AppType::Catalog,
            254 => AppType::Forum,
            other => AppType::Other(other),
        }
    }

    pub fn is_catalog(&self) -> (r: bool)
        ensures
            r == (*self == AppType::Catalog),
    {
        matches!(self, AppType::Catalog)
    }

    pub fn is_forum(&self) -> (r: bool)
        ensures
            r == (*self == AppType::Forum),
    {
        matches!(self, AppType::Forum)
    }

    /// The names of the link types that a user can choose from.
    pub fn list_of_types() -> (r: Vec<String>)
        ensures
            r@.len() == 2,
            r@[0]@ == "Link=>Catalog"@,
            r@[1]@ == "Link=>Forum"@,
    {
        let mut v: Vec<String> = Vec::new();
        v.push(string_of("Link=>Catalog"));
        v.push(string_of("Link=>Forum"));
        v
    }

    /// The type byte of a link type named by one of `list_of_types`.
    pub fn type_byte_from_string(text: &str) -> (r: Option<u8>)
        ensures
            text@ == "Link=>Catalog"@ ==> r == Some(255u8),
            text@ == "Link=>Forum"@ ==> r == Some(254u8),
            text@ != "Link=>Catalog"@ && text@ != "Link=>Forum"@ ==> r.is_none(),
    {
        proof {
            reveal_strlit("Link=>Catalog");
            reveal_strlit("Link=>Forum");
            assert("Link=>Catalog"@[6] != "Link=>Forum"@[6]);
        }
        if str_eq(text, "Link=>Catalog") {
            Some(255)
        } else if str_eq(text, "Link=>Forum") {
            Some(254)
        } else {
            None
        }
    }
}

/// Decoding a type byte gives back the application type it encodes, for
/// every type whose byte is not one of the two reserved ones.
pub proof fn lemma_app_type_byte_roundtrip(t: AppType)
    requires
        !(t matches AppType::Other(b) && (b == 255 || b == 254)),
    ensures
        AppType::spec_from(t.spec_byte()) == t,
{
}

/// Encoding the application type read from a byte gives back the byte.
pub proof fn lemma_app_type_from_roundtrip(b: u8)
    ensures
        AppType::spec_from(b).spec_byte() == b,
{
}

} // verus!
