//! Extension manifests (`manifest.toml`): the extension's name, version,
//! API version, declared datatypes and hooks, dependencies and URI paths.
use vstd::prelude::*;
use crate::ext_api::error::ExtError;
use crate::text::{chars_of, concat2};

verus! {

/// A URI path that an extension declares.
#[derive(Debug, Clone)]
pub struct UriPath {
    /// The pattern, such as `/r/{room_id}/m/{ref_id}/reactions`.
    pub pattern: String,
    pub description: String,
}

/// The parsed manifest of an extension.
#[derive(Debug)]
pub struct ExtensionManifest {
    pub name: String,
    pub version: String,
    /// The engine API version the extension was built against.
    pub api_version: u32,
    pub datatype_declarations: Vec<String>,
    pub hook_declarations: Vec<String>,
    /// Names of the extensions (or built-in datatypes) it depends on.
    pub ext_dependencies: Vec<String>,
    pub uri_paths: Vec<UriPath>,
}

/// Why a decimal number did not parse.
#[derive(Debug, Clone, Copy, PartialEq, Eq, Structural)]
pub enum IntParseError {
    /// The text is empty.
    Empty,
    /// A character is not a decimal digit.
    InvalidDigit,
    /// The value does not fit.
    PosOverflow,
}

impl IntParseError {
    /// The standard description of the failure.
    pub open spec fn spec_message(self) -> Seq<char> {
        match self {
            IntParseError::Empty => "cannot parse integer from empty string"@,
            IntParseError::InvalidDigit => "invalid digit found in string"@,
            IntParseError::PosOverflow => "number too large to fit in target type"@,
        }
    }

    /// The standard description of the failure.
    pub fn message(self) -> (m: &'static str)
        ensures
            m@ == self.spec_message(),
    {
        match self {
            IntParseError::Empty => "cannot parse integer from empty string",
            IntParseError::InvalidDigit => "invalid digit found in string",
            IntParseError::PosOverflow => "number too large to fit in target type",
        }
    }
}

/// `c` is one of `0` to `9`.
pub open spec fn is_digit(c: char) -> bool {
    '0' <= c <= '9'
}

/// The value of the digit character `c`.
pub open spec fn digit_value(c: char) -> nat {
    (c as int - '0' as int) as nat
}

/// The value of a sequence of decimal digits.
pub open spec fn digits_value(s: Seq<char>) -> nat
    decreases s.len(),
{
    if s.len() == 0 {
        0
    } else {
        digits_value(s.drop_last()) * 10 + digit_value(s.last())
    }
}

/// The digits after an optional leading `+`.
pub open spec fn unsigned_digits(s: Seq<char>) -> Seq<char> {
    if s.len() > 0 && s[0] == '+' { s.drop_first() } else { s }
}

/// The first `m + 1` characters of `t` are digits whose value exceeds `u32::MAX`.
pub open spec fn overflows_at(t: Seq<char>, m: int) -> bool {
    &&& 0 <= m < t.len()
    &&& forall|j: int| 0 <= j <= m ==> is_digit(#[trigger] t[j])
    &&& digits_value(t.take(m + 1)) > u32::MAX
}

/// Parsing `s` as a `u32` in decimal, read left to right: an optional `+`,
/// then digits; a lone sign or a non-digit is an invalid digit, unless the
/// digits before it already exceed `u32::MAX`.
pub open spec fn parse_u32(s: Seq<char>) -> Result<u32, IntParseError> {
    let t = unsigned_digits(s);
    if s.len() == 0 {
        Err(IntParseError::Empty)
    } else if s.len() == 1 && (s[0] == '+' || s[0] == '-') {
        Err(IntParseError::InvalidDigit)
    } else if exists|m: int| overflows_at(t, m) {
        Err(IntParseError::PosOverflow)
    } else if exists|k: int| 0 <= k < t.len() && !is_digit(t[k]) {
        Err(IntParseError::InvalidDigit)
    } else {
        Ok(digits_value(t) as u32)
    }
}

/// Parses a decimal `u32`, as `str::parse::<u32>` does.
pub fn parse_u32_decimal(s: &str) -> (r: Result<u32, IntParseError>)
    ensures
        r == parse_u32(s@),
{
    let cs = chars_of(s);
    if cs.len() == 0 {
        return Err(IntParseError::Empty);
    }
    if cs.len() == 1 && (cs[0] == '+' || cs[0] == '-') {
        return Err(IntParseError::InvalidDigit);
    }
    let start: usize = if cs[0] == '+' { 1 } else { 0 };
    let ghost t = unsigned_digits(s@);
    assert(t == cs@.skip(start as int));
    let mut acc: u64 = 0;
    let mut i: usize = start;
    while i < cs.len()
        invariant
            cs@ == s@,
            s@.len() > 0,
            !(s@.len() == 1 && (s@[0] == '+' || s@[0] == '-')),
            t == unsigned_digits(s@),
            start <= i <= cs@.len(),
            start <= 1,
            t == cs@.skip(start as int),
            forall|j: int| 0 <= j < i - start ==> is_digit(#[trigger] t[j]),
            acc == digits_value(t.take(i - start)),
            acc <= u32::MAX,
            forall|m: int| 0 <= m < i - start ==> !overflows_at(t, m),
        decreases cs@.len() - i,
    {
        let c = cs[i];
        let ghost k = i - start;
        assert(t[k] == c);
        if !('0' <= c && c <= '9') {
            proof {
                assert forall|m: int| !overflows_at(t, m) by {
                    if overflows_at(t, m) {
                        if m >= k {
                            assert(is_digit(t[k]));
                        }
                    }
                }
            }
            assert(!is_digit(t[k]));
            return Err(IntParseError::InvalidDigit);
        }
        let d = (c as u32 - '0' as u32) as u64;
        assert(t.take(k + 1).drop_last() == t.take(k));
        assert(t.take(k + 1).last() == c);
        let next = acc * 10 + d;
        if next > 4294967295u64 {
            proof {
                assert(overflows_at(t, k));
            }
            return Err(IntParseError::PosOverflow);
        }
        acc = next;
        i = i + 1;
    }
    proof {
        assert(t.take(t.len() as int) == t);
        assert forall|m: int| !overflows_at(t, m) by {
            if overflows_at(t, m) {
                assert(m < i - start);
            }
        }
    }
    Ok(acc as u32)
}

/// The api version text of a manifest as a number; text that does not
/// parse gives `ManifestParse` with "invalid api_version: " and the reason.
pub fn parse_api_version(text: &str) -> (r: Result<u32, ExtError>)
    ensures
        match parse_u32(text@) {
            Ok(v) => r == Ok::<u32, ExtError>(v),
            Err(e) => r matches Err(ExtError::ManifestParse(m)) && m@ == "invalid api_version: "@ + e.spec_message(),
        },
{
    match parse_u32_decimal(text) {
        Ok(v) => Ok(v),
        Err(e) => Err(ExtError::ManifestParse(concat2("invalid api_version: ", e.message()))),
    }
}

/// `Some(v)`'s vector, or an empty one.
fn or_empty<T>(v: Option<Vec<T>>) -> (r: Vec<T>)
    ensures
        r@ == match v {
            Some(x) => x@,
            None => Seq::empty(),
        },
{
    match v {
        Some(x) => x,
        None => Vec::new(),
    }
}

impl ExtensionManifest {
    /// A manifest from the fields of `manifest.toml`: the `[extension]`
    /// name, version and api version text, and the optional lists, where a
    /// missing list is empty. An api version that is not a decimal `u32`
    /// gives `ManifestParse`.
    pub fn from_parts(
        name: String,
        version: String,
        api_version: &str,
        datatype_declarations: Option<Vec<String>>,
        hook_declarations: Option<Vec<String>>,
        ext_dependencies: Option<Vec<String>>,
        uri_paths: Option<Vec<UriPath>>,
    ) -> (r: Result<ExtensionManifest, ExtError>)
        ensures
            match parse_u32(api_version@) {
                Ok(v) => r matches Ok(m) && {
                    &&& m.name == name
                    &&& m.version == version
                    &&& m.api_version == v
                    &&& m.datatype_declarations@ == (match datatype_declarations { Some(x) => x@, None => Seq::empty() })
                    &&& m.hook_declarations@ == (match hook_declarations { Some(x) => x@, None => Seq::empty() })
                    &&& m.ext_dependencies@ == (match ext_dependencies { Some(x) => x@, None => Seq::empty() })
                    &&& m.uri_paths@ == (match uri_paths { Some(x) => x@, None => Seq::empty() })
                },
                Err(e) => r matches Err(ExtError::ManifestParse(m)) && m@ == "invalid api_version: "@ + e.spec_message(),
            },
    {
        let v = match parse_api_version(api_version) {
            Ok(v) => v,
            Err(e) => return Err(e),
        };
        Ok(ExtensionManifest {
            name,
            version,
            api_version: v,
            datatype_declarations: or_empty(datatype_declarations),
            hook_declarations: or_empty(hook_declarations),
            ext_dependencies: or_empty(ext_dependencies),
            uri_paths: or_empty(uri_paths),
        })
    }
}

} // verus!
