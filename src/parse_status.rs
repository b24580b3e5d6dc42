use vstd::prelude::*;

verus! {

/// Code of a geometry taken as it came.
pub const CODE_OK: u64 = 0;

/// Code of a geometry that became one line after its fragments were reordered.
pub const CODE_SORTED: u64 = 101;

/// Code of a geometry whose gaps were bridged within the tolerance.
pub const CODE_JOINED: u64 = 102;

/// Code of a geometry that was reordered and then had its gaps bridged.
pub const CODE_JOINED_SORTED: u64 = 103;

/// Code of a geometry that could not be healed.
pub const CODE_BROKEN: u64 = 501;

/// The text that goes with each status code.
pub open spec fn detail_of(code: u64) -> Seq<char> {
    if code == CODE_SORTED {
        "Sorted"@
    } else if code == CODE_JOINED {
        "Joined"@
    } else if code == CODE_JOINED_SORTED {
        "Joined Sorted"@
    } else if code == CODE_BROKEN {
        "Broken"@
    } else {
        Seq::empty()
    }
}

/// How a geometry was obtained: a code and a short text.
#[derive(Debug)]
pub struct ParseStatus {
    /// status code
    pub code: u64,
    /// details
    pub detail: String,
}

/// Raised when something cannot be parsed.
#[derive(Debug)]
pub struct ParseError;

impl ParseStatus {
    /// The status of the given code, with the text that goes with that code.
    pub open spec fn is(self, code: u64) -> bool {
        self.code == code && self.detail@ == detail_of(code)
    }

    pub fn new(code: u64, detail: &str) -> (r: Self)
        ensures
            r.code == code,
            r.detail@ == detail@,
    {
        ParseStatus { code, detail: String::from_str(detail) }
    }

    pub fn ok() -> (r: Self)
        ensures
            r.is(CODE_OK),
            r.detail@.len() == 0,
    {
        ParseStatus { code: CODE_OK, detail: String::new() }
    }

    pub fn sorted() -> (r: Self)
        ensures
            r.is(CODE_SORTED),
    {
        Self::new(CODE_SORTED, "Sorted")
    }

    pub fn joined() -> (r: Self)
        ensures
            r.is(CODE_JOINED),
    {
        Self::new(CODE_JOINED, "Joined")
    }

    pub fn joined_sorted() -> (r: Self)
        ensures
            r.is(CODE_JOINED_SORTED),
    {
        Self::new(CODE_JOINED_SORTED, "Joined Sorted")
    }

    pub fn broken() -> (r: Self)
        ensures
            r.is(CODE_BROKEN),
    {
        Self::new(CODE_BROKEN, "Broken")
    }
}

} // verus!
