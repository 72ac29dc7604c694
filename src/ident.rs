use vstd::prelude::*;

verus! {

/// The name of a loaded voice model. Two identifiers are the same exactly when
/// their strings are the same: no case folding or trimming is done.
#[derive(Clone, Debug)]
pub struct TTSIdent(String);

impl View for TTSIdent {
    type V = Seq<char>;

    closed spec fn view(&self) -> Seq<char> {
        self.0@
    }
}

impl TTSIdent {
    /// Makes an identifier that holds exactly the characters of `s`.
    pub fn new(s: &str) -> (r: TTSIdent)
        ensures
            r@ == s@,
    {
        TTSIdent(s.to_owned())
    }

    /// The identifier's characters.
    pub fn as_str(&self) -> (r: &str)
        ensures
            r@ == self@,
    {
        self.0.as_str()
    }

    /// The identifier as an owned string.
    pub fn to_string(&self) -> (r: String)
        ensures
            r@ == self@,
    {
        self.0.clone()
    }

    /// A copy of the identifier with the same characters.
    pub fn copy(&self) -> (r: TTSIdent)
        ensures
            r@ == self@,
    {
        TTSIdent(self.0.clone())
    }
}

impl PartialEq for TTSIdent {
    fn eq(&self, o: &TTSIdent) -> (r: bool)
        ensures
            r == (self@ == o@),
    {
        self.0 == o.0
    }
}

impl vstd::std_specs::cmp::PartialEqSpecImpl for TTSIdent {
    open spec fn obeys_eq_spec() -> bool {
        true
    }

    closed spec fn eq_spec(&self, o: &TTSIdent) -> bool {
        self@ == o@
    }
}

impl Eq for TTSIdent {
}

impl From<String> for TTSIdent {
    fn from(value: String) -> (r: TTSIdent)
        ensures
            r@ == value@,
    {
        TTSIdent(value)
    }
}

impl vstd::std_specs::convert::FromSpecImpl<String> for TTSIdent {
    open spec fn obeys_from_spec() -> bool {
        true
    }

    closed spec fn from_spec(v: String) -> TTSIdent {
        TTSIdent(v)
    }
}

} // verus!
