use vstd::prelude::*;

verus! {

/// A string that the library hands out as an owned value, such as the value
/// of an attribute.
pub struct XmlString {
    s: String,
}

impl View for XmlString {
    type V = Seq<char>;

    closed spec fn view(&self) -> Seq<char> {
        self.s@
    }
}

/// An optional owned string seen as an option of character sequences.
pub open spec fn xs_opt(o: Option<XmlString>) -> Option<Seq<char>> {
    match o {
        Some(x) => Some(x@),
        None => None,
    }
}

impl XmlString {
    pub(crate) fn new(s: String) -> (r: XmlString)
        ensures
            r@ == s@,
    {
        XmlString { s }
    }

    /// The string's text.
    pub fn as_str(&self) -> (r: &str)
        ensures
            r@ == self@,
    {
        self.s.as_str()
    }

    /// The string's text, as an owned `String`.
    pub fn to_string(&self) -> (r: String)
        ensures
            r@ == self@,
    {
        self.s.clone()
    }

    /// Compares the string with a `&str`.
    pub fn eq_str(&self, other: &str) -> (r: bool)
        ensures
            r == (self@ == other@),
    {
        let o = other.to_owned();
        self.s == o
    }

    /// Compares two strings.
    pub fn eq(&self, other: &XmlString) -> (r: bool)
        ensures
            r == (self@ == other@),
    {
        self.s == other.s
    }
}

} // verus!
