use vstd::prelude::*;

verus! {

/// The two document formats that the parsers read.
#[derive(Clone, Copy, Debug, PartialEq, Eq, Structural)]
pub enum ParseFormat {
    Xml,
    Html,
}

/// Options for the XML parser, as libxml2's bit set of `xmlParserOption`.
#[derive(Clone, Copy)]
pub struct XmlParserOptions(pub i32);

/// Options for the HTML parser, as libxml2's bit set of `htmlParserOption`.
#[derive(Clone, Copy)]
pub struct HtmlParserOptions(pub i32);

impl Default for XmlParserOptions {
    fn default() -> (r: XmlParserOptions)
        ensures
            r.0 == 0,
    {
        XmlParserOptions(0)
    }
}

impl Default for HtmlParserOptions {
    fn default() -> (r: HtmlParserOptions)
        ensures
            r.0 == 0,
    {
        HtmlParserOptions(0)
    }
}

} // verus!
