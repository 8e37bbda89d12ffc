//! A name taken from a path (its file name or extension), handed out as
//! text.
use vstd::prelude::*;

verus! {

#[derive(Clone, Debug)]
pub struct ToCow {
    name: String,
}

impl ToCow {
    pub fn new(name: String) -> (r: Self)
        ensures
            r.text() == name@,
    {
        ToCow { name }
    }

    pub closed spec fn text(&self) -> Seq<char> {
        self.name@
    }

    /// The name; it is always valid text.
    pub fn to_str(&self) -> (r: Option<&str>)
        ensures
            r matches Some(s) && s@ == self.text(),
    {
        Some(self.name.as_str())
    }

    /// The name, with nothing to replace.
    pub fn to_string_lossy(&self) -> (r: &str)
        ensures
            r@ == self.text(),
    {
        self.name.as_str()
    }
}

} // verus!
