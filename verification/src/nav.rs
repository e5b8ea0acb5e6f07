//! The pages of the inventory application and the location hashes that
//! lead to them.
use vstd::prelude::*;
use crate::text::same_text;

verus! {

/// A page of the application.
#[derive(Debug, Copy, Clone, PartialEq, Eq, Structural)]
pub enum Page {
    Main,
    Courses,
    Items,
    ImportExpot,
    DataManager,
}

/// The page that a location hash names; the main page for any other hash.
pub open spec fn page_of(s: Seq<char>) -> Page {
    if s == "#courses"@ {
        Page::Courses
    } else if s == "#items"@ || s == "#items/drivers"@ || s == "#items/karts"@ || s
        == "#items/gliders"@ {
        Page::Items
    } else if s == "#import"@ {
        Page::ImportExpot
    } else if s == "#data"@ {
        Page::DataManager
    } else {
        Page::Main
    }
}

impl Page {
    /// The page that a location hash names.
    pub fn from(s: String) -> (p: Page)
        ensures
            p == page_of(s@),
    {
        let h = s.as_str();
        if same_text(h, "#courses") {
            Page::Courses
        } else if same_text(h, "#items") || same_text(h, "#items/drivers") || same_text(
            h,
            "#items/karts",
        ) || same_text(h, "#items/gliders") {
            Page::Items
        } else if same_text(h, "#import") {
            Page::ImportExpot
        } else if same_text(h, "#data") {
            Page::DataManager
        } else {
            Page::Main
        }
    }
}

} // verus!
