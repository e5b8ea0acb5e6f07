//! Ids of courses and items, derived from their English names, and what an
//! id tells about its course or item.
use vstd::prelude::*;
use vstd::string::*;
use crate::text::{has_prefix, join2, lowercase, same_text, starts_with_text, to_lowercase, trim_char, trimmed};

verus! {

pub type CourseId = String;

pub type ItemId = String;

pub type ItemLvl = u8;

pub type ItemHash = String;

/// What `regex::Regex::new(pattern)` followed by `replace_all(haystack,
/// replacement)` gives: `None` when the pattern does not compile.
pub uninterp spec fn regex_replace_all(
    pattern: Seq<char>,
    haystack: Seq<char>,
    replacement: Seq<char>,
) -> Option<Seq<char>>;

/// What `regex::Regex::new(pattern)` followed by `captures(haystack)` and
/// `get(group)` gives: `None` when the pattern does not compile, `Some(None)`
/// when there is no match or the group took no part in it.
pub uninterp spec fn regex_capture(
    pattern: Seq<char>,
    haystack: Seq<char>,
    group: nat,
) -> Option<Option<Seq<char>>>;

/// Calls `regex::Regex::new` and `Regex::replace_all` of the `regex` crate.
/// The contract names the outcome: regex matching is deterministic, so it is
/// a function of the pattern, the text and the replacement; nothing more of
/// it is stated.
#[verifier::external_body]
pub(crate) fn replace_all_matches(pattern: &str, haystack: &str, replacement: &str) -> (r: Option<String>)
    ensures
        match r {
            Some(s) => regex_replace_all(pattern@, haystack@, replacement@) == Some(s@),
            None => regex_replace_all(pattern@, haystack@, replacement@) is None,
        },
{
    regex::Regex::new(pattern).ok().map(|re| re.replace_all(haystack, replacement).into_owned())
}

/// Calls `regex::Regex::new`, `Regex::captures` and `Captures::get` of the
/// `regex` crate. The contract names the outcome as a function of the
/// pattern, the text and the group number; nothing more of it is stated.
#[verifier::external_body]
pub(crate) fn capture_group(pattern: &str, haystack: &str, group: usize) -> (r: Option<Option<String>>)
    ensures
        match r {
            Some(Some(s)) => regex_capture(pattern@, haystack@, group as nat) == Some(Some(s@)),
            Some(None) => regex_capture(pattern@, haystack@, group as nat) == Some(
                None::<Seq<char>>,
            ),
            None => regex_capture(pattern@, haystack@, group as nat) is None,
        },
{
    regex::Regex::new(pattern).ok().map(
        |re| re.captures(haystack).and_then(|c| c.get(group)).map(|m| m.as_str().to_string()),
    )
}

/// The id part that a name gives: lower-cased, each run of characters other
/// than `a-z` and `0-9` replaced by `_`, and `_` trimmed from both ends.
pub open spec fn name_id(name: Seq<char>) -> Seq<char> {
    match regex_replace_all("[^a-z0-9]+"@, lowercase(name), "_"@) {
        Some(r) => trimmed(r, '_'),
        None => Seq::<char>::empty(),
    }
}

fn id_from_name(name: &str) -> (r: String)
    ensures
        r@ == name_id(name@),
{
    let lower = to_lowercase(name);
    match replace_all_matches("[^a-z0-9]+", lower.as_str(), "_") {
        Some(replaced) => trim_char(replaced.as_str(), '_'),
        None => String::new(),
    }
}

pub fn course_id_from_name(name: &str) -> (r: CourseId)
    ensures
        r@ == "c_"@ + name_id(name@),
{
    let id = id_from_name(name);
    join2("c_", id.as_str())
}

pub fn driver_id_from_name(name: &str) -> (r: ItemId)
    ensures
        r@ == "d_"@ + name_id(name@),
{
    let id = id_from_name(name);
    join2("d_", id.as_str())
}

pub fn kart_id_from_name(name: &str) -> (r: ItemId)
    ensures
        r@ == "k_"@ + name_id(name@),
{
    let id = id_from_name(name);
    join2("k_", id.as_str())
}

pub fn glider_id_from_name(name: &str) -> (r: ItemId)
    ensures
        r@ == "g_"@ + name_id(name@),
{
    let id = id_from_name(name);
    join2("g_", id.as_str())
}

#[derive(Debug, Copy, Clone, PartialEq, Eq, Hash, Structural)]
pub enum ItemType {
    Driver,
    Kart,
    Glider,
}

/// The id prefix of each item type.
pub open spec fn type_prefix(t: ItemType) -> Seq<char> {
    match t {
        ItemType::Driver => "d_"@,
        ItemType::Kart => "k_"@,
        ItemType::Glider => "g_"@,
    }
}

/// The id of the item of type `t` named `name`.
pub open spec fn item_id_of(name: Seq<char>, t: ItemType) -> Seq<char> {
    type_prefix(t) + name_id(name)
}

pub fn item_id_from_name(name: &str, i_type: ItemType) -> (r: ItemId)
    ensures
        r@ == item_id_of(name@, i_type),
{
    match i_type {
        ItemType::Driver => driver_id_from_name(name),
        ItemType::Kart => kart_id_from_name(name),
        ItemType::Glider => glider_id_from_name(name),
    }
}

/// The item type that an id's prefix names.
pub open spec fn item_type_of_id(id: Seq<char>) -> Option<ItemType> {
    if has_prefix(id, "d_"@) {
        Some(ItemType::Driver)
    } else if has_prefix(id, "k_"@) {
        Some(ItemType::Kart)
    } else if has_prefix(id, "g_"@) {
        Some(ItemType::Glider)
    } else {
        None
    }
}

pub fn item_type_from_id(id: &str) -> (r: Option<ItemType>)
    ensures
        r == item_type_of_id(id@),
{
    if starts_with_text(id, "d_") {
        Some(ItemType::Driver)
    } else if starts_with_text(id, "k_") {
        Some(ItemType::Kart)
    } else if starts_with_text(id, "g_") {
        Some(ItemType::Glider)
    } else {
        None
    }
}

impl ItemType {
    /// The lower-case word for the type.
    pub fn as_str(&self) -> (s: &'static str)
        ensures
            s@ == match *self {
                ItemType::Driver => "driver"@,
                ItemType::Kart => "kart"@,
                ItemType::Glider => "glider"@,
            },
    {
        match *self {
            ItemType::Driver => "driver",
            ItemType::Kart => "kart",
            ItemType::Glider => "glider",
        }
    }
}

#[derive(Debug, Copy, Clone, PartialEq, Eq, Structural)]
pub enum Rarity {
    Normal,
    Super,
    HighEnd,
}

/// The rarity that a lower-cased word names.
pub open spec fn rarity_of_word(w: Seq<char>) -> Option<Rarity> {
    if w == "normal"@ {
        Some(Rarity::Normal)
    } else if w == "super"@ {
        Some(Rarity::Super)
    } else if w == "high-end"@ {
        Some(Rarity::HighEnd)
    } else {
        None
    }
}

impl Rarity {
    /// Reads a rarity, whatever its letter case.
    pub fn try_from(value: &str) -> (r: Result<Rarity, ()>)
        ensures
            match rarity_of_word(lowercase(value@)) {
                Some(x) => r == Ok::<Rarity, ()>(x),
                None => r is Err,
            },
    {
        let lower = to_lowercase(value);
        Rarity::from_lowercase(lower.as_str())
    }

    /// Reads a rarity from an already lower-cased word.
    pub fn from_lowercase(w: &str) -> (r: Result<Rarity, ()>)
        ensures
            match rarity_of_word(w@) {
                Some(x) => r == Ok::<Rarity, ()>(x),
                None => r is Err,
            },
    {
        if same_text(w, "normal") {
            Ok(Rarity::Normal)
        } else if same_text(w, "super") {
            Ok(Rarity::Super)
        } else if same_text(w, "high-end") {
            Ok(Rarity::HighEnd)
        } else {
            Err(())
        }
    }
}

#[derive(Debug, Copy, Clone, PartialEq, Eq, Structural)]
pub enum CourseType {
    Normal,
    Reverse,
    Trick,
    ReverseTrick,
}

#[derive(Debug, Copy, Clone, PartialEq, Eq, Structural)]
pub enum CourseGeneration {
    New,
    Remix,
    SNES,
    N64,
    GBA,
    GCN,
    DS,
    Wii,
    _3DS,
}

/// The text of a capture, or the empty text when there is none.
pub open spec fn captured_text(c: Option<Option<Seq<char>>>) -> Seq<char> {
    match c {
        Some(Some(t)) => t,
        _ => Seq::<char>::empty(),
    }
}

/// The course type that the suffix captured from a course id names.
pub open spec fn course_type_of_suffix(t: Seq<char>) -> CourseType {
    if t == "r"@ {
        CourseType::Reverse
    } else if t == "t"@ {
        CourseType::Trick
    } else if t == "r_t"@ {
        CourseType::ReverseTrick
    } else {
        CourseType::Normal
    }
}

/// The course generation that the console tag captured from a course id
/// names.
pub open spec fn course_generation_of_tag(t: Seq<char>) -> CourseGeneration {
    if t == "rmx"@ {
        CourseGeneration::Remix
    } else if t == "snes"@ {
        CourseGeneration::SNES
    } else if t == "n64"@ {
        CourseGeneration::N64
    } else if t == "gba"@ {
        CourseGeneration::GBA
    } else if t == "gcn"@ {
        CourseGeneration::GCN
    } else if t == "ds"@ {
        CourseGeneration::DS
    } else if t == "wii"@ {
        CourseGeneration::Wii
    } else if t == "3ds"@ {
        CourseGeneration::_3DS
    } else {
        CourseGeneration::New
    }
}

/// The course type named by the suffix captured from a course id.
pub fn course_type_from_suffix(t: &str) -> (r: CourseType)
    ensures
        r == course_type_of_suffix(t@),
{
    if same_text(t, "r") {
        CourseType::Reverse
    } else if same_text(t, "t") {
        CourseType::Trick
    } else if same_text(t, "r_t") {
        CourseType::ReverseTrick
    } else {
        CourseType::Normal
    }
}

/// The course generation named by the console tag captured from a course id.
pub fn course_generation_from_tag(t: &str) -> (r: CourseGeneration)
    ensures
        r == course_generation_of_tag(t@),
{
    if same_text(t, "rmx") {
        CourseGeneration::Remix
    } else if same_text(t, "snes") {
        CourseGeneration::SNES
    } else if same_text(t, "n64") {
        CourseGeneration::N64
    } else if same_text(t, "gba") {
        CourseGeneration::GBA
    } else if same_text(t, "gcn") {
        CourseGeneration::GCN
    } else if same_text(t, "ds") {
        CourseGeneration::DS
    } else if same_text(t, "wii") {
        CourseGeneration::Wii
    } else if same_text(t, "3ds") {
        CourseGeneration::_3DS
    } else {
        CourseGeneration::New
    }
}

fn capture_or_empty(pattern: &str, id: &str) -> (r: String)
    ensures
        r@ == captured_text(regex_capture(pattern@, id@, 1)),
{
    match capture_group(pattern, id, 1) {
        Some(Some(t)) => t,
        _ => String::new(),
    }
}

/// The course type that a course id ends with (`r`, `t` or `r_t` after a
/// digit or `_`).
pub fn course_type_from_id(id: &str) -> (r: CourseType)
    ensures
        r == course_type_of_suffix(
            captured_text(regex_capture(r"[_\d](r|t|r_t)$"@, id@, 1)),
        ),
{
    let t = capture_or_empty(r"[_\d](r|t|r_t)$", id);
    course_type_from_suffix(t.as_str())
}

/// The course generation that a course id's console tag names.
pub fn course_generation_from_id(id: &str) -> (r: CourseGeneration)
    ensures
        r == course_generation_of_tag(
            captured_text(regex_capture(r"^c_(rmx|snes|n64|gba|gcn|ds|wii|3ds)_"@, id@, 1)),
        ),
{
    let t = capture_or_empty(r"^c_(rmx|snes|n64|gba|gcn|ds|wii|3ds)_", id);
    course_generation_from_tag(t.as_str())
}

/// The display title of each course generation.
pub open spec fn generation_title(g: CourseGeneration) -> Seq<char> {
    match g {
        CourseGeneration::New => "New Courses"@,
        CourseGeneration::Remix => "Remix"@,
        CourseGeneration::SNES => "Super Mario Kart (SNES)"@,
        CourseGeneration::N64 => "Mario Kart 64 (N64)"@,
        CourseGeneration::GBA => "Mario Kart: Super Circuit (GBA)"@,
        CourseGeneration::GCN => "Mario Kart: Double Dash!! (GCN)"@,
        CourseGeneration::DS => "Mario Kart DS (DS)"@,
        CourseGeneration::Wii => "Mario Kart Wii (Wii)"@,
        CourseGeneration::_3DS => "Mario Kart 7 (3DS)"@,
    }
}

impl CourseGeneration {
    pub fn to_string(&self) -> (s: String)
        ensures
            s@ == generation_title(*self),
    {
        match self {
            CourseGeneration::New => "New Courses".to_owned(),
            CourseGeneration::Remix => "Remix".to_owned(),
            CourseGeneration::SNES => "Super Mario Kart (SNES)".to_owned(),
            CourseGeneration::N64 => "Mario Kart 64 (N64)".to_owned(),
            CourseGeneration::GBA => "Mario Kart: Super Circuit (GBA)".to_owned(),
            CourseGeneration::GCN => "Mario Kart: Double Dash!! (GCN)".to_owned(),
            CourseGeneration::DS => "Mario Kart DS (DS)".to_owned(),
            CourseGeneration::Wii => "Mario Kart Wii (Wii)".to_owned(),
            CourseGeneration::_3DS => "Mario Kart 7 (3DS)".to_owned(),
        }
    }
}

} // verus!
