//! Courses, items and owned items, and how a newer record is merged into an
//! older one.
use vstd::prelude::*;
use crate::ids::{
    course_id_from_name, item_id_from_name, item_id_of, name_id, CourseId, ItemId, ItemLvl,
    ItemType, Rarity,
};
use crate::text::{copy_texts, same_text, same_texts, views};

verus! {

/// A point in time in UTC: seconds since the Unix epoch and the nanoseconds
/// within that second.
#[derive(Debug, Copy, Clone, PartialEq, Eq, PartialOrd, Ord, Hash, Structural)]
pub struct Timestamp {
    pub secs: i64,
    pub nanos: u32,
}

/// Reads the clock through `chrono::Utc::now` and splits the instant into
/// seconds and nanoseconds. Nothing is promised of the value.
#[verifier::external_body]
pub(crate) fn utc_now() -> (t: Timestamp) {
    let now = chrono::Utc::now();
    Timestamp { secs: now.timestamp(), nanos: now.timestamp_subsec_nanos() }
}

/// A record that names an id and a level: an item that a course favors, or
/// a course that an item is favored on.
pub trait IdLevel: View<V = (Seq<char>, u8)> + Sized {
    fn id_text(&self) -> (r: &str)
        ensures
            r@ == self@.0,
    ;

    fn level(&self) -> (r: u8)
        ensures
            r == self@.1,
    ;

    fn duplicate(&self) -> (r: Self)
        ensures
            r@ == self@,
    ;
}

/// An item favored on a course from the given level on.
#[derive(Debug, Clone)]
pub struct ItemRequirement {
    pub id: ItemId,
    pub lvl: ItemLvl,
}

/// A course on which an item is favored from the given level on.
#[derive(Debug, Clone)]
pub struct CourseAvailability {
    pub id: CourseId,
    pub lvl: ItemLvl,
}

impl View for ItemRequirement {
    type V = (Seq<char>, u8);

    open spec fn view(&self) -> (Seq<char>, u8) {
        (self.id@, self.lvl)
    }
}

impl View for CourseAvailability {
    type V = (Seq<char>, u8);

    open spec fn view(&self) -> (Seq<char>, u8) {
        (self.id@, self.lvl)
    }
}

impl IdLevel for ItemRequirement {
    fn id_text(&self) -> (r: &str) {
        self.id.as_str()
    }

    fn level(&self) -> (r: u8) {
        self.lvl
    }

    fn duplicate(&self) -> (r: Self) {
        ItemRequirement { id: self.id.clone(), lvl: self.lvl }
    }
}

impl IdLevel for CourseAvailability {
    fn id_text(&self) -> (r: &str) {
        self.id.as_str()
    }

    fn level(&self) -> (r: u8) {
        self.lvl
    }

    fn duplicate(&self) -> (r: Self) {
        CourseAvailability { id: self.id.clone(), lvl: self.lvl }
    }
}

impl ItemRequirement {
    pub fn from(pair: (ItemId, ItemLvl)) -> (r: Self)
        ensures
            r@ == (pair.0@, pair.1),
    {
        ItemRequirement { id: pair.0, lvl: pair.1 }
    }
}

impl CourseAvailability {
    pub fn from(pair: (CourseId, ItemLvl)) -> (r: Self)
        ensures
            r@ == (pair.0@, pair.1),
    {
        CourseAvailability { id: pair.0, lvl: pair.1 }
    }
}

/// The set of (id, level) pairs that a list holds.
pub open spec fn pair_set<T: View<V = (Seq<char>, u8)>>(s: Seq<T>) -> Set<(Seq<char>, u8)> {
    Set::new(|x: (Seq<char>, u8)| exists|i: int| 0 <= i < s.len() && s[i]@ == x)
}

pub proof fn lemma_pair_set_empty<T: View<V = (Seq<char>, u8)>>(s: Seq<T>)
    ensures
        (pair_set(s) == Set::<(Seq<char>, u8)>::empty()) <==> s.len() == 0,
{
    if s.len() > 0 {
        assert(pair_set(s).contains(s[0]@));
    } else {
        assert(pair_set(s) =~= Set::<(Seq<char>, u8)>::empty());
    }
}

/// Whether `v` holds the pair `x`.
pub fn holds_pair<T: IdLevel>(v: &Vec<T>, x: &T) -> (r: bool)
    ensures
        r == pair_set(v@).contains(x@),
{
    let mut i: usize = 0;
    while i < v.len()
        invariant
            i <= v.len(),
            forall|j: int| 0 <= j < i ==> v@[j]@ != x@,
        decreases v.len() - i,
    {
        if v[i].level() == x.level() && same_text(v[i].id_text(), x.id_text()) {
            assert(v@[i as int]@ == x@);
            return true;
        }
        i = i + 1;
    }
    false
}

/// Whether every pair of `a` is in `b`.
pub fn pairs_within<T: IdLevel>(a: &Vec<T>, b: &Vec<T>) -> (r: bool)
    ensures
        r == pair_set(a@).subset_of(pair_set(b@)),
{
    let mut i: usize = 0;
    while i < a.len()
        invariant
            i <= a.len(),
            forall|j: int| 0 <= j < i ==> pair_set(b@).contains(#[trigger] a@[j]@),
        decreases a.len() - i,
    {
        if !holds_pair(b, &a[i]) {
            assert(pair_set(a@).contains(a@[i as int]@));
            return false;
        }
        i = i + 1;
    }
    true
}

/// Whether two lists hold the same set of pairs.
pub fn same_pairs<T: IdLevel>(a: &Vec<T>, b: &Vec<T>) -> (r: bool)
    ensures
        r == (pair_set(a@) == pair_set(b@)),
{
    let ab = pairs_within(a, b);
    let ba = pairs_within(b, a);
    proof {
        if ab && ba {
            assert(pair_set(a@) =~= pair_set(b@));
        }
    }
    ab && ba
}

/// A copy of a list of pairs.
pub fn copy_pairs<T: IdLevel>(a: &Vec<T>) -> (r: Vec<T>)
    ensures
        r@.len() == a@.len(),
        forall|i: int| 0 <= i < a@.len() ==> r@[i]@ == a@[i]@,
        pair_set(r@) == pair_set(a@),
{
    let mut r: Vec<T> = Vec::new();
    let mut i: usize = 0;
    while i < a.len()
        invariant
            i <= a.len(),
            r@.len() == i,
            forall|j: int| 0 <= j < i ==> r@[j]@ == a@[j]@,
        decreases a.len() - i,
    {
        r.push(a[i].duplicate());
        i = i + 1;
    }
    assert(pair_set(r@) =~= pair_set(a@));
    r
}

/// A record that a newer record of the same kind can be merged into.
pub trait Mergeable: View + Sized {
    /// What merging `new` into `old` gives.
    spec fn merge_view(old: Self::V, new: Self::V) -> Self::V;

    fn merge(&mut self, new: Self)
        ensures
            final(self)@ == Self::merge_view(old(self)@, new@),
    ;
}

pub struct CourseView {
    pub sort: Option<u32>,
    pub id: Seq<char>,
    pub name: Seq<char>,
    pub favorite_items: Set<(Seq<char>, u8)>,
    pub last_changed: Option<Timestamp>,
}

#[derive(Debug, Clone)]
pub struct Course {
    pub sort: Option<u32>,
    pub id: CourseId,
    pub name: String,
    pub favorite_items: Vec<ItemRequirement>,
    pub last_changed: Option<Timestamp>,
}

impl View for Course {
    type V = CourseView;

    open spec fn view(&self) -> CourseView {
        CourseView {
            sort: self.sort,
            id: self.id@,
            name: self.name@,
            favorite_items: pair_set(self.favorite_items@),
            last_changed: self.last_changed,
        }
    }
}

/// Whether a newer sort key replaces the old one: it is given and differs.
pub open spec fn sort_replaces(old: Option<u32>, new: Option<u32>) -> bool {
    new is Some && old != new
}

/// Whether a newer text replaces the old one: it is not empty and differs.
pub open spec fn text_replaces(old: Seq<char>, new: Seq<char>) -> bool {
    new.len() > 0 && old != new
}

/// Whether a newer set replaces the old one: it is not empty and differs.
pub open spec fn set_replaces(old: Set<(Seq<char>, u8)>, new: Set<(Seq<char>, u8)>) -> bool {
    new != Set::<(Seq<char>, u8)>::empty() && old != new
}

/// Whether a newer hash list replaces the old one: it is not empty and
/// differs.
pub open spec fn list_replaces(old: Seq<Seq<char>>, new: Seq<Seq<char>>) -> bool {
    new.len() > 0 && old != new
}

/// Course `new` merged into `old`: each field given by `new` that differs
/// replaces the old one, and if any did, `new`'s change date is taken.
pub open spec fn course_merged(old: CourseView, new: CourseView) -> CourseView {
    let s = sort_replaces(old.sort, new.sort);
    let i = text_replaces(old.id, new.id);
    let n = text_replaces(old.name, new.name);
    let f = set_replaces(old.favorite_items, new.favorite_items);
    CourseView {
        sort: if s { new.sort } else { old.sort },
        id: if i { new.id } else { old.id },
        name: if n { new.name } else { old.name },
        favorite_items: if f { new.favorite_items } else { old.favorite_items },
        last_changed: if s || i || n || f { new.last_changed } else { old.last_changed },
    }
}

fn option_u32_differs(a: Option<u32>, b: Option<u32>) -> (r: bool)
    ensures
        r == (a != b),
{
    match (a, b) {
        (Some(x), Some(y)) => x != y,
        (None, None) => false,
        _ => true,
    }
}

impl Course {
    /// A copy of the course.
    pub fn duplicate(&self) -> (r: Self)
        ensures
            r@ == self@,
    {
        Course {
            sort: self.sort,
            id: self.id.clone(),
            name: self.name.clone(),
            favorite_items: copy_pairs(&self.favorite_items),
            last_changed: self.last_changed,
        }
    }

    pub fn new(name: String, sort: Option<u32>) -> (c: Self)
        ensures
            c.sort == sort,
            c@.id == "c_"@ + name_id(name@),
            c.name@ == name@,
            c.favorite_items@.len() == 0,
            c.last_changed is Some,
    {
        let id = course_id_from_name(name.as_str());
        Course {
            sort,
            id,
            name,
            favorite_items: Vec::new(),
            last_changed: Some(utc_now()),
        }
    }
}

impl Mergeable for Course {
    open spec fn merge_view(old: CourseView, new: CourseView) -> CourseView {
        course_merged(old, new)
    }

    fn merge(&mut self, new: Course) {
        let Course { sort, id, name, favorite_items, last_changed } = new;
        let ghost new_view = CourseView {
            sort,
            id: id@,
            name: name@,
            favorite_items: pair_set(favorite_items@),
            last_changed,
        };
        proof {
            lemma_pair_set_empty(favorite_items@);
        }
        let mut changed = false;
        if sort.is_some() && option_u32_differs(self.sort, sort) {
            self.sort = sort;
            changed = true;
        }
        if !id.as_str().is_empty() && !same_text(self.id.as_str(), id.as_str()) {
            self.id = id;
            changed = true;
        }
        if !name.as_str().is_empty() && !same_text(self.name.as_str(), name.as_str()) {
            self.name = name;
            changed = true;
        }
        if favorite_items.len() != 0 && !same_pairs(&self.favorite_items, &favorite_items) {
            self.favorite_items = favorite_items;
            changed = true;
        }
        if changed {
            self.last_changed = last_changed;
        }
        proof {
            let want = course_merged(old(self)@, new_view);
            assert(self@.favorite_items =~= want.favorite_items);
        }
    }
}

pub struct ItemView {
    pub sort: Option<u32>,
    pub id: Seq<char>,
    pub i_type: ItemType,
    pub name: Seq<char>,
    pub rarity: Rarity,
    pub favorite_courses: Set<(Seq<char>, u8)>,
    pub hashes: Seq<Seq<char>>,
    pub last_changed: Option<Timestamp>,
}

#[derive(Debug, Clone)]
pub struct Item {
    pub sort: Option<u32>,
    pub id: ItemId,
    pub i_type: ItemType,
    pub name: String,
    pub rarity: Rarity,
    pub favorite_courses: Vec<CourseAvailability>,
    pub hashes: Vec<String>,
    pub last_changed: Option<Timestamp>,
}

impl View for Item {
    type V = ItemView;

    open spec fn view(&self) -> ItemView {
        ItemView {
            sort: self.sort,
            id: self.id@,
            i_type: self.i_type,
            name: self.name@,
            rarity: self.rarity,
            favorite_courses: pair_set(self.favorite_courses@),
            hashes: views(self.hashes@),
            last_changed: self.last_changed,
        }
    }
}

/// Item `new` merged into `old`: each field given by `new` that differs
/// replaces the old one (type and rarity are always given), and if any did,
/// `new`'s change date is taken.
pub open spec fn item_merged(old: ItemView, new: ItemView) -> ItemView {
    let s = sort_replaces(old.sort, new.sort);
    let i = text_replaces(old.id, new.id);
    let t = old.i_type != new.i_type;
    let n = text_replaces(old.name, new.name);
    let r = old.rarity != new.rarity;
    let f = set_replaces(old.favorite_courses, new.favorite_courses);
    let h = list_replaces(old.hashes, new.hashes);
    ItemView {
        sort: if s { new.sort } else { old.sort },
        id: if i { new.id } else { old.id },
        i_type: new.i_type,
        name: if n { new.name } else { old.name },
        rarity: new.rarity,
        favorite_courses: if f { new.favorite_courses } else { old.favorite_courses },
        hashes: if h { new.hashes } else { old.hashes },
        last_changed: if s || i || t || n || r || f || h {
            new.last_changed
        } else {
            old.last_changed
        },
    }
}

impl Item {
    pub fn new(i_type: ItemType, rarity: Rarity, name: String, sort: Option<u32>) -> (it: Self)
        ensures
            it.sort == sort,
            it@.id == item_id_of(name@, i_type),
            it.i_type == i_type,
            it.name@ == name@,
            it.rarity == rarity,
            it.favorite_courses@.len() == 0,
            it.hashes@.len() == 0,
            it.last_changed is Some,
    {
        let id = item_id_from_name(name.as_str(), i_type);
        Item {
            sort,
            id,
            i_type,
            name,
            rarity,
            favorite_courses: Vec::new(),
            hashes: Vec::new(),
            last_changed: Some(utc_now()),
        }
    }

    /// A copy of the item.
    pub fn duplicate(&self) -> (r: Self)
        ensures
            r@ == self@,
    {
        Item {
            sort: self.sort,
            id: self.id.clone(),
            i_type: self.i_type,
            name: self.name.clone(),
            rarity: self.rarity,
            favorite_courses: copy_pairs(&self.favorite_courses),
            hashes: copy_texts(&self.hashes),
            last_changed: self.last_changed,
        }
    }
}

impl Mergeable for Item {
    open spec fn merge_view(old: ItemView, new: ItemView) -> ItemView {
        item_merged(old, new)
    }

    fn merge(&mut self, new: Item) {
        let Item { sort, id, i_type, name, rarity, favorite_courses, hashes, last_changed } = new;
        let ghost new_view = ItemView {
            sort,
            id: id@,
            i_type,
            name: name@,
            rarity,
            favorite_courses: pair_set(favorite_courses@),
            hashes: views(hashes@),
            last_changed,
        };
        proof {
            lemma_pair_set_empty(favorite_courses@);
        }
        let mut changed = false;
        if sort.is_some() && option_u32_differs(self.sort, sort) {
            self.sort = sort;
            changed = true;
        }
        if !id.as_str().is_empty() && !same_text(self.id.as_str(), id.as_str()) {
            self.id = id;
            changed = true;
        }
        if self.i_type != i_type {
            self.i_type = i_type;
            changed = true;
        }
        if !name.as_str().is_empty() && !same_text(self.name.as_str(), name.as_str()) {
            self.name = name;
            changed = true;
        }
        if self.rarity != rarity {
            self.rarity = rarity;
            changed = true;
        }
        if favorite_courses.len() != 0 && !same_pairs(&self.favorite_courses, &favorite_courses) {
            self.favorite_courses = favorite_courses;
            changed = true;
        }
        if hashes.len() != 0 && !same_texts(&self.hashes, &hashes) {
            self.hashes = hashes;
            changed = true;
        }
        if changed {
            self.last_changed = last_changed;
        }
        proof {
            let want = item_merged(old(self)@, new_view);
            assert(self@.favorite_courses =~= want.favorite_courses);
            assert(self@.hashes =~= want.hashes);
        }
    }
}

pub struct OwnedItemView {
    pub id: Seq<char>,
    pub lvl: u8,
    pub points: u16,
    pub added: Option<Timestamp>,
    pub last_changed: Option<Timestamp>,
}

/// An item of the player's inventory, with its level and points.
#[derive(Debug, Clone)]
pub struct OwnedItem {
    pub id: ItemId,
    pub lvl: ItemLvl,
    pub points: u16,
    pub added: Option<Timestamp>,
    pub last_changed: Option<Timestamp>,
}

impl View for OwnedItem {
    type V = OwnedItemView;

    open spec fn view(&self) -> OwnedItemView {
        OwnedItemView {
            id: self.id@,
            lvl: self.lvl,
            points: self.points,
            added: self.added,
            last_changed: self.last_changed,
        }
    }
}

/// Owned item `new` merged into `old`: a non-empty differing id, and a
/// differing level or point count, replace the old ones; if any did, the
/// change date of `new` is taken, and its date of addition too when the old
/// record had none.
pub open spec fn owned_merged(old: OwnedItemView, new: OwnedItemView) -> OwnedItemView {
    let i = text_replaces(old.id, new.id);
    let l = old.lvl != new.lvl;
    let p = old.points != new.points;
    let changed = i || l || p;
    OwnedItemView {
        id: if i { new.id } else { old.id },
        lvl: new.lvl,
        points: new.points,
        added: if changed && old.added is None { new.added } else { old.added },
        last_changed: if changed { new.last_changed } else { old.last_changed },
    }
}

impl OwnedItem {
    /// A copy of the owned item.
    pub fn duplicate(&self) -> (r: Self)
        ensures
            r@ == self@,
    {
        OwnedItem {
            id: self.id.clone(),
            lvl: self.lvl,
            points: self.points,
            added: self.added,
            last_changed: self.last_changed,
        }
    }

    pub fn new(id: ItemId, lvl: ItemLvl, points: u16) -> (o: Self)
        ensures
            o.id@ == id@,
            o.lvl == lvl,
            o.points == points,
            o.added is Some,
            o.last_changed is Some,
    {
        let now = utc_now();
        OwnedItem { id, lvl, points, added: Some(now), last_changed: Some(now) }
    }
}

impl Mergeable for OwnedItem {
    open spec fn merge_view(old: OwnedItemView, new: OwnedItemView) -> OwnedItemView {
        owned_merged(old, new)
    }

    fn merge(&mut self, new: OwnedItem) {
        let OwnedItem { id, lvl, points, added, last_changed } = new;
        let mut changed = false;
        if !id.as_str().is_empty() && !same_text(self.id.as_str(), id.as_str()) {
            self.id = id;
            changed = true;
        }
        if self.lvl != lvl {
            self.lvl = lvl;
            changed = true;
        }
        if self.points != points {
            self.points = points;
            changed = true;
        }
        if changed {
            self.last_changed = last_changed;
            if self.added.is_none() {
                self.added = added;
            }
        }
    }
}

} // verus!
