//! The database joined with the inventory, and the coverage statistics of
//! each course and item.
use vstd::prelude::*;
use crate::ids::{item_type_from_id, item_type_of_id, CourseId, ItemId, ItemType};
use crate::data::{MktData, MktInventory};
use crate::keyed::{entries_map, find_key, has_key, key_index, keys_unique, take_key, upsert};
use crate::model::{
    Course, CourseAvailability, CourseView, IdLevel, Item, ItemRequirement, ItemView, OwnedItem,
    OwnedItemView,
};
use crate::text::same_text;

verus! {

/// How many items of each type a course favors, and how many of them the
/// player owns at the level the course asks for.
#[derive(Debug, Copy, Clone, PartialEq, Eq, Structural)]
pub struct CourseStats {
    pub driver_count: usize,
    pub kart_count: usize,
    pub glider_count: usize,
    pub driver_owned_count: usize,
    pub kart_owned_count: usize,
    pub glider_owned_count: usize,
}

/// On how many courses an item is favored at its owned level and at any
/// level, and on how many courses it would add coverage.
#[derive(Debug, Copy, Clone, PartialEq, Eq, Structural)]
pub struct ItemStats {
    pub fav_course_count: usize,
    pub max_fav_course_count: usize,
    pub add_course_count: usize,
    pub max_add_course_count: usize,
}

/// A course of the database with its statistics.
#[derive(Debug)]
pub struct DataInvCourse {
    pub data: Course,
    pub stats: Option<CourseStats>,
}

/// An item of the database with the player's record of it and its
/// statistics.
#[derive(Debug)]
pub struct DataInvItem {
    pub data: Item,
    pub inv: Option<OwnedItem>,
    pub stats: Option<ItemStats>,
}

/// The database joined with the inventory, each list keyed by id.
#[derive(Debug)]
pub struct DataInventory {
    pub courses: Vec<(CourseId, DataInvCourse)>,
    pub drivers: Vec<(ItemId, DataInvItem)>,
    pub karts: Vec<(ItemId, DataInvItem)>,
    pub gliders: Vec<(ItemId, DataInvItem)>,
}

impl View for DataInvCourse {
    type V = (CourseView, Option<CourseStats>);

    open spec fn view(&self) -> (CourseView, Option<CourseStats>) {
        (self.data@, self.stats)
    }
}

/// The view of an optional owned item.
pub open spec fn owned_view(o: Option<OwnedItem>) -> Option<OwnedItemView> {
    match o {
        Some(x) => Some(x@),
        None => None,
    }
}

impl View for DataInvItem {
    type V = (ItemView, Option<OwnedItemView>, Option<ItemStats>);

    open spec fn view(&self) -> (ItemView, Option<OwnedItemView>, Option<ItemStats>) {
        (self.data@, owned_view(self.inv), self.stats)
    }
}

/// Whether entry `i` of `s` is the first with its (id, level) pair.
pub open spec fn first_time<T: View>(s: Seq<T>, i: int) -> bool {
    forall|j: int| 0 <= j < i ==> #[trigger] s[j]@ != s[i]@
}

/// The level of an owned item, 0 when the item is not owned.
pub open spec fn inv_level(inv: Option<OwnedItem>) -> u8 {
    match inv {
        Some(o) => o.lvl,
        None => 0,
    }
}

/// The owned level of the item with id `k`, 0 when the list does not hold
/// it or it is not owned.
pub open spec fn owned_level(items: Seq<(String, DataInvItem)>, k: Seq<char>) -> u8 {
    if has_key(items, k) {
        inv_level(items[key_index(items, k)].1.inv)
    } else {
        0
    }
}

/// How many distinct requirements among the first `n` are items of type
/// `t` (by their id).
pub open spec fn needed(reqs: Seq<ItemRequirement>, n: int, t: ItemType) -> int
    decreases n,
{
    if n <= 0 {
        0
    } else {
        needed(reqs, n - 1, t) + if first_time(reqs, n - 1) && item_type_of_id(reqs[n - 1].id@)
            == Some(t) {
            1int
        } else {
            0int
        }
    }
}

/// How many of them the player owns at the required level or above, by
/// the owned levels of `items`.
pub open spec fn covered(
    reqs: Seq<ItemRequirement>,
    n: int,
    t: ItemType,
    items: Seq<(String, DataInvItem)>,
) -> int
    decreases n,
{
    if n <= 0 {
        0
    } else {
        covered(reqs, n - 1, t, items) + if first_time(reqs, n - 1) && item_type_of_id(
            reqs[n - 1].id@,
        ) == Some(t) && owned_level(items, reqs[n - 1].id@) >= reqs[n - 1].lvl {
            1int
        } else {
            0int
        }
    }
}

/// The statistics of a course with requirements `reqs`.
pub open spec fn course_stats_of(
    reqs: Seq<ItemRequirement>,
    drivers: Seq<(String, DataInvItem)>,
    karts: Seq<(String, DataInvItem)>,
    gliders: Seq<(String, DataInvItem)>,
) -> CourseStats {
    let n = reqs.len() as int;
    CourseStats {
        driver_count: needed(reqs, n, ItemType::Driver) as usize,
        kart_count: needed(reqs, n, ItemType::Kart) as usize,
        glider_count: needed(reqs, n, ItemType::Glider) as usize,
        driver_owned_count: covered(reqs, n, ItemType::Driver, drivers) as usize,
        kart_owned_count: covered(reqs, n, ItemType::Kart, karts) as usize,
        glider_owned_count: covered(reqs, n, ItemType::Glider, gliders) as usize,
    }
}

proof fn lemma_key_index_is<V>(s: Seq<(String, V)>, j: int)
    requires
        keys_unique(s),
        0 <= j < s.len(),
    ensures
        has_key(s, s[j].0@),
        key_index(s, s[j].0@) == j,
{
    assert(s[j].0@ == s[j].0@);
    let i = key_index(s, s[j].0@);
    assert(s[i].0@ == s[j].0@);
}

/// Whether an entry before `i` has the same (id, level) pair as entry `i`.
fn seen_before<T: IdLevel>(s: &Vec<T>, i: usize) -> (r: bool)
    requires
        i < s.len(),
    ensures
        r == !first_time(s@, i as int),
{
    let mut j: usize = 0;
    while j < i
        invariant
            i < s.len(),
            j <= i,
            forall|a: int| 0 <= a < j ==> #[trigger] s@[a]@ != s@[i as int]@,
        decreases i - j,
    {
        if s[j].level() == s[i].level() && same_text(s[j].id_text(), s[i].id_text()) {
            assert(s@[j as int]@ == s@[i as int]@);
            return true;
        }
        j = j + 1;
    }
    false
}

/// The owned level of the item with id `k` in `items`.
fn owned_level_in(items: &Vec<(ItemId, DataInvItem)>, k: &str) -> (r: u8)
    requires
        keys_unique(items@),
    ensures
        r == owned_level(items@, k@),
{
    match find_key(items, k) {
        Some(j) => {
            proof {
                lemma_key_index_is(items@, j as int);
            }
            match &items[j].1.inv {
                Some(o) => o.lvl,
                None => 0,
            }
        },
        None => 0,
    }
}

/// The statistics of a course with requirements `reqs`.
fn course_stats_for(
    reqs: &Vec<ItemRequirement>,
    drivers: &Vec<(ItemId, DataInvItem)>,
    karts: &Vec<(ItemId, DataInvItem)>,
    gliders: &Vec<(ItemId, DataInvItem)>,
) -> (s: CourseStats)
    requires
        keys_unique(drivers@),
        keys_unique(karts@),
        keys_unique(gliders@),
    ensures
        s == course_stats_of(reqs@, drivers@, karts@, gliders@),
{
    let mut driver_count: usize = 0;
    let mut kart_count: usize = 0;
    let mut glider_count: usize = 0;
    let mut driver_owned_count: usize = 0;
    let mut kart_owned_count: usize = 0;
    let mut glider_owned_count: usize = 0;
    let mut i: usize = 0;
    while i < reqs.len()
        invariant
            keys_unique(drivers@),
            keys_unique(karts@),
            keys_unique(gliders@),
            i <= reqs.len(),
            driver_count == needed(reqs@, i as int, ItemType::Driver),
            kart_count == needed(reqs@, i as int, ItemType::Kart),
            glider_count == needed(reqs@, i as int, ItemType::Glider),
            driver_owned_count == covered(reqs@, i as int, ItemType::Driver, drivers@),
            kart_owned_count == covered(reqs@, i as int, ItemType::Kart, karts@),
            glider_owned_count == covered(reqs@, i as int, ItemType::Glider, gliders@),
            driver_count + kart_count + glider_count <= i,
            driver_owned_count <= driver_count,
            kart_owned_count <= kart_count,
            glider_owned_count <= glider_count,
        decreases reqs.len() - i,
    {
        if !seen_before(reqs, i) {
            let r = &reqs[i];
            match item_type_from_id(r.id.as_str()) {
                Some(ItemType::Driver) => {
                    driver_count = driver_count + 1;
                    if owned_level_in(drivers, r.id.as_str()) >= r.lvl {
                        driver_owned_count = driver_owned_count + 1;
                    }
                },
                Some(ItemType::Kart) => {
                    kart_count = kart_count + 1;
                    if owned_level_in(karts, r.id.as_str()) >= r.lvl {
                        kart_owned_count = kart_owned_count + 1;
                    }
                },
                Some(ItemType::Glider) => {
                    glider_count = glider_count + 1;
                    if owned_level_in(gliders, r.id.as_str()) >= r.lvl {
                        glider_owned_count = glider_owned_count + 1;
                    }
                },
                None => {},
            }
        }
        i = i + 1;
    }
    CourseStats {
        driver_count,
        kart_count,
        glider_count,
        driver_owned_count,
        kart_owned_count,
        glider_owned_count,
    }
}

/// The owned count of a type in course statistics.
pub open spec fn owned_of(s: CourseStats, t: ItemType) -> usize {
    match t {
        ItemType::Driver => s.driver_owned_count,
        ItemType::Kart => s.kart_owned_count,
        ItemType::Glider => s.glider_owned_count,
    }
}

/// Whether an item of type `t` would add coverage on course `k`: unless the
/// course is known, has statistics and some item of that type already
/// covers it.
pub open spec fn course_addition(courses: Seq<(String, DataInvCourse)>, k: Seq<char>, t: ItemType) -> int {
    if has_key(courses, k) && (courses[key_index(courses, k)].1.stats matches Some(s) && owned_of(s, t)
        > 0) {
        0
    } else {
        1
    }
}

/// The four counters of item statistics.
pub struct ItemTally {
    pub fav: int,
    pub max_fav: int,
    pub add: int,
    pub max_add: int,
}

/// The counters over the first `n` distinct favored courses of an item of
/// type `t` owned at level `lvl` (0 when not owned): a course counts as
/// favored at the owned level when that level reaches the course's level;
/// for a course that is not, an item not owned adds coverage when the
/// course is favored from level 1 on, and may add coverage in any case.
pub open spec fn item_tally(
    favs: Seq<CourseAvailability>,
    n: int,
    lvl: u8,
    t: ItemType,
    courses: Seq<(String, DataInvCourse)>,
) -> ItemTally
    decreases n,
{
    if n <= 0 {
        ItemTally { fav: 0, max_fav: 0, add: 0, max_add: 0 }
    } else {
        let c = item_tally(favs, n - 1, lvl, t, courses);
        let r = favs[n - 1];
        if !first_time(favs, n - 1) {
            c
        } else {
            let add = course_addition(courses, r.id@, t);
            if lvl == 0 {
                ItemTally {
                    fav: c.fav,
                    max_fav: c.max_fav + 1,
                    add: c.add + if r.lvl == 1 {
                        add
                    } else {
                        0
                    },
                    max_add: c.max_add + add,
                }
            } else if lvl >= r.lvl {
                ItemTally { fav: c.fav + 1, max_fav: c.max_fav + 1, add: c.add, max_add: c.max_add }
            } else {
                ItemTally { fav: c.fav, max_fav: c.max_fav + 1, add: c.add, max_add: c.max_add + add }
            }
        }
    }
}

/// The statistics of an item of type `t` favored on `favs` and owned at
/// level `lvl`.
pub open spec fn item_stats_of(
    favs: Seq<CourseAvailability>,
    lvl: u8,
    t: ItemType,
    courses: Seq<(String, DataInvCourse)>,
) -> ItemStats {
    let c = item_tally(favs, favs.len() as int, lvl, t, courses);
    ItemStats {
        fav_course_count: c.fav as usize,
        max_fav_course_count: c.max_fav as usize,
        add_course_count: c.add as usize,
        max_add_course_count: c.max_add as usize,
    }
}

/// Whether an item of type `t` would add coverage on course `k`.
fn addition_for(courses: &Vec<(CourseId, DataInvCourse)>, k: &str, t: ItemType) -> (r: usize)
    requires
        keys_unique(courses@),
    ensures
        r == course_addition(courses@, k@, t),
{
    match find_key(courses, k) {
        Some(j) => {
            proof {
                lemma_key_index_is(courses@, j as int);
            }
            match &courses[j].1.stats {
                Some(s) => {
                    let owned = match t {
                        ItemType::Driver => s.driver_owned_count,
                        ItemType::Kart => s.kart_owned_count,
                        ItemType::Glider => s.glider_owned_count,
                    };
                    if owned > 0 {
                        0
                    } else {
                        1
                    }
                },
                None => 1,
            }
        },
        None => 1,
    }
}

/// The statistics of an item of type `t` favored on `favs` and owned at
/// level `lvl`.
fn item_stats_for(
    favs: &Vec<CourseAvailability>,
    lvl: u8,
    t: ItemType,
    courses: &Vec<(CourseId, DataInvCourse)>,
) -> (s: ItemStats)
    requires
        keys_unique(courses@),
    ensures
        s == item_stats_of(favs@, lvl, t, courses@),
{
    let mut fav: usize = 0;
    let mut max_fav: usize = 0;
    let mut add: usize = 0;
    let mut max_add: usize = 0;
    let mut i: usize = 0;
    while i < favs.len()
        invariant
            keys_unique(courses@),
            i <= favs.len(),
            item_tally(favs@, i as int, lvl, t, courses@) == (ItemTally {
                fav: fav as int,
                max_fav: max_fav as int,
                add: add as int,
                max_add: max_add as int,
            }),
            fav <= max_fav,
            add <= max_add,
            max_add <= max_fav,
            max_fav <= i,
        decreases favs.len() - i,
    {
        if !seen_before(favs, i) {
            let r = &favs[i];
            let a = addition_for(courses, r.id.as_str(), t);
            if lvl == 0 {
                if r.lvl == 1 {
                    add = add + a;
                }
                max_add = max_add + a;
            } else if lvl >= r.lvl {
                fav = fav + 1;
            } else {
                max_add = max_add + a;
            }
            max_fav = max_fav + 1;
        }
        i = i + 1;
    }
    ItemStats {
        fav_course_count: fav,
        max_fav_course_count: max_fav,
        add_course_count: add,
        max_add_course_count: max_add,
    }
}

/// Whether `b` holds the entries of `a` with the same keys in the same
/// order.
pub open spec fn same_keys<V, W>(a: Seq<(String, V)>, b: Seq<(String, W)>) -> bool {
    &&& a.len() == b.len()
    &&& forall|i: int| 0 <= i < a.len() ==> #[trigger] b[i].0 == a[i].0
}

proof fn lemma_same_keys_unique<V, W>(a: Seq<(String, V)>, b: Seq<(String, W)>)
    requires
        keys_unique(a),
        same_keys(a, b),
    ensures
        keys_unique(b),
{
    assert forall|i: int, j: int|
        0 <= i < b.len() && 0 <= j < b.len() && i != j implies #[trigger] b[i].0@ != #[trigger] b[j].0@ by {
        assert(b[i].0 == a[i].0 && b[j].0 == a[j].0);
    }
}

/// Sets the statistics of every item of `items` from the course statistics
/// of `courses`.
fn refresh_item_stats(items: &mut Vec<(ItemId, DataInvItem)>, courses: &Vec<(CourseId, DataInvCourse)>)
    requires
        keys_unique(courses@),
    ensures
        same_keys(old(items)@, final(items)@),
        forall|i: int|
            0 <= i < old(items)@.len() ==> {
                let e = #[trigger] final(items)@[i].1;
                let o = old(items)@[i].1;
                &&& e.data == o.data
                &&& e.inv == o.inv
                &&& e.stats == Some(
                    item_stats_of(o.data.favorite_courses@, inv_level(o.inv), o.data.i_type, courses@),
                )
            },
{
    let ghost all = items@;
    let mut olds: Vec<(ItemId, DataInvItem)> = Vec::new();
    std::mem::swap(&mut olds, items);
    let mut out: Vec<(ItemId, DataInvItem)> = Vec::new();
    let ghost mut i: int = 0;
    assert(olds@ =~= all.subrange(0, all.len() as int));
    while olds.len() > 0
        invariant
            keys_unique(courses@),
            0 <= i <= all.len(),
            olds@ =~= all.subrange(i, all.len() as int),
            out@.len() == i,
            forall|j: int|
                0 <= j < i ==> {
                    let e = #[trigger] out@[j];
                    let o = all[j];
                    &&& e.0 == o.0
                    &&& e.1.data == o.1.data
                    &&& e.1.inv == o.1.inv
                    &&& e.1.stats == Some(
                        item_stats_of(
                            o.1.data.favorite_courses@,
                            inv_level(o.1.inv),
                            o.1.data.i_type,
                            courses@,
                        ),
                    )
                },
        decreases olds@.len(),
    {
        let (k, e) = olds.remove(0);
        assert((k, e) == all[i]);
        let DataInvItem { data, inv, stats: _ } = e;
        let lvl = match &inv {
            Some(o) => o.lvl,
            None => 0,
        };
        let s = item_stats_for(&data.favorite_courses, lvl, data.i_type, courses);
        out.push((k, DataInvItem { data, inv, stats: Some(s) }));
        proof {
            i = i + 1;
        }
    }
    *items = out;
}

impl DataInventory {
    /// No list holds an id twice.
    pub open spec fn wf(&self) -> bool {
        &&& keys_unique(self.courses@)
        &&& keys_unique(self.drivers@)
        &&& keys_unique(self.karts@)
        &&& keys_unique(self.gliders@)
    }

    pub fn new() -> (d: Self)
        ensures
            d.wf(),
            d.courses@.len() == 0,
            d.drivers@.len() == 0,
            d.karts@.len() == 0,
            d.gliders@.len() == 0,
    {
        DataInventory {
            courses: Vec::new(),
            drivers: Vec::new(),
            karts: Vec::new(),
            gliders: Vec::new(),
        }
    }

    /// Computes the statistics of every course from the owned levels of
    /// its favored items, then of every item from the course statistics.
    pub fn update_stats(&mut self)
        requires
            old(self).wf(),
        ensures
            final(self).wf(),
            same_keys(old(self).courses@, final(self).courses@),
            same_keys(old(self).drivers@, final(self).drivers@),
            same_keys(old(self).karts@, final(self).karts@),
            same_keys(old(self).gliders@, final(self).gliders@),
            forall|i: int|
                0 <= i < old(self).courses@.len() ==> {
                    let c = #[trigger] final(self).courses@[i].1;
                    let o = old(self).courses@[i].1;
                    &&& c.data == o.data
                    &&& c.stats == Some(
                        course_stats_of(
                            o.data.favorite_items@,
                            old(self).drivers@,
                            old(self).karts@,
                            old(self).gliders@,
                        ),
                    )
                },
            forall|i: int|
                0 <= i < old(self).drivers@.len() ==> {
                    let e = #[trigger] final(self).drivers@[i].1;
                    let o = old(self).drivers@[i].1;
                    &&& e.data == o.data
                    &&& e.inv == o.inv
                    &&& e.stats == Some(
                        item_stats_of(
                            o.data.favorite_courses@,
                            inv_level(o.inv),
                            o.data.i_type,
                            final(self).courses@,
                        ),
                    )
                },
            forall|i: int|
                0 <= i < old(self).karts@.len() ==> {
                    let e = #[trigger] final(self).karts@[i].1;
                    let o = old(self).karts@[i].1;
                    &&& e.data == o.data
                    &&& e.inv == o.inv
                    &&& e.stats == Some(
                        item_stats_of(
                            o.data.favorite_courses@,
                            inv_level(o.inv),
                            o.data.i_type,
                            final(self).courses@,
                        ),
                    )
                },
            forall|i: int|
                0 <= i < old(self).gliders@.len() ==> {
                    let e = #[trigger] final(self).gliders@[i].1;
                    let o = old(self).gliders@[i].1;
                    &&& e.data == o.data
                    &&& e.inv == o.inv
                    &&& e.stats == Some(
                        item_stats_of(
                            o.data.favorite_courses@,
                            inv_level(o.inv),
                            o.data.i_type,
                            final(self).courses@,
                        ),
                    )
                },
    {
        let ghost all = self.courses@;
        let ghost d0 = self.drivers@;
        let ghost k0 = self.karts@;
        let ghost g0 = self.gliders@;
        let mut olds: Vec<(CourseId, DataInvCourse)> = Vec::new();
        std::mem::swap(&mut olds, &mut self.courses);
        let mut out: Vec<(CourseId, DataInvCourse)> = Vec::new();
        let ghost mut i: int = 0;
        assert(olds@ =~= all.subrange(0, all.len() as int));
        while olds.len() > 0
            invariant
                keys_unique(self.drivers@),
                keys_unique(self.karts@),
                keys_unique(self.gliders@),
                self.drivers@ == d0,
                self.karts@ == k0,
                self.gliders@ == g0,
                0 <= i <= all.len(),
                olds@ =~= all.subrange(i, all.len() as int),
                out@.len() == i,
                forall|j: int|
                    0 <= j < i ==> {
                        let e = #[trigger] out@[j];
                        let o = all[j];
                        &&& e.0 == o.0
                        &&& e.1.data == o.1.data
                        &&& e.1.stats == Some(
                            course_stats_of(o.1.data.favorite_items@, d0, k0, g0),
                        )
                    },
            decreases olds@.len(),
        {
            let (k, e) = olds.remove(0);
            assert((k, e) == all[i]);
            let DataInvCourse { data, stats: _ } = e;
            let s = course_stats_for(&data.favorite_items, &self.drivers, &self.karts, &self.gliders);
            out.push((k, DataInvCourse { data, stats: Some(s) }));
            proof {
                i = i + 1;
            }
        }
        self.courses = out;
        proof {
            lemma_same_keys_unique(all, self.courses@);
        }
        refresh_item_stats(&mut self.drivers, &self.courses);
        refresh_item_stats(&mut self.karts, &self.courses);
        refresh_item_stats(&mut self.gliders, &self.courses);
        proof {
            lemma_same_keys_unique(d0, self.drivers@);
            lemma_same_keys_unique(k0, self.karts@);
            lemma_same_keys_unique(g0, self.gliders@);
        }
    }
}

/// The courses after the database `data` arrives: each course of `data`,
/// in order, is keyed by its id and keeps the statistics of the entry that
/// `pool` still holds under that id, which leaves the pool.
pub open spec fn course_refresh(
    pool: Map<Seq<char>, (CourseView, Option<CourseStats>)>,
    acc: Map<Seq<char>, (CourseView, Option<CourseStats>)>,
    data: Seq<(String, Course)>,
) -> Map<Seq<char>, (CourseView, Option<CourseStats>)>
    decreases data.len(),
{
    if data.len() == 0 {
        acc
    } else {
        let c = data[0].1@;
        let stats = if pool.contains_key(c.id) {
            pool[c.id].1
        } else {
            None
        };
        course_refresh(pool.remove(c.id), acc.insert(c.id, (c, stats)), data.drop_first())
    }
}

/// The items after the database `data` arrives: each item of `data`, in
/// order, is keyed by its id and keeps the owned record and statistics of
/// the entry that `pool` still holds under that id, which leaves the pool.
pub open spec fn item_refresh(
    pool: Map<Seq<char>, (ItemView, Option<OwnedItemView>, Option<ItemStats>)>,
    acc: Map<Seq<char>, (ItemView, Option<OwnedItemView>, Option<ItemStats>)>,
    data: Seq<(String, Item)>,
) -> Map<Seq<char>, (ItemView, Option<OwnedItemView>, Option<ItemStats>)>
    decreases data.len(),
{
    if data.len() == 0 {
        acc
    } else {
        let it = data[0].1@;
        let (inv, stats) = if pool.contains_key(it.id) {
            (pool[it.id].1, pool[it.id].2)
        } else {
            (None, None)
        };
        item_refresh(pool.remove(it.id), acc.insert(it.id, (it, inv, stats)), data.drop_first())
    }
}

fn refresh_courses(entries: &mut Vec<(CourseId, DataInvCourse)>, data: &Vec<(CourseId, Course)>)
    requires
        keys_unique(old(entries)@),
    ensures
        keys_unique(final(entries)@),
        entries_map(final(entries)@) == course_refresh(
            entries_map(old(entries)@),
            Map::empty(),
            data@,
        ),
{
    let mut pool: Vec<(CourseId, DataInvCourse)> = Vec::new();
    std::mem::swap(&mut pool, entries);
    let ghost p0 = entries_map(pool@);
    let mut acc: Vec<(CourseId, DataInvCourse)> = Vec::new();
    let mut i: usize = 0;
    assert(entries_map(acc@) =~= Map::<Seq<char>, (CourseView, Option<CourseStats>)>::empty());
    assert(data@.subrange(0, data@.len() as int) =~= data@);
    while i < data.len()
        invariant
            keys_unique(pool@),
            keys_unique(acc@),
            i <= data.len(),
            course_refresh(entries_map(pool@), entries_map(acc@), data@.subrange(i as int, data@.len() as int))
                == course_refresh(p0, Map::empty(), data@),
        decreases data.len() - i,
    {
        let c = &data[i].1;
        proof {
            let rest = data@.subrange(i as int, data@.len() as int);
            assert(rest[0] == data@[i as int]);
            assert(rest.drop_first() =~= data@.subrange(i + 1, data@.len() as int));
        }
        let stats = match take_key(&mut pool, c.id.as_str()) {
            Some(e) => e.stats,
            None => None,
        };
        upsert(&mut acc, c.id.clone(), DataInvCourse { data: c.duplicate(), stats });
        i = i + 1;
    }
    *entries = acc;
}

fn refresh_items(entries: &mut Vec<(ItemId, DataInvItem)>, data: &Vec<(ItemId, Item)>)
    requires
        keys_unique(old(entries)@),
    ensures
        keys_unique(final(entries)@),
        entries_map(final(entries)@) == item_refresh(
            entries_map(old(entries)@),
            Map::empty(),
            data@,
        ),
{
    let mut pool: Vec<(ItemId, DataInvItem)> = Vec::new();
    std::mem::swap(&mut pool, entries);
    let ghost p0 = entries_map(pool@);
    let mut acc: Vec<(ItemId, DataInvItem)> = Vec::new();
    let mut i: usize = 0;
    assert(entries_map(acc@) =~= Map::<
        Seq<char>,
        (ItemView, Option<OwnedItemView>, Option<ItemStats>),
    >::empty());
    assert(data@.subrange(0, data@.len() as int) =~= data@);
    while i < data.len()
        invariant
            keys_unique(pool@),
            keys_unique(acc@),
            i <= data.len(),
            item_refresh(entries_map(pool@), entries_map(acc@), data@.subrange(i as int, data@.len() as int))
                == item_refresh(p0, Map::empty(), data@),
        decreases data.len() - i,
    {
        let it = &data[i].1;
        proof {
            let rest = data@.subrange(i as int, data@.len() as int);
            assert(rest[0] == data@[i as int]);
            assert(rest.drop_first() =~= data@.subrange(i + 1, data@.len() as int));
        }
        let (inv, stats) = match take_key(&mut pool, it.id.as_str()) {
            Some(e) => (e.inv, e.stats),
            None => (None, None),
        };
        upsert(&mut acc, it.id.clone(), DataInvItem { data: it.duplicate(), inv, stats });
        i = i + 1;
    }
    *entries = acc;
}

/// Sets the owned record of every item of `items` to the record of
/// `owned` under the item's id, or to none.
fn attach_owned(items: &mut Vec<(ItemId, DataInvItem)>, owned: &Vec<(ItemId, OwnedItem)>)
    requires
        keys_unique(owned@),
    ensures
        same_keys(old(items)@, final(items)@),
        forall|i: int|
            0 <= i < old(items)@.len() ==> {
                let e = #[trigger] final(items)@[i].1;
                let o = old(items)@[i].1;
                &&& e.data == o.data
                &&& e.stats == o.stats
                &&& owned_view(e.inv) == (if has_key(owned@, o.data.id@) {
                    Some(entries_map(owned@)[o.data.id@])
                } else {
                    None
                })
            },
{
    let ghost all = items@;
    let mut olds: Vec<(ItemId, DataInvItem)> = Vec::new();
    std::mem::swap(&mut olds, items);
    let mut out: Vec<(ItemId, DataInvItem)> = Vec::new();
    let ghost mut i: int = 0;
    assert(olds@ =~= all.subrange(0, all.len() as int));
    while olds.len() > 0
        invariant
            keys_unique(owned@),
            0 <= i <= all.len(),
            olds@ =~= all.subrange(i, all.len() as int),
            out@.len() == i,
            forall|j: int|
                0 <= j < i ==> {
                    let e = #[trigger] out@[j];
                    let o = all[j];
                    &&& e.0 == o.0
                    &&& e.1.data == o.1.data
                    &&& e.1.stats == o.1.stats
                    &&& owned_view(e.1.inv) == (if has_key(owned@, o.1.data.id@) {
                        Some(entries_map(owned@)[o.1.data.id@])
                    } else {
                        None
                    })
                },
        decreases olds@.len(),
    {
        let (k, e) = olds.remove(0);
        assert((k, e) == all[i]);
        let DataInvItem { data, inv: _, stats } = e;
        let inv = match find_key(owned, data.id.as_str()) {
            Some(j) => {
                proof {
                    crate::keyed::lemma_entries_map_at(owned@, j as int);
                }
                Some(owned[j].1.duplicate())
            },
            None => None,
        };
        out.push((k, DataInvItem { data, inv, stats }));
        proof {
            i = i + 1;
        }
    }
    *items = out;
}

proof fn lemma_owned_level_same(a: Seq<(String, DataInvItem)>, b: Seq<(String, DataInvItem)>, k: Seq<char>)
    requires
        keys_unique(a),
        same_keys(a, b),
        forall|i: int| 0 <= i < a.len() ==> #[trigger] a[i].1.inv == b[i].1.inv,
    ensures
        owned_level(a, k) == owned_level(b, k),
{
    lemma_same_keys_unique(a, b);
    if has_key(a, k) {
        let j = choose|j: int| 0 <= j < a.len() && #[trigger] a[j].0@ == k;
        lemma_key_index_is(a, j);
        assert(b[j].0 == a[j].0);
        lemma_key_index_is(b, j);
    } else if has_key(b, k) {
        let j = choose|j: int| 0 <= j < b.len() && #[trigger] b[j].0@ == k;
        assert(a[j].0 == b[j].0);
    }
}

proof fn lemma_covered_same(
    reqs: Seq<ItemRequirement>,
    n: int,
    t: ItemType,
    a: Seq<(String, DataInvItem)>,
    b: Seq<(String, DataInvItem)>,
)
    requires
        keys_unique(a),
        same_keys(a, b),
        forall|i: int| 0 <= i < a.len() ==> #[trigger] a[i].1.inv == b[i].1.inv,
    ensures
        covered(reqs, n, t, a) == covered(reqs, n, t, b),
    decreases n,
{
    if n > 0 {
        lemma_covered_same(reqs, n - 1, t, a, b);
        lemma_owned_level_same(a, b, reqs[n - 1].id@);
    }
}

impl DataInventory {
    /// Takes in a new database: every course and item of `data` replaces
    /// the entry with its id, keeping that entry's owned record and
    /// statistics; entries whose id `data` does not hold are dropped.
    pub fn apply_data(&mut self, data: &MktData)
        requires
            old(self).wf(),
        ensures
            final(self).wf(),
            entries_map(final(self).courses@) == course_refresh(
                entries_map(old(self).courses@),
                Map::empty(),
                data.courses@,
            ),
            entries_map(final(self).drivers@) == item_refresh(
                entries_map(old(self).drivers@),
                Map::empty(),
                data.drivers@,
            ),
            entries_map(final(self).karts@) == item_refresh(
                entries_map(old(self).karts@),
                Map::empty(),
                data.karts@,
            ),
            entries_map(final(self).gliders@) == item_refresh(
                entries_map(old(self).gliders@),
                Map::empty(),
                data.gliders@,
            ),
    {
        refresh_courses(&mut self.courses, &data.courses);
        refresh_items(&mut self.drivers, &data.drivers);
        refresh_items(&mut self.karts, &data.karts);
        refresh_items(&mut self.gliders, &data.gliders);
    }

    /// Takes in a new inventory: every item gets the owned record of the
    /// inventory under its id (or none), then all statistics are computed
    /// again.
    pub fn apply_inventory(&mut self, inv: &MktInventory)
        requires
            old(self).wf(),
            inv.wf(),
        ensures
            final(self).wf(),
            same_keys(old(self).courses@, final(self).courses@),
            same_keys(old(self).drivers@, final(self).drivers@),
            same_keys(old(self).karts@, final(self).karts@),
            same_keys(old(self).gliders@, final(self).gliders@),
            forall|i: int|
                0 <= i < old(self).drivers@.len() ==> {
                    let e = #[trigger] final(self).drivers@[i].1;
                    let o = old(self).drivers@[i].1;
                    &&& e.data == o.data
                    &&& owned_view(e.inv) == (if has_key(inv.drivers@, o.data.id@) {
                        Some(entries_map(inv.drivers@)[o.data.id@])
                    } else {
                        None
                    })
                    &&& e.stats == Some(
                        item_stats_of(
                            o.data.favorite_courses@,
                            inv_level(e.inv),
                            o.data.i_type,
                            final(self).courses@,
                        ),
                    )
                },
            forall|i: int|
                0 <= i < old(self).karts@.len() ==> {
                    let e = #[trigger] final(self).karts@[i].1;
                    let o = old(self).karts@[i].1;
                    &&& e.data == o.data
                    &&& owned_view(e.inv) == (if has_key(inv.karts@, o.data.id@) {
                        Some(entries_map(inv.karts@)[o.data.id@])
                    } else {
                        None
                    })
                    &&& e.stats == Some(
                        item_stats_of(
                            o.data.favorite_courses@,
                            inv_level(e.inv),
                            o.data.i_type,
                            final(self).courses@,
                        ),
                    )
                },
            forall|i: int|
                0 <= i < old(self).gliders@.len() ==> {
                    let e = #[trigger] final(self).gliders@[i].1;
                    let o = old(self).gliders@[i].1;
                    &&& e.data == o.data
                    &&& owned_view(e.inv) == (if has_key(inv.gliders@, o.data.id@) {
                        Some(entries_map(inv.gliders@)[o.data.id@])
                    } else {
                        None
                    })
                    &&& e.stats == Some(
                        item_stats_of(
                            o.data.favorite_courses@,
                            inv_level(e.inv),
                            o.data.i_type,
                            final(self).courses@,
                        ),
                    )
                },
            forall|i: int|
                0 <= i < old(self).courses@.len() ==> {
                    let c = #[trigger] final(self).courses@[i].1;
                    let o = old(self).courses@[i].1;
                    &&& c.data == o.data
                    &&& c.stats == Some(
                        course_stats_of(
                            o.data.favorite_items@,
                            final(self).drivers@,
                            final(self).karts@,
                            final(self).gliders@,
                        ),
                    )
                },
    {
        let ghost d0 = self.drivers@;
        let ghost k0 = self.karts@;
        let ghost g0 = self.gliders@;
        attach_owned(&mut self.drivers, &inv.drivers);
        attach_owned(&mut self.karts, &inv.karts);
        attach_owned(&mut self.gliders, &inv.gliders);
        proof {
            lemma_same_keys_unique(d0, self.drivers@);
            lemma_same_keys_unique(k0, self.karts@);
            lemma_same_keys_unique(g0, self.gliders@);
        }
        let ghost d1 = self.drivers@;
        let ghost k1 = self.karts@;
        let ghost g1 = self.gliders@;
        self.update_stats();
        proof {
            assert forall|i: int| 0 <= i < d1.len() implies #[trigger] d1[i].1.inv == self.drivers@[i].1.inv by {}
            assert forall|i: int| 0 <= i < k1.len() implies #[trigger] k1[i].1.inv == self.karts@[i].1.inv by {}
            assert forall|i: int| 0 <= i < g1.len() implies #[trigger] g1[i].1.inv == self.gliders@[i].1.inv by {}
            assert forall|i: int| 0 <= i < self.courses@.len() implies course_stats_of(
                #[trigger] self.courses@[i].1.data.favorite_items@,
                d1,
                k1,
                g1,
            ) == course_stats_of(
                self.courses@[i].1.data.favorite_items@,
                self.drivers@,
                self.karts@,
                self.gliders@,
            ) by {
                let reqs = self.courses@[i].1.data.favorite_items@;
                lemma_covered_same(reqs, reqs.len() as int, ItemType::Driver, d1, self.drivers@);
                lemma_covered_same(reqs, reqs.len() as int, ItemType::Kart, k1, self.karts@);
                lemma_covered_same(reqs, reqs.len() as int, ItemType::Glider, g1, self.gliders@);
            }
        }
    }
}

/// The coverage summary of the database and inventory.
#[derive(Debug, Copy, Clone, PartialEq, Eq, Structural)]
pub struct CoverageSummary {
    pub course_count: usize,
    pub driver_count: usize,
    pub kart_count: usize,
    pub glider_count: usize,
    pub course_covered_count: usize,
    pub driver_owned_count: usize,
    pub kart_owned_count: usize,
    pub glider_owned_count: usize,
}

/// Whether course statistics show an owned driver, kart and glider.
pub open spec fn covers_all(st: Option<CourseStats>) -> bool {
    st matches Some(s) && s.driver_owned_count > 0 && s.kart_owned_count > 0
        && s.glider_owned_count > 0
}

/// How many of the first `n` courses are covered by owned items of all
/// three types.
pub open spec fn covered_courses(s: Seq<(String, DataInvCourse)>, n: int) -> int
    decreases n,
{
    if n <= 0 {
        0
    } else {
        covered_courses(s, n - 1) + if covers_all(s[n - 1].1.stats) {
            1int
        } else {
            0int
        }
    }
}

/// How many of the first `n` items are owned at a level above 0.
pub open spec fn owned_items(s: Seq<(String, DataInvItem)>, n: int) -> int
    decreases n,
{
    if n <= 0 {
        0
    } else {
        owned_items(s, n - 1) + if s[n - 1].1.inv matches Some(o) && o.lvl > 0 {
            1int
        } else {
            0int
        }
    }
}

fn count_covered(s: &Vec<(CourseId, DataInvCourse)>) -> (r: usize)
    ensures
        r == covered_courses(s@, s@.len() as int),
{
    let mut n: usize = 0;
    let mut i: usize = 0;
    while i < s.len()
        invariant
            i <= s.len(),
            n == covered_courses(s@, i as int),
            n <= i,
        decreases s.len() - i,
    {
        match &s[i].1.stats {
            Some(st) => {
                if st.driver_owned_count > 0 && st.kart_owned_count > 0 && st.glider_owned_count > 0 {
                    n = n + 1;
                }
            },
            None => {},
        }
        i = i + 1;
    }
    n
}

fn count_owned(s: &Vec<(ItemId, DataInvItem)>) -> (r: usize)
    ensures
        r == owned_items(s@, s@.len() as int),
{
    let mut n: usize = 0;
    let mut i: usize = 0;
    while i < s.len()
        invariant
            i <= s.len(),
            n == owned_items(s@, i as int),
            n <= i,
        decreases s.len() - i,
    {
        match &s[i].1.inv {
            Some(o) => {
                if o.lvl > 0 {
                    n = n + 1;
                }
            },
            None => {},
        }
        i = i + 1;
    }
    n
}

impl DataInventory {
    /// The counts of courses and items, of the courses covered by owned
    /// items of all three types, and of the items owned at a level above 0.
    pub fn summary(&self) -> (r: CoverageSummary)
        ensures
            r.course_count == self.courses@.len(),
            r.driver_count == self.drivers@.len(),
            r.kart_count == self.karts@.len(),
            r.glider_count == self.gliders@.len(),
            r.course_covered_count == covered_courses(self.courses@, self.courses@.len() as int),
            r.driver_owned_count == owned_items(self.drivers@, self.drivers@.len() as int),
            r.kart_owned_count == owned_items(self.karts@, self.karts@.len() as int),
            r.glider_owned_count == owned_items(self.gliders@, self.gliders@.len() as int),
    {
        CoverageSummary {
            course_count: self.courses.len(),
            driver_count: self.drivers.len(),
            kart_count: self.karts.len(),
            glider_count: self.gliders.len(),
            course_covered_count: count_covered(&self.courses),
            driver_owned_count: count_owned(&self.drivers),
            kart_owned_count: count_owned(&self.karts),
            glider_owned_count: count_owned(&self.gliders),
        }
    }
}

/// What a component may ask of the joined database and inventory.
#[derive(Debug, Copy, Clone, PartialEq, Eq, Structural)]
pub enum DataInventoryRequest {
    /// Send the state to the one who asks.
    Refresh,
    /// Send the state to every subscriber.
    RefreshAll,
}

/// Who receives the state when `from` makes request `req` and `handlers`
/// are subscribed.
pub fn recipients<H: Copy>(req: DataInventoryRequest, from: H, handlers: &Vec<H>) -> (r: Vec<H>)
    ensures
        r@ == match req {
            DataInventoryRequest::Refresh => seq![from],
            DataInventoryRequest::RefreshAll => handlers@,
        },
{
    match req {
        DataInventoryRequest::Refresh => {
            let mut r: Vec<H> = Vec::new();
            r.push(from);
            assert(r@ =~= seq![from]);
            r
        },
        DataInventoryRequest::RefreshAll => {
            let mut r: Vec<H> = Vec::new();
            let mut i: usize = 0;
            while i < handlers.len()
                invariant
                    i <= handlers.len(),
                    r@ =~= handlers@.subrange(0, i as int),
                decreases handlers.len() - i,
            {
                r.push(handlers[i]);
                i = i + 1;
            }
            assert(handlers@.subrange(0, handlers@.len() as int) =~= handlers@);
            r
        },
    }
}

} // verus!
