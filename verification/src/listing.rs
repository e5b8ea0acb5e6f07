//! How the item and course lists are shown: the order the user picks, the
//! statistic shown on each item, the badge of each course, a course's
//! favorites by type, and the place of each course in the course grid.
use vstd::prelude::*;
use crate::export::{decimal, decimal_text};
use crate::ids::{
    course_generation_from_id, course_generation_of_tag, course_type_from_id, course_type_of_suffix,
    item_type_from_id, item_type_of_id, captured_text, regex_capture, CourseGeneration, CourseId,
    CourseType, ItemId, ItemType,
};
use crate::import::{text_before, text_less};
use crate::model::Course;
use crate::stats::{CourseStats, DataInvItem};

verus! {

/// `x` goes into sorted `s` before the first entry that `less` puts after
/// it, that is after every entry it does not come before.
pub open spec fn first_greater<T>(s: Seq<T>, x: T, less: spec_fn(T, T) -> bool) -> nat
    decreases s.len(),
{
    if s.len() == 0 {
        0
    } else if less(x, s[0]) {
        0
    } else {
        1 + first_greater(s.drop_first(), x, less)
    }
}

/// `x` inserted into sorted `s` after the entries it does not come before.
pub open spec fn insert_by<T>(s: Seq<T>, x: T, less: spec_fn(T, T) -> bool) -> Seq<T> {
    let p = first_greater(s, x, less) as int;
    s.take(p) + seq![x] + s.skip(p)
}

/// `s` sorted by `less`, entries that neither comes before the other
/// keeping their order (a stable sort).
pub open spec fn sort_by<T>(s: Seq<T>, less: spec_fn(T, T) -> bool) -> Seq<T>
    decreases s.len(),
{
    if s.len() == 0 {
        s
    } else {
        insert_by(sort_by(s.drop_last(), less), s.last(), less)
    }
}

/// What an item list can be sorted by.
#[derive(Debug, Copy, Clone, PartialEq, Eq, Structural)]
pub enum SortStat {
    /// The game's order.
    Default,
    Name,
    Level,
    FavoriteCourses,
    AdditionalCourses,
}

/// The direction of the sort.
#[derive(Debug, Copy, Clone, PartialEq, Eq, Structural)]
pub enum SortOrder {
    Up,
    Down,
}

/// `None` before any value, values by size.
pub open spec fn opt_less(a: Option<int>, b: Option<int>) -> bool {
    match (a, b) {
        (None, Some(_)) => true,
        (Some(x), Some(y)) => x < y,
        _ => false,
    }
}

/// `None` before any pair, pairs by their first then their second number.
pub open spec fn opt_pair_less(a: Option<(int, int)>, b: Option<(int, int)>) -> bool {
    match (a, b) {
        (None, Some(_)) => true,
        (Some(x), Some(y)) => x.0 < y.0 || (x.0 == y.0 && x.1 < y.1),
        _ => false,
    }
}

pub open spec fn opt_u32(o: Option<u32>) -> Option<int> {
    match o {
        Some(x) => Some(x as int),
        None => None,
    }
}

/// The owned level of an entry, if the item is owned.
pub open spec fn owned_level(e: DataInvItem) -> Option<int> {
    match e.inv {
        Some(o) => Some(o.lvl as int),
        None => None,
    }
}

/// (most favorite courses, favorite courses at the owned level).
pub open spec fn favorite_counts(e: DataInvItem) -> Option<(int, int)> {
    match e.stats {
        Some(s) => Some((s.max_fav_course_count as int, s.fav_course_count as int)),
        None => None,
    }
}

/// (most courses added, courses added at the owned level).
pub open spec fn additional_counts(e: DataInvItem) -> Option<(int, int)> {
    match e.stats {
        Some(s) => Some((s.max_add_course_count as int, s.add_course_count as int)),
        None => None,
    }
}

/// Whether item `a` comes before item `b` when sorting by `stat`.
pub open spec fn item_less(stat: SortStat, a: DataInvItem, b: DataInvItem) -> bool {
    match stat {
        SortStat::Default => opt_less(opt_u32(a.data.sort), opt_u32(b.data.sort)),
        SortStat::Name => text_less(a.data.name@, b.data.name@),
        SortStat::Level => opt_less(owned_level(a), owned_level(b)),
        SortStat::FavoriteCourses => opt_pair_less(favorite_counts(a), favorite_counts(b)),
        SortStat::AdditionalCourses => opt_pair_less(additional_counts(a), additional_counts(b)),
    }
}

/// The order of keyed items by `stat`.
pub open spec fn entry_order(stat: SortStat) -> spec_fn((ItemId, DataInvItem), (ItemId, DataInvItem)) -> bool {
    |a: (ItemId, DataInvItem), b: (ItemId, DataInvItem)| item_less(stat, a.1, b.1)
}

/// The ids of an item list in the order shown: sorted by `stat` (a stable
/// sort), the whole list turned round when the order is down.
pub open spec fn shown_ids(items: Seq<(ItemId, DataInvItem)>, stat: SortStat, order: SortOrder) -> Seq<Seq<char>> {
    let up = sort_by(items, entry_order(stat)).map_values(|e: (ItemId, DataInvItem)| e.0@);
    match order {
        SortOrder::Up => up,
        SortOrder::Down => up.reverse(),
    }
}

fn opt_less_exec(a: Option<u64>, b: Option<u64>) -> (r: bool)
    ensures
        r == opt_less(
            match a {
                Some(x) => Some(x as int),
                None => None,
            },
            match b {
                Some(x) => Some(x as int),
                None => None,
            },
        ),
{
    match (a, b) {
        (None, Some(_)) => true,
        (Some(x), Some(y)) => x < y,
        _ => false,
    }
}

fn opt_pair_less_exec(a: Option<(usize, usize)>, b: Option<(usize, usize)>) -> (r: bool)
    ensures
        r == opt_pair_less(
            match a {
                Some(x) => Some((x.0 as int, x.1 as int)),
                None => None,
            },
            match b {
                Some(x) => Some((x.0 as int, x.1 as int)),
                None => None,
            },
        ),
{
    match (a, b) {
        (None, Some(_)) => true,
        (Some(x), Some(y)) => x.0 < y.0 || (x.0 == y.0 && x.1 < y.1),
        _ => false,
    }
}

fn item_less_exec(stat: SortStat, a: &DataInvItem, b: &DataInvItem) -> (r: bool)
    ensures
        r == item_less(stat, *a, *b),
{
    match stat {
        SortStat::Default => {
            let x = match a.data.sort {
                Some(v) => Some(v as u64),
                None => None,
            };
            let y = match b.data.sort {
                Some(v) => Some(v as u64),
                None => None,
            };
            opt_less_exec(x, y)
        },
        SortStat::Name => text_before(a.data.name.as_str(), b.data.name.as_str()),
        SortStat::Level => {
            let x = match &a.inv {
                Some(o) => Some(o.lvl as u64),
                None => None,
            };
            let y = match &b.inv {
                Some(o) => Some(o.lvl as u64),
                None => None,
            };
            opt_less_exec(x, y)
        },
        SortStat::FavoriteCourses => {
            let x = match a.stats {
                Some(s) => Some((s.max_fav_course_count, s.fav_course_count)),
                None => None,
            };
            let y = match b.stats {
                Some(s) => Some((s.max_fav_course_count, s.fav_course_count)),
                None => None,
            };
            opt_pair_less_exec(x, y)
        },
        SortStat::AdditionalCourses => {
            let x = match a.stats {
                Some(s) => Some((s.max_add_course_count, s.add_course_count)),
                None => None,
            };
            let y = match b.stats {
                Some(s) => Some((s.max_add_course_count, s.add_course_count)),
                None => None,
            };
            opt_pair_less_exec(x, y)
        },
    }
}

/// The entries at the given places.
pub open spec fn picked(items: Seq<(ItemId, DataInvItem)>, places: Seq<usize>) -> Seq<(ItemId, DataInvItem)> {
    places.map_values(|k: usize| items[k as int])
}

/// Where entry `x` goes among the entries at `places`.
fn place_of(items: &Vec<(ItemId, DataInvItem)>, places: &Vec<usize>, x: usize, stat: SortStat) -> (p: usize)
    requires
        x < items@.len(),
        forall|k: int| 0 <= k < places@.len() ==> (#[trigger] places@[k]) < items@.len(),
    ensures
        p == first_greater(picked(items@, places@), items@[x as int], entry_order(stat)),
        p <= places@.len(),
{
    let ghost s = picked(items@, places@);
    let ghost less = entry_order(stat);
    let mut i: usize = 0;
    assert(s.skip(0) =~= s);
    while i < places.len()
        invariant
            i <= places@.len(),
            s == picked(items@, places@),
            less == entry_order(stat),
            x < items@.len(),
            forall|k: int| 0 <= k < places@.len() ==> (#[trigger] places@[k]) < items@.len(),
            first_greater(s, items@[x as int], less) == i + first_greater(s.skip(i as int), items@[x as int], less),
        decreases places@.len() - i,
    {
        let ghost rest = s.skip(i as int);
        let k = places[i];
        assert(rest[0] == items@[k as int]);
        if item_less_exec(stat, &items[x].1, &items[k].1) {
            return i;
        }
        assert(rest.drop_first() =~= s.skip(i + 1));
        i = i + 1;
    }
    assert(s.skip(i as int).len() == 0);
    i
}

/// The ids of an item list in the order shown (sorted by `stat`, then
/// turned round when `order` is down).
pub fn sorted_item_ids(items: &Vec<(ItemId, DataInvItem)>, stat: SortStat, order: SortOrder) -> (r: Vec<ItemId>)
    ensures
        r@.map_values(|id: ItemId| id@) == shown_ids(items@, stat, order),
{
    let ghost less = entry_order(stat);
    let mut places: Vec<usize> = Vec::new();
    let mut i: usize = 0;
    assert(picked(items@, places@) =~= sort_by(items@.take(0), less));
    while i < items.len()
        invariant
            i <= items@.len(),
            less == entry_order(stat),
            places@.len() == i,
            forall|k: int| 0 <= k < places@.len() ==> (#[trigger] places@[k]) < i,
            picked(items@, places@) == sort_by(items@.take(i as int), less),
        decreases items@.len() - i,
    {
        let p = place_of(items, &places, i, stat);
        let ghost before = picked(items@, places@);
        let ghost old_places = places@;
        places.insert(p, i);
        proof {
            assert(places@ =~= old_places.take(p as int) + seq![i] + old_places.skip(p as int));
            assert(picked(items@, places@) =~= before.take(p as int) + seq![items@[i as int]] + before.skip(p as int));
            assert(items@.take(i + 1).drop_last() =~= items@.take(i as int));
            assert(items@.take(i + 1).last() == items@[i as int]);
            assert forall|k: int| 0 <= k < places@.len() implies (#[trigger] places@[k]) < i + 1 by {
                if k < p {
                    assert(places@[k] == old_places[k]);
                } else if k > p {
                    assert(places@[k] == old_places[k - 1]);
                }
            }
        }
        i = i + 1;
    }
    assert(items@.take(items@.len() as int) =~= items@);
    let ghost sorted = sort_by(items@, less);
    let ghost up = sorted.map_values(|e: (ItemId, DataInvItem)| e.0@);
    let mut r: Vec<ItemId> = Vec::new();
    let n = places.len();
    let mut j: usize = 0;
    while j < n
        invariant
            j <= n,
            n == places@.len(),
            n == items@.len(),
            forall|k: int| 0 <= k < places@.len() ==> (#[trigger] places@[k]) < items@.len(),
            picked(items@, places@) == sorted,
            up == sorted.map_values(|e: (ItemId, DataInvItem)| e.0@),
            r@.len() == j,
            forall|k: int|
                0 <= k < j ==> (#[trigger] r@[k])@ == (match order {
                    SortOrder::Up => up[k],
                    SortOrder::Down => up[n - 1 - k],
                }),
        decreases n - j,
    {
        let k: usize = match order {
            SortOrder::Up => j,
            SortOrder::Down => n - 1 - j,
        };
        assert(sorted[k as int] == items@[places@[k as int] as int]);
        r.push(items[places[k]].0.clone());
        j = j + 1;
    }
    proof {
        let rv = r@.map_values(|id: ItemId| id@);
        match order {
            SortOrder::Up => {
                assert(rv =~= up);
            },
            SortOrder::Down => {
                assert(rv =~= up.reverse());
            },
        }
    }
    r
}


/// The statistic shown on each item of a list.
#[derive(Debug, Copy, Clone, PartialEq, Eq, Structural)]
pub enum ShowStat {
    Level,
    Points,
    LevelPoints,
    FavoriteCourses,
    AdditionalCourses,
}

/// What the user picked for an item list: the statistic shown, the sort
/// and its direction.
#[derive(Debug, Copy, Clone, PartialEq, Eq, Structural)]
pub struct ListState {
    pub show_stat: ShowStat,
    pub sort_stat: SortStat,
    pub sort: SortOrder,
}

/// The statistic that sorting by `s` shows, if sorting by it shows one.
pub open spec fn shown_by_sort(s: SortStat) -> Option<ShowStat> {
    match s {
        SortStat::Level => Some(ShowStat::Level),
        SortStat::FavoriteCourses => Some(ShowStat::FavoriteCourses),
        SortStat::AdditionalCourses => Some(ShowStat::AdditionalCourses),
        _ => None,
    }
}

impl ListState {
    /// Levels shown, in the game's order, up.
    pub fn new() -> (r: ListState)
        ensures
            r == (ListState { show_stat: ShowStat::Level, sort_stat: SortStat::Default, sort: SortOrder::Up }),
    {
        ListState { show_stat: ShowStat::Level, sort_stat: SortStat::Default, sort: SortOrder::Up }
    }

    /// Shows another statistic; whether the list changed.
    pub fn select_show(&mut self, s: ShowStat) -> (changed: bool)
        ensures
            changed == (old(self).show_stat != s),
            final(self).show_stat == s,
            final(self).sort_stat == old(self).sort_stat,
            final(self).sort == old(self).sort,
    {
        if self.show_stat != s {
            self.show_stat = s;
            true
        } else {
            false
        }
    }

    /// Sorts by `s`: a new sort starts up, picking the same sort again
    /// turns its direction round; sorting by a statistic shows it.
    pub fn select_sort(&mut self, s: SortStat)
        ensures
            final(self).sort_stat == s,
            final(self).sort == (if old(self).sort_stat != s {
                SortOrder::Up
            } else {
                match old(self).sort {
                    SortOrder::Up => SortOrder::Down,
                    SortOrder::Down => SortOrder::Up,
                }
            }),
            final(self).show_stat == (match shown_by_sort(s) {
                Some(x) => x,
                None => old(self).show_stat,
            }),
    {
        if self.sort_stat != s {
            self.sort_stat = s;
            self.sort = SortOrder::Up;
        } else {
            self.sort = match self.sort {
                SortOrder::Up => SortOrder::Down,
                SortOrder::Down => SortOrder::Up,
            };
        }
        match s {
            SortStat::Level => self.show_stat = ShowStat::Level,
            SortStat::FavoriteCourses => self.show_stat = ShowStat::FavoriteCourses,
            SortStat::AdditionalCourses => self.show_stat = ShowStat::AdditionalCourses,
            _ => {},
        }
    }
}

/// The label of an item in a list: its main text, a small text after it,
/// and whether the level shown is below the level a course asks for.
pub struct StatLabel {
    pub text: String,
    pub small: String,
    pub below_requirement: bool,
}

/// The level text of an item: its owned level when above 0.
pub open spec fn level_text(e: DataInvItem) -> Seq<char> {
    match e.inv {
        Some(o) => if o.lvl > 0 {
            decimal(o.lvl as nat)
        } else {
            Seq::empty()
        },
        None => Seq::empty(),
    }
}

/// The points text of an item: its owned points when above 0.
pub open spec fn points_text(e: DataInvItem) -> Seq<char> {
    match e.inv {
        Some(o) => if o.points > 0 {
            decimal(o.points as nat)
        } else {
            Seq::empty()
        },
        None => Seq::empty(),
    }
}

/// `n` alone when it equals `max`, else `n`, the separator and `max`.
pub open spec fn count_text(n: nat, max: nat, sep: Seq<char>) -> Seq<char> {
    if n == max {
        decimal(n)
    } else {
        decimal(n) + sep + decimal(max)
    }
}

/// The main text of an item's label for the statistic `show`.
pub open spec fn stat_text(e: DataInvItem, show: ShowStat) -> Seq<char> {
    match show {
        ShowStat::Level | ShowStat::LevelPoints => level_text(e),
        ShowStat::Points => points_text(e),
        ShowStat::FavoriteCourses => match e.stats {
            Some(s) => count_text(s.fav_course_count as nat, s.max_fav_course_count as nat, "/"@),
            None => Seq::empty(),
        },
        ShowStat::AdditionalCourses => match e.stats {
            Some(s) => count_text(s.add_course_count as nat, s.max_add_course_count as nat, "-"@),
            None => Seq::empty(),
        },
    }
}

fn count_label(n: usize, max: usize, sep: &str) -> (r: String)
    ensures
        r@ == count_text(n as nat, max as nat, sep@),
{
    let mut out = decimal_text(n as u64);
    if n != max {
        out.append(sep);
        let m = decimal_text(max as u64);
        out.append(m.as_str());
    }
    out
}

/// The label of an item for the statistic `show`, where a course asks for
/// level `lvl_req`.
pub fn stat_label(e: &DataInvItem, show: ShowStat, lvl_req: u8) -> (r: StatLabel)
    ensures
        r.text@ == stat_text(*e, show),
        r.small@ == (if show == ShowStat::LevelPoints {
            points_text(*e)
        } else {
            Seq::<char>::empty()
        }),
        r.below_requirement == (match e.inv {
            Some(o) => (show == ShowStat::Level || show == ShowStat::LevelPoints) && o.lvl > 0 && o.lvl < lvl_req,
            None => false,
        }),
{
    let (lvl, points, below) = match &e.inv {
        Some(o) => {
            let l = if o.lvl > 0 {
                decimal_text(o.lvl as u64)
            } else {
                String::new()
            };
            let p = if o.points > 0 {
                decimal_text(o.points as u64)
            } else {
                String::new()
            };
            (l, p, o.lvl > 0 && o.lvl < lvl_req)
        },
        None => (String::new(), String::new(), false),
    };
    match show {
        ShowStat::Level => StatLabel { text: lvl, small: String::new(), below_requirement: below },
        ShowStat::Points => StatLabel { text: points, small: String::new(), below_requirement: false },
        ShowStat::LevelPoints => StatLabel { text: lvl, small: points, below_requirement: below },
        ShowStat::FavoriteCourses => {
            let text = match e.stats {
                Some(s) => {
                    proof {
                        reveal_strlit("/");
                    }
                    count_label(s.fav_course_count, s.max_fav_course_count, "/")
                },
                None => String::new(),
            };
            StatLabel { text, small: String::new(), below_requirement: false }
        },
        ShowStat::AdditionalCourses => {
            let text = match e.stats {
                Some(s) => {
                    proof {
                        reveal_strlit("-");
                    }
                    count_label(s.add_course_count, s.max_add_course_count, "-")
                },
                None => String::new(),
            };
            StatLabel { text, small: String::new(), below_requirement: false }
        },
    }
}

/// How well a course is covered: every favored item owned, one owned of
/// each type asked for, none owned, or some owned but not one of each.
#[derive(Debug, Copy, Clone, PartialEq, Eq, Structural)]
pub enum CourseBadge {
    Full,
    Covered,
    Missing,
    Partial,
}

/// The favored items of a course of the given type, or of all types.
pub open spec fn favored_count(s: CourseStats, t: Option<ItemType>) -> int {
    match t {
        None => s.driver_count + s.kart_count + s.glider_count,
        Some(ItemType::Driver) => s.driver_count as int,
        Some(ItemType::Kart) => s.kart_count as int,
        Some(ItemType::Glider) => s.glider_count as int,
    }
}

/// The owned favored items of a course of the given type, or of all types.
pub open spec fn owned_count(s: CourseStats, t: Option<ItemType>) -> int {
    match t {
        None => s.driver_owned_count + s.kart_owned_count + s.glider_owned_count,
        Some(ItemType::Driver) => s.driver_owned_count as int,
        Some(ItemType::Kart) => s.kart_owned_count as int,
        Some(ItemType::Glider) => s.glider_owned_count as int,
    }
}

/// Whether one owned item of the given type (or of each type) is favored.
pub open spec fn type_covered(s: CourseStats, t: Option<ItemType>) -> bool {
    match t {
        None => s.driver_owned_count > 0 && s.kart_owned_count > 0 && s.glider_owned_count > 0,
        Some(ItemType::Driver) => s.driver_owned_count > 0,
        Some(ItemType::Kart) => s.kart_owned_count > 0,
        Some(ItemType::Glider) => s.glider_owned_count > 0,
    }
}

/// The badge of a course with statistics, for items of type `t` or of all
/// types.
pub open spec fn badge_of(s: CourseStats, t: Option<ItemType>) -> CourseBadge {
    if owned_count(s, t) == favored_count(s, t) {
        CourseBadge::Full
    } else if type_covered(s, t) {
        CourseBadge::Covered
    } else if owned_count(s, t) == 0 {
        CourseBadge::Missing
    } else {
        CourseBadge::Partial
    }
}

/// The badge of a course, for items of type `t` or of all types; none
/// without statistics.
pub fn course_badge(stats: Option<CourseStats>, t: Option<ItemType>) -> (r: Option<CourseBadge>)
    ensures
        r == (match stats {
            Some(s) => Some(badge_of(s, t)),
            None => None,
        }),
{
    match stats {
        None => None,
        Some(s) => {
            let (count, owned, covered): (u128, u128, bool) = match t {
                None => (
                    s.driver_count as u128 + s.kart_count as u128 + s.glider_count as u128,
                    s.driver_owned_count as u128 + s.kart_owned_count as u128 + s.glider_owned_count as u128,
                    s.driver_owned_count > 0 && s.kart_owned_count > 0 && s.glider_owned_count > 0,
                ),
                Some(ItemType::Driver) => (s.driver_count as u128, s.driver_owned_count as u128, s.driver_owned_count > 0),
                Some(ItemType::Kart) => (s.kart_count as u128, s.kart_owned_count as u128, s.kart_owned_count > 0),
                Some(ItemType::Glider) => (s.glider_count as u128, s.glider_owned_count as u128, s.glider_owned_count > 0),
            };
            if owned == count {
                Some(CourseBadge::Full)
            } else if covered {
                Some(CourseBadge::Covered)
            } else if owned == 0 {
                Some(CourseBadge::Missing)
            } else {
                Some(CourseBadge::Partial)
            }
        },
    }
}

/// The (id, level) pairs among the first `n` favorites of a course whose
/// items are of type `t`, in the course's order.
pub open spec fn favorites_typed(s: Seq<(Seq<char>, u8)>, t: ItemType, n: int) -> Seq<(Seq<char>, u8)>
    decreases n,
{
    if n <= 0 {
        Seq::empty()
    } else if item_type_of_id(s[n - 1].0) == Some(t) {
        favorites_typed(s, t, n - 1).push(s[n - 1])
    } else {
        favorites_typed(s, t, n - 1)
    }
}

/// Ids in text order.
pub open spec fn id_order() -> spec_fn((Seq<char>, u8), (Seq<char>, u8)) -> bool {
    |a: (Seq<char>, u8), b: (Seq<char>, u8)| text_less(a.0, b.0)
}

/// The (id, level) pairs of a list of favorites.
pub open spec fn requirement_pairs(s: Seq<crate::model::ItemRequirement>) -> Seq<(Seq<char>, u8)> {
    s.map_values(|r: crate::model::ItemRequirement| (r.id@, r.lvl))
}

fn id_place(v: &Vec<(ItemId, u8)>, id: &str) -> (p: usize)
    ensures
        p == first_greater(v@.map_values(|e: (ItemId, u8)| (e.0@, e.1)), (id@, 0u8), id_order()),
        p <= v@.len(),
{
    let ghost s = v@.map_values(|e: (ItemId, u8)| (e.0@, e.1));
    let ghost x = (id@, 0u8);
    let mut i: usize = 0;
    assert(s.skip(0) =~= s);
    while i < v.len()
        invariant
            i <= v@.len(),
            s == v@.map_values(|e: (ItemId, u8)| (e.0@, e.1)),
            x == (id@, 0u8),
            first_greater(s, x, id_order()) == i + first_greater(s.skip(i as int), x, id_order()),
        decreases v@.len() - i,
    {
        let ghost rest = s.skip(i as int);
        assert(rest[0] == s[i as int]);
        if text_before(id, v[i].0.as_str()) {
            return i;
        }
        assert(rest.drop_first() =~= s.skip(i + 1));
        i = i + 1;
    }
    assert(s.skip(i as int).len() == 0);
    i
}

/// The favorites of a course whose items are of type `t`, sorted by id
/// (items with equal ids keep their order), as (id, level) pairs.
pub fn favorites_of_type(c: &Course, t: ItemType) -> (r: Vec<(ItemId, u8)>)
    ensures
        r@.map_values(|e: (ItemId, u8)| (e.0@, e.1)) == sort_by(
            favorites_typed(requirement_pairs(c.favorite_items@), t, c.favorite_items@.len() as int),
            id_order(),
        ),
{
    let ghost all = requirement_pairs(c.favorite_items@);
    let mut r: Vec<(ItemId, u8)> = Vec::new();
    let mut i: usize = 0;
    while i < c.favorite_items.len()
        invariant
            i <= c.favorite_items@.len(),
            all == requirement_pairs(c.favorite_items@),
            r@.map_values(|e: (ItemId, u8)| (e.0@, e.1)) == sort_by(favorites_typed(all, t, i as int), id_order()),
        decreases c.favorite_items@.len() - i,
    {
        let f = &c.favorite_items[i];
        assert(all[i as int] == (f.id@, f.lvl));
        if item_type_from_id(f.id.as_str()) == Some(t) {
            let p = id_place(&r, f.id.as_str());
            let ghost before = r@.map_values(|e: (ItemId, u8)| (e.0@, e.1));
            let ghost typed = favorites_typed(all, t, i as int);
            r.insert(p, (f.id.clone(), f.lvl));
            proof {
                let x = (f.id@, f.lvl);
                assert(favorites_typed(all, t, i + 1) == typed.push(x));
                assert(typed.push(x).drop_last() =~= typed);
                assert(first_greater(before, x, id_order()) == first_greater(before, (f.id@, 0u8), id_order())) by {
                    lemma_first_greater_by_id(before, f.id@, f.lvl, 0u8);
                }
                assert(r@.map_values(|e: (ItemId, u8)| (e.0@, e.1)) =~= insert_by(before, x, id_order()));
            }
        } else {
            assert(favorites_typed(all, t, i + 1) == favorites_typed(all, t, i as int));
        }
        i = i + 1;
    }
    r
}

/// Where a pair goes among pairs sorted by id depends on its id alone.
proof fn lemma_first_greater_by_id(s: Seq<(Seq<char>, u8)>, id: Seq<char>, a: u8, b: u8)
    ensures
        first_greater(s, (id, a), id_order()) == first_greater(s, (id, b), id_order()),
    decreases s.len(),
{
    if s.len() > 0 {
        lemma_first_greater_by_id(s.drop_first(), id, a, b);
    }
}


/// Whether `less` is a strict order: nothing comes before itself, and it
/// is transitive.
pub open spec fn strict_order<T>(less: spec_fn(T, T) -> bool) -> bool {
    &&& forall|a: T| !#[trigger] less(a, a)
    &&& forall|a: T, b: T, c: T| #[trigger] less(a, b) && #[trigger] less(b, c) ==> less(a, c)
}

/// Whether no entry of `s` comes before an earlier one.
pub open spec fn sorted_by<T>(s: Seq<T>, less: spec_fn(T, T) -> bool) -> bool {
    forall|i: int, j: int| 0 <= i < j < s.len() ==> !less(#[trigger] s[j], #[trigger] s[i])
}

/// The entries before the place of `x` do not come after it, the one at
/// its place does.
proof fn lemma_first_greater<T>(s: Seq<T>, x: T, less: spec_fn(T, T) -> bool)
    ensures
        first_greater(s, x, less) <= s.len(),
        forall|k: int| 0 <= k < first_greater(s, x, less) ==> !less(x, #[trigger] s[k]),
        first_greater(s, x, less) < s.len() ==> less(x, s[first_greater(s, x, less) as int]),
    decreases s.len(),
{
    if s.len() > 0 && !less(x, s[0]) {
        let t = s.drop_first();
        lemma_first_greater(t, x, less);
        assert forall|k: int| 0 <= k < first_greater(s, x, less) implies !less(x, #[trigger] s[k]) by {
            if k > 0 {
                assert(s[k] == t[k - 1]);
            }
        }
    }
}

/// Inserting into a sorted sequence keeps it sorted and adds one entry.
proof fn lemma_insert_by<T>(s: Seq<T>, x: T, less: spec_fn(T, T) -> bool)
    requires
        strict_order(less),
        sorted_by(s, less),
    ensures
        sorted_by(insert_by(s, x, less), less),
        insert_by(s, x, less).to_multiset() == s.to_multiset().insert(x),
{
    broadcast use vstd::seq_lib::group_to_multiset_ensures;

    lemma_first_greater(s, x, less);
    let p = first_greater(s, x, less) as int;
    let r = insert_by(s, x, less);
    assert(r =~= s.insert(p, x));
    assert forall|i: int, j: int| 0 <= i < j < r.len() implies !less(#[trigger] r[j], #[trigger] r[i]) by {
        if j < p {
            assert(r[i] == s[i] && r[j] == s[j]);
        } else if j == p {
            assert(r[j] == x && r[i] == s[i]);
        } else if i < p {
            assert(r[i] == s[i] && r[j] == s[j - 1]);
        } else if i == p {
            assert(r[i] == x && r[j] == s[j - 1]);
            assert(less(x, s[p]));
            if p < j - 1 {
                assert(!less(s[j - 1], s[p]));
            }
            if less(s[j - 1], x) {
                assert(less(s[j - 1], s[p]));
            }
        } else {
            assert(r[i] == s[i - 1] && r[j] == s[j - 1]);
        }
    }
}

/// A stable sort orders its entries and keeps them all.
pub proof fn lemma_sort_by<T>(s: Seq<T>, less: spec_fn(T, T) -> bool)
    requires
        strict_order(less),
    ensures
        sorted_by(sort_by(s, less), less),
        sort_by(s, less).to_multiset() == s.to_multiset(),
    decreases s.len(),
{
    broadcast use vstd::seq_lib::group_to_multiset_ensures;

    if s.len() > 0 {
        lemma_sort_by(s.drop_last(), less);
        lemma_insert_by(sort_by(s.drop_last(), less), s.last(), less);
        assert(s.drop_last().push(s.last()) =~= s);
    }
}

/// Text order is transitive.
pub proof fn lemma_text_less_transitive(a: Seq<char>, b: Seq<char>, c: Seq<char>)
    requires
        text_less(a, b),
        text_less(b, c),
    ensures
        text_less(a, c),
    decreases a.len(),
{
    if a.len() > 0 && b.len() > 0 && c.len() > 0 && a[0] == b[0] && b[0] == c[0] {
        lemma_text_less_transitive(a.drop_first(), b.drop_first(), c.drop_first());
    }
}

/// No text comes before itself.
pub proof fn lemma_text_less_irreflexive(a: Seq<char>)
    ensures
        !text_less(a, a),
    decreases a.len(),
{
    if a.len() > 0 {
        lemma_text_less_irreflexive(a.drop_first());
    }
}

/// The order of items by any statistic is a strict order.
pub proof fn lemma_item_order_strict(stat: SortStat)
    ensures
        strict_order(entry_order(stat)),
{
    let less = entry_order(stat);
    assert forall|a: (ItemId, DataInvItem)| !#[trigger] less(a, a) by {
        if stat == SortStat::Name {
            lemma_text_less_irreflexive(a.1.data.name@);
        }
    }
    assert forall|a: (ItemId, DataInvItem), b: (ItemId, DataInvItem), c: (ItemId, DataInvItem)|
        #[trigger] less(a, b) && #[trigger] less(b, c) implies less(a, c) by {
        if stat == SortStat::Name {
            lemma_text_less_transitive(a.1.data.name@, b.1.data.name@, c.1.data.name@);
        }
    }
}


/// The column of a course type in a row of four: normal, reverse, trick,
/// reverse trick.
pub open spec fn type_slot(t: CourseType) -> int {
    match t {
        CourseType::Normal => 0,
        CourseType::Reverse => 1,
        CourseType::Trick => 2,
        CourseType::ReverseTrick => 3,
    }
}

/// The grid cells of the first `n` courses, given by generation and type,
/// and the column the next course is expected in: each course says whether
/// it starts a new generation (a heading) and how many empty cells come
/// before it so that it stands in the column of its type.
pub open spec fn grid_of(s: Seq<(CourseGeneration, CourseType)>, n: int) -> (Seq<(bool, int)>, int)
    decreases n,
{
    if n <= 0 {
        (Seq::empty(), 0)
    } else {
        let prev = grid_of(s, n - 1);
        let new_group = n == 1 || s[n - 1].0 != s[n - 2].0;
        let expected = if new_group {
            0
        } else {
            prev.1
        };
        let slot = type_slot(s[n - 1].1);
        let actual = if slot < expected {
            slot + 4
        } else {
            slot
        };
        (prev.0.push((new_group, actual - expected)), (actual + 1) % 4)
    }
}

/// The (new generation, empty cells before) pairs of a list of courses
/// given by generation and type.
pub fn grid_cells(s: &Vec<(CourseGeneration, CourseType)>) -> (r: Vec<(bool, u8)>)
    ensures
        r@.map_values(|c: (bool, u8)| (c.0, c.1 as int)) == grid_of(s@, s@.len() as int).0,
{
    let mut r: Vec<(bool, u8)> = Vec::new();
    let mut expected: u8 = 0;
    let mut i: usize = 0;
    while i < s.len()
        invariant
            i <= s@.len(),
            expected < 4,
            expected as int == grid_of(s@, i as int).1,
            r@.map_values(|c: (bool, u8)| (c.0, c.1 as int)) == grid_of(s@, i as int).0,
        decreases s@.len() - i,
    {
        let new_group = i == 0 || s[i].0 != s[i - 1].0;
        let exp: u8 = if new_group {
            0
        } else {
            expected
        };
        let slot: u8 = match s[i].1 {
            CourseType::Normal => 0,
            CourseType::Reverse => 1,
            CourseType::Trick => 2,
            CourseType::ReverseTrick => 3,
        };
        let actual: u8 = if slot < exp {
            slot + 4
        } else {
            slot
        };
        let ghost before = r@.map_values(|c: (bool, u8)| (c.0, c.1 as int));
        r.push((new_group, actual - exp));
        assert(r@.map_values(|c: (bool, u8)| (c.0, c.1 as int)) =~= before.push((new_group, actual - exp)));
        expected = (actual + 1) % 4;
        i = i + 1;
    }
    r
}

/// The generation and type of a course, as its id tells them.
pub open spec fn course_kind_of_id(id: Seq<char>) -> (CourseGeneration, CourseType) {
    (
        course_generation_of_tag(
            captured_text(regex_capture(r"^c_(rmx|snes|n64|gba|gcn|ds|wii|3ds)_"@, id, 1)),
        ),
        course_type_of_suffix(captured_text(regex_capture(r"[_\d](r|t|r_t)$"@, id, 1))),
    )
}

/// The grid cells of the courses with the given ids, in that order.
pub fn course_grid(ids: &Vec<CourseId>) -> (r: Vec<(bool, u8)>)
    ensures
        r@.map_values(|c: (bool, u8)| (c.0, c.1 as int)) == grid_of(
            ids@.map_values(|id: CourseId| course_kind_of_id(id@)),
            ids@.len() as int,
        ).0,
{
    let mut kinds: Vec<(CourseGeneration, CourseType)> = Vec::new();
    let mut i: usize = 0;
    while i < ids.len()
        invariant
            i <= ids@.len(),
            kinds@ == ids@.take(i as int).map_values(|id: CourseId| course_kind_of_id(id@)),
        decreases ids@.len() - i,
    {
        let g = course_generation_from_id(ids[i].as_str());
        let t = course_type_from_id(ids[i].as_str());
        kinds.push((g, t));
        assert(ids@.take(i + 1).map_values(|id: CourseId| course_kind_of_id(id@)) =~= ids@.take(i as int).map_values(
            |id: CourseId| course_kind_of_id(id@),
        ).push((g, t)));
        i = i + 1;
    }
    assert(ids@.take(ids@.len() as int) =~= ids@);
    grid_cells(&kinds)
}

} // verus!
