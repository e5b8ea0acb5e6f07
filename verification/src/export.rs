//! The inventory as a sheet for MKTHub: one line per owned item, items by
//! type and game order.
use vstd::prelude::*;
use crate::deduce::{first_above, insert_sorted, stable_sorted};
use crate::ids::{ItemId, ItemType};
use crate::stats::{DataInvItem, DataInventory};

verus! {

/// The decimal digit for `d` (0 to 9).
pub open spec fn digit_char(d: nat) -> char {
    if d == 0 {
        '0'
    } else if d == 1 {
        '1'
    } else if d == 2 {
        '2'
    } else if d == 3 {
        '3'
    } else if d == 4 {
        '4'
    } else if d == 5 {
        '5'
    } else if d == 6 {
        '6'
    } else if d == 7 {
        '7'
    } else if d == 8 {
        '8'
    } else {
        '9'
    }
}

/// The decimal text of `n`.
pub open spec fn decimal(n: nat) -> Seq<char>
    decreases n,
{
    if n < 10 {
        seq![digit_char(n)]
    } else {
        decimal(n / 10).push(digit_char(n % 10))
    }
}

fn digit_text(d: u64) -> (r: &'static str)
    requires
        d < 10,
    ensures
        r@ == seq![digit_char(d as nat)],
{
    let s = "0123456789";
    proof {
        reveal_strlit("0123456789");
    }
    let r = s.substring_char(d as usize, d as usize + 1);
    proof {
        assert(s@[d as int] == digit_char(d as nat)) by {
            if d == 0 {
            } else if d == 1 {
            } else if d == 2 {
            } else if d == 3 {
            } else if d == 4 {
            } else if d == 5 {
            } else if d == 6 {
            } else if d == 7 {
            } else if d == 8 {
            } else {
            }
        }
        assert(r@ =~= seq![digit_char(d as nat)]);
    }
    r
}

/// The decimal text of a number.
pub fn decimal_text(n: u64) -> (r: String)
    ensures
        r@ == decimal(n as nat),
    decreases n,
{
    if n < 10 {
        digit_text(n).to_owned()
    } else {
        let mut out = decimal_text(n / 10);
        let ghost before = out@;
        out.append(digit_text(n % 10));
        assert(out@ =~= before.push(digit_char((n % 10) as nat)));
        out
    }
}

/// The rank of an item type in the sheet: drivers, karts, then gliders.
pub open spec fn type_rank(t: ItemType) -> int {
    match t {
        ItemType::Driver => 0,
        ItemType::Kart => 1,
        ItemType::Glider => 2,
    }
}

/// The place of an item in the sheet: by type, then by sort number, items
/// without one first.
pub open spec fn sheet_key(t: ItemType, sort: Option<u32>) -> int {
    type_rank(t) * 0x2_0000_0000 + match sort {
        Some(v) => v + 1,
        None => 0,
    }
}

/// The sheet line of an owned item: name, level, skill (0) and points.
pub open spec fn sheet_line(name: Seq<char>, lvl: u8, points: u16) -> Seq<char> {
    name + seq![','] + decimal(lvl as nat) + seq![',', '0', ','] + decimal(points as nat) + seq!['\n']
}

/// The (place, line) of the owned items among the first `n` of a list.
pub open spec fn owned_lines(s: Seq<(String, DataInvItem)>, n: int) -> Seq<(int, Seq<char>)>
    decreases n,
{
    if n <= 0 {
        Seq::empty()
    } else {
        let e = s[n - 1].1;
        match e.inv {
            Some(o) => owned_lines(s, n - 1).push(
                (sheet_key(e.data.i_type, e.data.sort), sheet_line(e.data.name@, o.lvl, o.points)),
            ),
            None => owned_lines(s, n - 1),
        }
    }
}

/// The texts of a list, one after the other.
pub open spec fn joined(s: Seq<Seq<char>>) -> Seq<char>
    decreases s.len(),
{
    if s.len() == 0 {
        Seq::empty()
    } else {
        joined(s.drop_last()) + s.last()
    }
}

/// The heading line of the sheet.
pub open spec fn sheet_heading() -> Seq<char> {
    "DRIVER NAME,LEVEL,SKILL,POINTS\n"@
}

/// The sheet of a joined database and inventory: the heading, then the
/// lines of the owned drivers, karts and gliders in sheet order (items in
/// the same place keep their order).
pub open spec fn mkthub_sheet(d: DataInventory) -> Seq<char> {
    let all = owned_lines(d.drivers@, d.drivers@.len() as int) + owned_lines(
        d.karts@,
        d.karts@.len() as int,
    ) + owned_lines(d.gliders@, d.gliders@.len() as int);
    sheet_heading() + joined(stable_sorted(all).map_values(|e: (int, Seq<char>)| e.1))
}

/// Views of (place, line) pairs.
pub open spec fn line_views(s: Seq<(i64, String)>) -> Seq<(int, Seq<char>)> {
    s.map_values(|e: (i64, String)| (e.0 as int, e.1@))
}

fn place_after(s: &Vec<(i64, String)>, k: i64) -> (r: usize)
    ensures
        r == first_above(line_views(s@), k as int),
        r <= s@.len(),
{
    let mut i: usize = 0;
    assert(line_views(s@).skip(0) =~= line_views(s@));
    while i < s.len()
        invariant
            i <= s@.len(),
            first_above(line_views(s@), k as int) == i + first_above(
                line_views(s@).skip(i as int),
                k as int,
            ),
        decreases s@.len() - i,
    {
        let ghost rest = line_views(s@).skip(i as int);
        if s[i].0 > k {
            assert(rest[0] == line_views(s@)[i as int]);
            return i;
        }
        assert(rest.drop_first() =~= line_views(s@).skip(i + 1));
        i = i + 1;
    }
    assert(line_views(s@).skip(i as int).len() == 0);
    i
}

fn sheet_line_text(name: &str, lvl: u8, points: u16) -> (r: String)
    ensures
        r@ == sheet_line(name@, lvl, points),
{
    let mut out = name.to_owned();
    out.append(",");
    let l = decimal_text(lvl as u64);
    out.append(l.as_str());
    out.append(",0,");
    let p = decimal_text(points as u64);
    out.append(p.as_str());
    out.append("\n");
    proof {
        reveal_strlit(",");
        reveal_strlit(",0,");
        reveal_strlit("\n");
        assert(out@ =~= sheet_line(name@, lvl, points));
    }
    out
}

/// Adds the lines of the owned items of `list` to the sorted lines.
fn add_owned_lines(list: &Vec<(ItemId, DataInvItem)>, sorted: &mut Vec<(i64, String)>, Ghost(pre): Ghost<
    Seq<(int, Seq<char>)>,
>)
    requires
        line_views(old(sorted)@) == stable_sorted(pre),
    ensures
        line_views(final(sorted)@) == stable_sorted(pre + owned_lines(list@, list@.len() as int)),
{
    let mut i: usize = 0;
    assert(pre + owned_lines(list@, 0) =~= pre);
    while i < list.len()
        invariant
            i <= list@.len(),
            line_views(sorted@) == stable_sorted(pre + owned_lines(list@, i as int)),
        decreases list@.len() - i,
    {
        let e = &list[i].1;
        match &e.inv {
            Some(o) => {
                let rank: i64 = match e.data.i_type {
                    ItemType::Driver => 0,
                    ItemType::Kart => 1,
                    ItemType::Glider => 2,
                };
                let key: i64 = rank * 0x2_0000_0000 + match e.data.sort {
                    Some(v) => v as i64 + 1,
                    None => 0,
                };
                let line = sheet_line_text(e.data.name.as_str(), o.lvl, o.points);
                let ghost all = pre + owned_lines(list@, i as int);
                let ghost x = (key as int, line@);
                assert(pre + owned_lines(list@, i + 1) =~= all.push(x));
                assert(all.push(x).drop_last() =~= all);
                let p = place_after(sorted, key);
                let ghost before = line_views(sorted@);
                sorted.insert(p, (key, line));
                assert(line_views(sorted@) =~= insert_sorted(before, x));
            },
            None => {
                assert(pre + owned_lines(list@, i + 1) =~= pre + owned_lines(list@, i as int));
            },
        }
        i = i + 1;
    }
}

/// The MKTHub sheet of the owned items: a heading line, then for each
/// owned item, by type and game order, its name, level, skill (always 0)
/// and points.
pub fn mkthub_csv(d: &DataInventory) -> (r: String)
    ensures
        r@ == mkthub_sheet(*d),
{
    let mut sorted: Vec<(i64, String)> = Vec::new();
    assert(line_views(sorted@) =~= stable_sorted(Seq::<(int, Seq<char>)>::empty()));
    add_owned_lines(&d.drivers, &mut sorted, Ghost(Seq::empty()));
    let ghost a = Seq::<(int, Seq<char>)>::empty() + owned_lines(d.drivers@, d.drivers@.len() as int);
    add_owned_lines(&d.karts, &mut sorted, Ghost(a));
    let ghost b = a + owned_lines(d.karts@, d.karts@.len() as int);
    add_owned_lines(&d.gliders, &mut sorted, Ghost(b));
    let mut out = "DRIVER NAME,LEVEL,SKILL,POINTS\n".to_owned();
    let ghost lines = line_views(sorted@).map_values(|e: (int, Seq<char>)| e.1);
    let mut j: usize = 0;
    assert(out@ == sheet_heading() + joined(lines.take(0))) by {
        assert(lines.take(0) =~= Seq::<Seq<char>>::empty());
        assert(sheet_heading() + Seq::<char>::empty() =~= sheet_heading());
    }
    while j < sorted.len()
        invariant
            j <= sorted@.len(),
            lines == line_views(sorted@).map_values(|e: (int, Seq<char>)| e.1),
            out@ == sheet_heading() + joined(lines.take(j as int)),
        decreases sorted@.len() - j,
    {
        let ghost before = out@;
        out.append(sorted[j].1.as_str());
        proof {
            assert(lines.take(j + 1).drop_last() =~= lines.take(j as int));
            assert(lines.take(j + 1).last() == sorted@[j as int].1@);
            assert(out@ =~= sheet_heading() + joined(lines.take(j + 1)));
        }
        j = j + 1;
    }
    proof {
        assert(lines.take(sorted@.len() as int) =~= lines);
        let all = owned_lines(d.drivers@, d.drivers@.len() as int) + owned_lines(
            d.karts@,
            d.karts@.len() as int,
        ) + owned_lines(d.gliders@, d.gliders@.len() as int);
        assert(b + owned_lines(d.gliders@, d.gliders@.len() as int) =~= all);
    }
    out
}

} // verus!
