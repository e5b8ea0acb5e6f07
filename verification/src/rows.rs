//! Finding the rows of item boxes in a black and white mask of a screenshot:
//! white runs as wide as an item mark the rows where items are.
use vstd::prelude::*;
use crate::screenshot::{area_overlap, proper_area, ItemArea};

verus! {

/// Row `y` of an image of width `w` stored row after row.
pub open spec fn row_of(px: Seq<u8>, w: int, y: int) -> Seq<u8> {
    px.subrange(y * w, y * w + w)
}

/// After the first `n` pixels of a row: the length of the current white run
/// and the lengths of the runs closed by a black pixel that are at least
/// `min` long.
pub open spec fn runs_of(row: Seq<u8>, n: int, min: int) -> (int, Seq<int>)
    decreases n,
{
    if n <= 0 {
        (0, Seq::<int>::empty())
    } else {
        let (c, e) = runs_of(row, n - 1, min);
        if row[n - 1] > 0 {
            (c + 1, e)
        } else {
            (0, if c > 0 && c >= min { e.push(c) } else { e })
        }
    }
}

/// The closed white runs of the first `y` rows, row after row.
pub open spec fn runs_of_rows(px: Seq<u8>, w: int, y: int, min: int) -> Seq<int>
    decreases y,
{
    if y <= 0 {
        Seq::<int>::empty()
    } else {
        runs_of_rows(px, w, y - 1, min) + runs_of(row_of(px, w, y - 1), w, min).1
    }
}

/// How many times `x` occurs in `s`.
pub open spec fn occurrences(s: Seq<int>, x: int) -> nat
    decreases s.len(),
{
    if s.len() == 0 {
        0
    } else {
        occurrences(s.drop_last(), x) + if s.last() == x {
            1nat
        } else {
            0nat
        }
    }
}

/// Whether `r` is a most frequent run length of `s` (0 when `s` is empty).
pub open spec fn most_frequent(s: Seq<int>, r: int) -> bool {
    if s.len() == 0 {
        r == 0
    } else {
        occurrences(s, r) > 0 && forall|x: int| occurrences(s, x) <= occurrences(s, r)
    }
}

/// The scan state of one row of the mask.
pub struct PixelScan {
    pub streaks: int,
    pub in_streak: bool,
    pub item_line: bool,
    pub white: int,
    pub black: int,
    pub long_white: int,
    pub stopped: bool,
}

/// One pixel of the row scan: `iw` is the item width, `in_item` whether the
/// previous row was an item row and `ic` its number of items. A row is an
/// item row when it has a white run of nearly an item width, or, right
/// after an item row, when its white spans (allowing gaps of up to an item
/// width) cover nearly the width of its items.
pub open spec fn pixel_step(s: PixelScan, p: u8, iw: int, in_item: bool, ic: int) -> PixelScan {
    if s.stopped {
        s
    } else {
        let (white, black, long_white) = if p > 0 {
            (s.white + 1, 0int, (if s.long_white > 0 { s.long_white + s.black } else { s.long_white }) + 1)
        } else {
            (0int, s.black + 1, if s.black > iw { 0int } else { s.long_white })
        };
        let is_streak = !in_item && white >= iw * 9 / 10;
        let streaks = if s.in_streak != is_streak && is_streak { s.streaks + 1 } else { s.streaks };
        let hit = streaks > 0 || in_item && long_white >= ic * iw * 9 / 10;
        PixelScan {
            streaks,
            in_streak: is_streak,
            item_line: s.item_line || hit,
            white,
            black,
            long_white,
            stopped: hit && in_item,
        }
    }
}

/// The scan state after the first `n` pixels of a row.
pub open spec fn scan_row(row: Seq<u8>, n: int, iw: int, in_item: bool, ic: int) -> PixelScan
    decreases n,
{
    if n <= 0 {
        PixelScan {
            streaks: 0,
            in_streak: false,
            item_line: false,
            white: 0,
            black: 0,
            long_white: 0,
            stopped: false,
        }
    } else {
        pixel_step(scan_row(row, n - 1, iw, in_item, ic), row[n - 1], iw, in_item, ic)
    }
}

/// The state of the row search after some rows.
pub struct RowSearch {
    pub in_item: bool,
    pub prev: Option<bool>,
    pub item_line: Option<int>,
    pub item_count: int,
    pub rows: Seq<ItemArea>,
}

/// The rows with the item row `l..y` of width `w` added: rows of 3 pixels or
/// less are dropped, and a gap of 3 rows or less to the previous item row
/// is bridged.
pub open spec fn add_row(rows: Seq<ItemArea>, l: int, y: int, w: int) -> Seq<ItemArea> {
    if y - l > 3 {
        if rows.len() > 0 {
            let ir = rows.last();
            if l - ir.y2 > 3 {
                rows.push(ItemArea { x1: 0, y1: l as u32, x2: w as u32, y2: y as u32 })
            } else {
                rows.drop_last().push(ItemArea { x1: 0, y1: ir.y1, x2: w as u32, y2: y as u32 })
            }
        } else {
            rows.push(ItemArea { x1: 0, y1: l as u32, x2: w as u32, y2: y as u32 })
        }
    } else {
        rows
    }
}

/// One row of the search: whether row `y` is an item row and how many item
/// runs it has.
pub open spec fn row_step(s: RowSearch, y: int, line: bool, streaks: int, w: int) -> RowSearch {
    let changed = s.prev != Some(line);
    if changed && line {
        RowSearch { in_item: line, prev: Some(line), item_line: Some(y), item_count: streaks, ..s }
    } else if changed && s.item_line is Some {
        RowSearch {
            in_item: line,
            prev: Some(line),
            item_line: None,
            item_count: 0,
            rows: add_row(s.rows, s.item_line->0, y, w),
        }
    } else {
        RowSearch { in_item: line, prev: Some(line), ..s }
    }
}

/// The search state after the first `y` rows, with item width `iw`.
pub open spec fn search_rows(px: Seq<u8>, w: int, y: int, iw: int) -> RowSearch
    decreases y,
{
    if y <= 0 {
        RowSearch { in_item: false, prev: None, item_line: None, item_count: 0, rows: Seq::empty() }
    } else {
        let s = search_rows(px, w, y - 1, iw);
        let scan = scan_row(row_of(px, w, y - 1), w, iw, s.in_item, s.item_count);
        row_step(s, y - 1, scan.item_line, scan.streaks, w)
    }
}

/// The item rows of a `w` by `h` mask with item width `iw`: a row still
/// open at the bottom ends at the bottom.
pub open spec fn item_rows(px: Seq<u8>, w: int, h: int, iw: int) -> Seq<ItemArea> {
    let s = search_rows(px, w, h, iw);
    match s.item_line {
        Some(l) => s.rows.push(ItemArea { x1: 0, y1: l as u32, x2: w as u32, y2: h as u32 }),
        None => s.rows,
    }
}

/// An optional row index as an integer.
pub open spec fn opt_int(o: Option<u32>) -> Option<int> {
    match o {
        Some(v) => Some(v as int),
        None => None,
    }
}

proof fn lemma_occurrences_outside(s: Seq<int>, x: int, w: int)
    requires
        forall|i: int| 0 <= i < s.len() ==> 0 < #[trigger] s[i] <= w,
        x < 1 || x > w,
    ensures
        occurrences(s, x) == 0,
    decreases s.len(),
{
    if s.len() > 0 {
        lemma_occurrences_outside(s.drop_last(), x, w);
    }
}

proof fn lemma_occurrences_member(s: Seq<int>, i: int)
    requires
        0 <= i < s.len(),
    ensures
        occurrences(s, s[i]) >= 1,
    decreases s.len(),
{
    if i < s.len() - 1 {
        lemma_occurrences_member(s.drop_last(), i);
    }
}

proof fn lemma_next_row_fits(y: int, w: int, h: int)
    requires
        0 <= y < h,
        0 <= w,
    ensures
        y * w + w <= w * h,
        (y + 1) * w == y * w + w,
{
    assert(y * w + w <= w * h) by (nonlinear_arith)
        requires
            0 <= y < h,
            0 <= w,
    ;
    assert((y + 1) * w == y * w + w) by (nonlinear_arith);
}

/// A most frequent length of the white runs, at least `min_width` long and
/// closed by a black pixel, of the rows of a `width` by `height` mask; 0
/// when there is none.
fn common_run_width(pixels: &Vec<u8>, width: u32, height: u32, min_width: u32) -> (iw: u32)
    requires
        pixels.len() == width * height,
    ensures
        most_frequent(
            runs_of_rows(pixels@, width as int, height as int, min_width as int),
            iw as int,
        ),
{
    let ghost px = pixels@;
    let ghost w = width as int;
    let ghost h = height as int;
    let ghost min = min_width as int;
    let mut counts: Vec<u64> = Vec::new();
    let mut k: u64 = 0;
    while k <= width as u64
        invariant
            k <= width + 1,
            counts.len() == k,
            forall|j: int| 0 <= j < k ==> counts[j] == 0,
        decreases width + 1 - k,
    {
        counts.push(0);
        k = k + 1;
    }
    let mut y: u32 = 0;
    let mut base: usize = 0;
    while y < height
        invariant
            px == pixels@,
            pixels.len() == w * h,
            w == width,
            h == height,
            min == min_width,
            y <= height,
            base == y * w,
            counts.len() == w + 1,
            forall|j: int|
                0 <= j <= w ==> #[trigger] counts[j] == occurrences(
                    runs_of_rows(px, w, y as int, min),
                    j,
                ),
            forall|j: int| 0 <= j <= w ==> #[trigger] counts[j] <= base,
            forall|i: int|
                0 <= i < runs_of_rows(px, w, y as int, min).len() ==> 0
                    < #[trigger] runs_of_rows(px, w, y as int, min)[i] <= w,
        decreases height - y,
    {
        proof {
            lemma_next_row_fits(y as int, w, h);
        }
        let ghost row = row_of(px, w, y as int);
        let ghost done = runs_of_rows(px, w, y as int, min);
        let mut x: u32 = 0;
        let mut streak: u64 = 0;
        while x < width
            invariant
                px == pixels@,
                pixels.len() == w * h,
                w == width,
                h == height,
                min == min_width,
                y < height,
                base == y * w,
                base + w <= pixels.len(),
                row == row_of(px, w, y as int),
                done == runs_of_rows(px, w, y as int, min),
                x <= width,
                counts.len() == w + 1,
                streak == runs_of(row, x as int, min).0,
                streak <= x,
                forall|j: int|
                    0 <= j <= w ==> #[trigger] counts[j] == occurrences(
                        done + runs_of(row, x as int, min).1,
                        j,
                    ),
                forall|j: int| 0 <= j <= w ==> #[trigger] counts[j] <= base + x,
                forall|i: int|
                    0 <= i < (done + runs_of(row, x as int, min).1).len() ==> 0 < #[trigger] (done
                        + runs_of(row, x as int, min).1)[i] <= w,
            decreases width - x,
        {
            let ghost before = done + runs_of(row, x as int, min).1;
            let p = pixels[base + x as usize];
            assert(row[x as int] == p);
            if p > 0 {
                streak = streak + 1;
            } else {
                if streak > 0 && streak >= min_width as u64 {
                    let c = streak as usize;
                    let n = counts[c];
                    counts.set(c, n + 1);
                    proof {
                        assert(done + runs_of(row, x + 1, min).1 =~= before.push(streak as int));
                        assert(before.push(streak as int).drop_last() =~= before);
                    }
                } else {
                    assert(done + runs_of(row, x + 1, min).1 =~= before);
                }
                streak = 0;
            }
            x = x + 1;
        }
        proof {
            assert(runs_of_rows(px, w, y + 1, min) == done + runs_of(row, w, min).1);
        }
        base = base + width as usize;
        y = y + 1;
    }
    let ghost runs = runs_of_rows(px, w, h, min);
    let mut best: u32 = 0;
    let mut best_count: u64 = 0;
    let mut k: u64 = 1;
    proof {
        lemma_occurrences_outside(runs, 0, w);
    }
    while k <= width as u64
        invariant
            1 <= k,
            k <= width + 1,
            counts.len() == w + 1,
            w == width,
            runs == runs_of_rows(px, w, h, min),
            forall|j: int| 0 <= j <= w ==> #[trigger] counts[j] == occurrences(runs, j),
            best < k,
            best_count == counts[best as int],
            best_count == 0 ==> best == 0,
            forall|j: int| 0 <= j < k ==> #[trigger] counts[j] <= best_count,
        decreases width + 1 - k,
    {
        if counts[k as usize] > best_count {
            best = k as u32;
            best_count = counts[k as usize];
        }
        k = k + 1;
    }
    proof {
        assert forall|x: int| occurrences(runs, x) <= occurrences(runs, best as int) by {
            if !(1 <= x <= w) {
                lemma_occurrences_outside(runs, x, w);
            } else {
                assert(counts[x] <= best_count);
            }
        }
        if runs.len() > 0 {
            lemma_occurrences_member(runs, 0);
            assert(counts[runs[0]] <= best_count);
        }
    }
    best
}

proof fn lemma_scan_stopped(row: Seq<u8>, n: int, m: int, iw: int, in_item: bool, ic: int)
    requires
        0 <= n <= m,
        scan_row(row, n, iw, in_item, ic).stopped,
    ensures
        scan_row(row, m, iw, in_item, ic) == scan_row(row, n, iw, in_item, ic),
    decreases m - n,
{
    if m > n {
        lemma_scan_stopped(row, n, m - 1, iw, in_item, ic);
    }
}

/// Scans the row of `width` pixels that starts at `start`: whether it is an
/// item row, and how many item-wide white runs it has.
fn scan_line(pixels: &Vec<u8>, start: usize, width: u32, iw: u32, in_item: bool, ic: u64) -> (r: (
    bool,
    u64,
))
    requires
        start + width <= pixels.len(),
    ensures
        r.0 == scan_row(pixels@.subrange(start as int, start + width), width as int, iw as int, in_item, ic as int).item_line,
        r.1 == scan_row(pixels@.subrange(start as int, start + width), width as int, iw as int, in_item, ic as int).streaks,
        r.1 <= width,
{
    let ghost row = pixels@.subrange(start as int, start + width);
    let streak_min: u64 = (iw as u64) * 9 / 10;
    proof {
        assert((ic as int) * (iw as int) <= u64::MAX * u32::MAX) by (nonlinear_arith)
            requires
                ic <= u64::MAX,
                iw <= u32::MAX,
        ;
        assert((ic as int) * (iw as int) >= 0) by (nonlinear_arith)
            requires
                ic >= 0,
                iw >= 0,
        ;
    }
    let long_min: u128 = (ic as u128) * (iw as u128) * 9 / 10;
    let mut streaks: u64 = 0;
    let mut in_streak = false;
    let mut item_line = false;
    let mut white: u64 = 0;
    let mut black: u64 = 0;
    let mut long_white: u64 = 0;
    let mut stopped = false;
    let mut x: u32 = 0;
    while x < width && !stopped
        invariant
            start + width <= pixels.len(),
            row == pixels@.subrange(start as int, start + width),
            x <= width,
            streak_min == iw * 9 / 10,
            long_min == ic * iw * 9 / 10,
            white <= x,
            long_white + black <= x,
            streaks <= x,
            scan_row(row, x as int, iw as int, in_item, ic as int) == (PixelScan {
                streaks: streaks as int,
                in_streak,
                item_line,
                white: white as int,
                black: black as int,
                long_white: long_white as int,
                stopped,
            }),
        decreases width - x,
    {
        let p = pixels[start + x as usize];
        assert(row[x as int] == p);
        if p > 0 {
            long_white = if long_white > 0 {
                long_white + black
            } else {
                long_white
            } + 1;
            white = white + 1;
            black = 0;
        } else {
            if black > iw as u64 {
                long_white = 0;
            }
            black = black + 1;
            white = 0;
        }
        let is_streak = !in_item && white >= streak_min;
        if in_streak != is_streak && is_streak {
            streaks = streaks + 1;
        }
        in_streak = is_streak;
        let hit = streaks > 0 || in_item && long_white as u128 >= long_min;
        if hit {
            item_line = true;
        }
        stopped = hit && in_item;
        x = x + 1;
    }
    proof {
        if stopped {
            lemma_scan_stopped(row, x as int, width as int, iw as int, in_item, ic as int);
        }
    }
    (item_line, streaks)
}

/// Adds the item row `l..y` to the rows found so far.
fn push_item_row(rows: &mut Vec<ItemArea>, l: u32, y: u32, width: u32)
    requires
        l <= y,
    ensures
        final(rows)@ == add_row(old(rows)@, l as int, y as int, width as int),
{
    if y - l > 3 {
        let ghost before = rows@;
        match rows.pop() {
            Some(ir) => {
                if l as u64 > ir.y2 as u64 + 3 {
                    rows.push(ir);
                    rows.push(ItemArea { x1: 0, y1: l, x2: width, y2: y });
                    assert(before.drop_last().push(before.last()) =~= before);
                } else {
                    rows.push(ItemArea { x1: 0, y1: ir.y1, x2: width, y2: y });
                }
            },
            None => {
                rows.push(ItemArea { x1: 0, y1: l, x2: width, y2: y });
            },
        }
    }
}

/// The rows of item boxes in a `width` by `height` black and white mask
/// stored row after row, and the item width they were found with: the most
/// frequent length of the white runs at least `min_width` long.
pub fn find_item_rows(pixels: &Vec<u8>, width: u32, height: u32, min_width: u32) -> (r: (
    Vec<ItemArea>,
    u32,
))
    requires
        pixels.len() == width * height,
    ensures
        most_frequent(
            runs_of_rows(pixels@, width as int, height as int, min_width as int),
            r.1 as int,
        ),
        r.0@ == item_rows(pixels@, width as int, height as int, r.1 as int),
{
    let iw = common_run_width(pixels, width, height, min_width);
    let ghost px = pixels@;
    let ghost w = width as int;
    let ghost h = height as int;
    let mut rows: Vec<ItemArea> = Vec::new();
    let mut prev: Option<bool> = None;
    let mut item_line: Option<u32> = None;
    let mut item_count: u64 = 0;
    let mut in_item = false;
    let mut y: u32 = 0;
    let mut base: usize = 0;
    while y < height
        invariant
            px == pixels@,
            pixels.len() == w * h,
            w == width,
            h == height,
            y <= height,
            base == y * w,
            search_rows(px, w, y as int, iw as int) == (RowSearch {
                in_item,
                prev,
                item_line: opt_int(item_line),
                item_count: item_count as int,
                rows: rows@,
            }),
            item_line matches Some(l) ==> l < y,
        decreases height - y,
    {
        proof {
            lemma_next_row_fits(y as int, w, h);
        }
        let (line, streaks) = scan_line(pixels, base, width, iw, in_item, item_count);
        let changed = match prev {
            Some(p) => p != line,
            None => true,
        };
        if changed {
            if line {
                item_count = streaks;
                item_line = Some(y);
            } else {
                match item_line {
                    Some(l) => {
                        item_count = 0;
                        push_item_row(&mut rows, l, y, width);
                        item_line = None;
                    },
                    None => {},
                }
            }
        }
        prev = Some(line);
        in_item = line;
        base = base + width as usize;
        y = y + 1;
    }
    match item_line {
        Some(l) => {
            rows.push(ItemArea { x1: 0, y1: l, x2: width, y2: height });
        },
        None => {},
    }
    (rows, iw)
}

/// A band of the full width `w` of the image, ending at row `bottom` at the
/// latest.
pub open spec fn full_band(a: ItemArea, w: int, bottom: int) -> bool {
    &&& w > 0
    &&& a.x1 == 0
    &&& a.x2 == w
    &&& a.y1 < a.y2
    &&& a.y2 <= bottom
}

/// Each band lies strictly above the next one.
pub open spec fn bands_in_order(rows: Seq<ItemArea>) -> bool {
    forall|i: int, j: int| 0 <= i < j < rows.len() ==> #[trigger] rows[i].y2 < #[trigger] rows[j].y1
}

proof fn lemma_search_bands(px: Seq<u8>, w: int, y: int, iw: int)
    requires
        0 <= w <= u32::MAX,
        0 <= y <= u32::MAX,
    ensures
        forall|i: int|
            0 <= i < search_rows(px, w, y, iw).rows.len() ==> full_band(
                #[trigger] search_rows(px, w, y, iw).rows[i],
                w,
                y - 1,
            ),
        bands_in_order(search_rows(px, w, y, iw).rows),
        search_rows(px, w, y, iw).item_line matches Some(l) ==> {
            &&& 0 <= l < y
            &&& w > 0
            &&& forall|i: int|
                0 <= i < search_rows(px, w, y, iw).rows.len() ==> #[trigger] search_rows(
                    px,
                    w,
                    y,
                    iw,
                ).rows[i].y2 < l
        },
    decreases y,
{
    if y > 0 {
        lemma_search_bands(px, w, y - 1, iw);
        let s = search_rows(px, w, y - 1, iw);
        let scan = scan_row(row_of(px, w, y - 1), w, iw, s.in_item, s.item_count);
        let t = search_rows(px, w, y, iw);
        assert(t == row_step(s, y - 1, scan.item_line, scan.streaks, w));
        if scan.item_line {
            assert(w > 0);
        }
        let changed = s.prev != Some(scan.item_line);
        if changed && !scan.item_line && s.item_line is Some {
            let l = s.item_line->0;
            let rows = s.rows;
            if y - 1 - l > 3 && rows.len() > 0 {
                let ir = rows.last();
                assert(full_band(ir, w, y - 2));
                if l - ir.y2 <= 3 {
                    assert forall|i: int, j: int| 0 <= i < j < t.rows.len() implies #[trigger] t.rows[i].y2
                        < #[trigger] t.rows[j].y1 by {
                        if j < rows.len() - 1 {
                            assert(rows[i].y2 < rows[j].y1);
                        } else {
                            assert(rows[i].y2 < rows[rows.len() - 1].y1);
                        }
                    }
                }
            }
        }
    }
}

/// The item rows of a mask are full-width bands inside the image, each
/// strictly above the next.
pub proof fn lemma_item_rows_bands(px: Seq<u8>, w: int, h: int, iw: int)
    requires
        0 <= w <= u32::MAX,
        0 <= h <= u32::MAX,
    ensures
        forall|i: int|
            0 <= i < item_rows(px, w, h, iw).len() ==> full_band(
                #[trigger] item_rows(px, w, h, iw)[i],
                w,
                h,
            ),
        bands_in_order(item_rows(px, w, h, iw)),
{
    lemma_search_bands(px, w, h, iw);
}

/// Whether each closed band is more than 3 pixels high and more than 3
/// pixels below the band before it (shorter bands are dropped, shorter gaps
/// bridged).
pub open spec fn bands_spaced(rows: Seq<ItemArea>) -> bool {
    &&& forall|i: int| 0 <= i < rows.len() ==> (#[trigger] rows[i]).y2 - rows[i].y1 > 3
    &&& forall|i: int| 0 < i < rows.len() ==> (#[trigger] rows[i]).y1 - rows[i - 1].y2 > 3
}

proof fn lemma_search_spaced(px: Seq<u8>, w: int, y: int, iw: int)
    requires
        0 <= w <= u32::MAX,
        0 <= y <= u32::MAX,
    ensures
        bands_spaced(search_rows(px, w, y, iw).rows),
    decreases y,
{
    if y > 0 {
        lemma_search_spaced(px, w, y - 1, iw);
        lemma_search_bands(px, w, y - 1, iw);
        let s = search_rows(px, w, y - 1, iw);
        let scan = scan_row(row_of(px, w, y - 1), w, iw, s.in_item, s.item_count);
        let t = search_rows(px, w, y, iw);
        assert(t == row_step(s, y - 1, scan.item_line, scan.streaks, w));
        let changed = s.prev != Some(scan.item_line);
        if changed && !scan.item_line && s.item_line is Some {
            let l = s.item_line->0;
            let rows = s.rows;
            if y - 1 - l > 3 && rows.len() > 0 {
                let ir = rows.last();
                assert(ir == rows[rows.len() - 1]);
                assert(ir.y2 < l);
                assert(full_band(ir, w, y - 2));
                if l - ir.y2 > 3 {
                    assert forall|i: int| 0 < i < t.rows.len() implies (#[trigger] t.rows[i]).y1 - t.rows[i - 1].y2 > 3 by {
                        if i < rows.len() {
                            assert(t.rows[i] == rows[i] && t.rows[i - 1] == rows[i - 1]);
                        }
                    }
                } else {
                    assert forall|i: int| 0 < i < t.rows.len() implies (#[trigger] t.rows[i]).y1 - t.rows[i - 1].y2 > 3 by {
                        if i < rows.len() - 1 {
                            assert(t.rows[i] == rows[i] && t.rows[i - 1] == rows[i - 1]);
                        } else {
                            assert(t.rows[i].y1 == rows[i].y1);
                            assert(t.rows[i - 1] == rows[i - 1]);
                        }
                    }
                    assert forall|i: int| 0 <= i < t.rows.len() implies (#[trigger] t.rows[i]).y2 - t.rows[i].y1 > 3 by {
                        if i < rows.len() - 1 {
                            assert(t.rows[i] == rows[i]);
                        }
                    }
                }
            }
        }
    }
}

/// The item rows of a mask are more than 3 pixels high and more than 3
/// pixels apart, but for a last row still open at the bottom, which may be
/// lower and closer.
pub proof fn lemma_item_rows_spaced(px: Seq<u8>, w: int, h: int, iw: int)
    requires
        0 <= w <= u32::MAX,
        0 <= h <= u32::MAX,
    ensures
        bands_spaced(search_rows(px, w, h, iw).rows),
        item_rows(px, w, h, iw).len() <= search_rows(px, w, h, iw).rows.len() + 1,
        forall|i: int| 0 <= i < search_rows(px, w, h, iw).rows.len() ==> #[trigger] item_rows(px, w, h, iw)[i]
            == search_rows(px, w, h, iw).rows[i],
{
    lemma_search_spaced(px, w, h, iw);
}

/// A `w` by `h` image turned a quarter clockwise: an `h` by `w` image whose
/// pixel at column `x`, row `y` is the unturned image's pixel at column `y`, row
/// `h - 1 - x`.
pub open spec fn rotated(px: Seq<u8>, w: int, h: int) -> Seq<u8> {
    Seq::new((w * h) as nat, |i: int| px[(h - 1 - i % h) * w + i / h])
}

proof fn lemma_rotated_index(w: int, h: int, x: int, y: int)
    requires
        0 <= x < h,
        0 <= y < w,
    ensures
        0 <= (h - 1 - x) * w + y < w * h,
        0 <= y * h + x < w * h,
        (y * h + x) % h == x,
        (y * h + x) / h == y,
{
    assert(0 <= (h - 1 - x) * w) by (nonlinear_arith)
        requires
            0 <= x < h,
            0 <= y < w,
    ;
    assert((h - 1 - x) * w <= (h - 1) * w) by (nonlinear_arith)
        requires
            0 <= x < h,
            0 <= y < w,
    ;
    assert((h - 1) * w + w == w * h) by (nonlinear_arith);
    assert(y * h + x < w * h) by (nonlinear_arith)
        requires
            0 <= x < h,
            0 <= y < w,
    ;
    assert(0 <= y * h) by (nonlinear_arith)
        requires
            0 <= x < h,
            0 <= y < w,
    ;
    vstd::arithmetic::div_mod::lemma_fundamental_div_mod_converse(y * h + x, h, y, x);
}

/// Turns a `width` by `height` mask a quarter clockwise, as
/// `image::imageops::rotate90` does.
pub fn rotate90(pixels: &Vec<u8>, width: u32, height: u32) -> (out: Vec<u8>)
    requires
        pixels.len() == width * height,
    ensures
        out@ == rotated(pixels@, width as int, height as int),
{
    let ghost w = width as int;
    let ghost h = height as int;
    let ghost target = rotated(pixels@, w, h);
    let mut out: Vec<u8> = Vec::new();
    let mut y: u32 = 0;
    while y < width
        invariant
            pixels.len() == w * h,
            w == width,
            h == height,
            target == rotated(pixels@, w, h),
            y <= width,
            out.len() == y * h,
            forall|i: int| 0 <= i < out.len() ==> out[i] == #[trigger] target[i],
        decreases width - y,
    {
        let mut x: u32 = 0;
        while x < height
            invariant
                pixels.len() == w * h,
                w == width,
                h == height,
                target == rotated(pixels@, w, h),
                y < width,
                x <= height,
                out.len() == y * h + x,
                forall|i: int| 0 <= i < out.len() ==> out[i] == #[trigger] target[i],
            decreases height - x,
        {
            proof {
                lemma_rotated_index(w, h, x as int, y as int);
            }
            let src = (height - 1 - x) as usize * width as usize + y as usize;
            let p = pixels[src];
            out.push(p);
            x = x + 1;
        }
        proof {
            assert((y + 1) * h == y * h + h) by (nonlinear_arith);
        }
        y = y + 1;
    }
    assert(out@ =~= target);
    out
}

/// The area with rows and columns exchanged.
pub open spec fn swapped(a: ItemArea) -> ItemArea {
    ItemArea { x1: a.y1, y1: a.x1, x2: a.y2, y2: a.x2 }
}

/// The number of pixels of an area.
pub open spec fn area_of(a: ItemArea) -> int {
    (a.x2 - a.x1) * (a.y2 - a.y1)
}

/// The cells of row `r` with the columns `cols` (found on the turned image):
/// their overlaps of more than 100 pixels, column after column.
pub open spec fn row_cells(r: ItemArea, cols: Seq<ItemArea>) -> Seq<ItemArea>
    decreases cols.len(),
{
    if cols.len() == 0 {
        Seq::empty()
    } else {
        let before = row_cells(r, cols.drop_last());
        match area_overlap(r, swapped(cols.last())) {
            Some(a) => if area_of(a) > 100 {
                before.push(a)
            } else {
                before
            },
            None => before,
        }
    }
}

/// The cells of every row with every column, row after row.
pub open spec fn grid_cells(rows: Seq<ItemArea>, cols: Seq<ItemArea>) -> Seq<ItemArea>
    decreases rows.len(),
{
    if rows.len() == 0 {
        Seq::empty()
    } else {
        grid_cells(rows.drop_last(), cols) + row_cells(rows.last(), cols)
    }
}

/// The item cells of a grid of rows and of columns found on the turned
/// image: each overlap of a row with a column that covers more than 100
/// pixels.
pub fn item_cells(rows: &Vec<ItemArea>, columns: &Vec<ItemArea>) -> (cells: Vec<ItemArea>)
    requires
        forall|i: int| 0 <= i < rows.len() ==> proper_area(#[trigger] rows[i]),
        forall|j: int| 0 <= j < columns.len() ==> proper_area(swapped(#[trigger] columns[j])),
    ensures
        cells@ == grid_cells(rows@, columns@),
{
    let mut cells: Vec<ItemArea> = Vec::new();
    let mut i: usize = 0;
    while i < rows.len()
        invariant
            i <= rows.len(),
            forall|i: int| 0 <= i < rows.len() ==> proper_area(#[trigger] rows[i]),
            forall|j: int| 0 <= j < columns.len() ==> proper_area(swapped(#[trigger] columns[j])),
            cells@ == grid_cells(rows@.take(i as int), columns@),
        decreases rows.len() - i,
    {
        let r = rows[i];
        let ghost done = cells@;
        let mut j: usize = 0;
        while j < columns.len()
            invariant
                i < rows.len(),
                j <= columns.len(),
                r == rows[i as int],
                proper_area(r),
                forall|j: int| 0 <= j < columns.len() ==> proper_area(swapped(#[trigger] columns[j])),
                cells@ == done + row_cells(r, columns@.take(j as int)),
            decreases columns.len() - j,
        {
            let c = columns[j].swap_x_y();
            let ghost before = cells@;
            match r.intersect(&c) {
                Some(a) => {
                    proof {
                        assert((a.x2 - a.x1) * (a.y2 - a.y1) <= u32::MAX * u32::MAX) by (nonlinear_arith)
                            requires
                                a.x1 < a.x2 <= u32::MAX,
                                a.y1 < a.y2 <= u32::MAX,
                        ;
                        assert((a.x2 - a.x1) * (a.y2 - a.y1) >= 0) by (nonlinear_arith)
                            requires
                                a.x1 < a.x2,
                                a.y1 < a.y2,
                        ;
                    }
                    let size = (a.x2 - a.x1) as u64 * (a.y2 - a.y1) as u64;
                    if size > 100 {
                        cells.push(a);
                        proof {
                            assert(done + row_cells(r, columns@.take(j + 1)) =~= before.push(a)) by {
                                assert(columns@.take(j + 1).drop_last() =~= columns@.take(j as int));
                            }
                        }
                    } else {
                        assert(columns@.take(j + 1).drop_last() =~= columns@.take(j as int));
                    }
                },
                None => {
                    assert(columns@.take(j + 1).drop_last() =~= columns@.take(j as int));
                },
            }
            j = j + 1;
        }
        proof {
            assert(columns@.take(columns.len() as int) =~= columns@);
            assert(rows@.take(i + 1).drop_last() =~= rows@.take(i as int));
        }
        i = i + 1;
    }
    assert(rows@.take(rows.len() as int) =~= rows@);
    cells
}

/// The cells of the item grid of a mask: rows found with the white runs of
/// `rows_min` pixels or more and item width `iw`, columns found on the
/// turned mask with the white runs of `iw` pixels or more and item height
/// `ih`.
pub open spec fn mask_cells(px: Seq<u8>, w: int, h: int, iw: int, ih: int) -> Seq<ItemArea> {
    grid_cells(item_rows(px, w, h, iw), item_rows(rotated(px, w, h), h, w, ih))
}

/// Whether `iw` and `ih` are item sizes that the search of rows (with
/// white runs of at least `rows_min` pixels) and then of columns may find in
/// a mask: most frequent run lengths.
pub open spec fn item_sizes(px: Seq<u8>, w: int, h: int, rows_min: int, iw: int, ih: int) -> bool {
    &&& most_frequent(runs_of_rows(px, w, h, rows_min), iw)
    &&& most_frequent(runs_of_rows(rotated(px, w, h), h, w, iw), ih)
}

/// Shortest white run of a row that counts when the item width is measured.
pub const ROW_MIN_WIDTH: u32 = 50;

/// The item cells of a `width` by `height` mask in which item boxes are
/// white: the rows of items, then the columns of items on the mask turned a
/// quarter clockwise (with runs at least as wide as an item), then every
/// overlap of a row and a column covering more than 100 pixels.
pub fn find_item_areas(mask: &Vec<u8>, width: u32, height: u32) -> (cells: Vec<ItemArea>)
    requires
        mask.len() == width * height,
        width <= i32::MAX,
        height <= i32::MAX,
    ensures
        exists|iw: u32, ih: u32|
            #[trigger] item_sizes(mask@, width as int, height as int, ROW_MIN_WIDTH as int, iw as int, ih as int)
                && cells@ == mask_cells(mask@, width as int, height as int, iw as int, ih as int),
{
    let ghost w = width as int;
    let ghost h = height as int;
    let (rows, iw) = find_item_rows(mask, width, height, ROW_MIN_WIDTH);
    let turned = rotate90(mask, width, height);
    assert(w * h == h * w) by (nonlinear_arith);
    let (columns, ih) = find_item_rows(&turned, height, width, iw);
    proof {
        lemma_item_rows_bands(mask@, w, h, iw as int);
        lemma_item_rows_bands(turned@, h, w, ih as int);
        assert forall|j: int| 0 <= j < columns.len() implies proper_area(swapped(#[trigger] columns[j])) by {
            assert(full_band(columns@[j], h, w));
        }
        assert forall|i: int| 0 <= i < rows.len() implies proper_area(#[trigger] rows[i]) by {
            assert(full_band(rows@[i], w, h));
        }
    }
    let cells = item_cells(&rows, &columns);
    assert(item_sizes(mask@, w, h, ROW_MIN_WIDTH as int, iw as int, ih as int));
    cells
}

} // verus!
