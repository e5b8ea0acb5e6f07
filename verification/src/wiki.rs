//! Reading the pages of the Super Mario Wiki: the summary table, the Mii
//! table, the item list pages and the course coverage pages, each taken
//! apart into the plain rows, cells and links that the update functions
//! work on.
use vstd::prelude::*;
use crate::html::{
    end_of, first_text_in, first_text_of, has_ancestor, has_ancestor_named, named_in, named_of,
    next_sibling, next_sibling_of, parent_of, parent_scan, parse_document, parsed_document,
    prev_element, prev_element_of, subtree_end, text_or_empty, texts_in, texts_of, close_of,
    close_scan, doc_view, HtmlNode, HtmlNodeView,
};
use crate::text::{same_text, views};
use crate::data::MktData;
use crate::ids::ItemType;
use crate::update::{
    add_listed_items_and_courses, add_listed_miis, add_page_items, apply_coverage_pages, catalog_added,
    cell_pair_views, coverage_added, listed_courses, listed_items, listed_miis, listed_page_items,
    mii_names_of, mii_start, miis_added, page_items, page_items_added, page_named, pair_list_views,
    table_fits, table_named, table_views, CoverageLink, CoveragePage, CoverageRow, CoverageTable,
    LinkView, PageView, RowView, TableView,
};

verus! {

// ----- the summary table -----

/// The texts of the links inside table cells among the nodes `j` to `to`.
pub open spec fn cell_link_texts(d: Seq<HtmlNodeView>, j: int, to: int) -> Seq<Seq<char>>
    decreases to - j,
{
    if j >= to {
        Seq::empty()
    } else {
        (if d[j].name == "a"@ && has_ancestor(d, j, "td"@) {
            seq![texts_in(d, j + 1, subtree_end(d, j))]
        } else {
            Seq::empty()
        }) + cell_link_texts(d, j + 1, to)
    }
}

/// The rows of a document: for each `tr` element, the texts of the links
/// of its cells (`tr`, then `td a`, each link's text joined).
pub open spec fn template_rows_of(d: Seq<HtmlNodeView>) -> Seq<Seq<Seq<char>>> {
    named_in(d, "tr"@, 0, d.len() as int).map_values(|r: int| cell_link_texts(d, r + 1, subtree_end(d, r)))
}

fn cell_links(nodes: &Vec<HtmlNode>, from: usize, to: usize) -> (r: Vec<String>)
    requires
        from <= to <= nodes@.len(),
    ensures
        views(r@) == cell_link_texts(doc_view(nodes@), from as int, to as int),
{
    let ghost d = doc_view(nodes@);
    let mut out: Vec<String> = Vec::new();
    let mut j = from;
    while j < to
        invariant
            d == doc_view(nodes@),
            from <= j <= to <= nodes@.len(),
            views(out@) + cell_link_texts(d, j as int, to as int) == cell_link_texts(d, from as int, to as int),
        decreases to - j,
    {
        let ghost before = views(out@);
        if same_text(nodes[j].name.as_str(), "a") && has_ancestor_named(nodes, j, "td") {
            let e = end_of(nodes, j);
            let t = texts_of(nodes, j + 1, e);
            out.push(t);
            assert(views(out@) =~= before.push(texts_in(d, j + 1, subtree_end(d, j as int))));
        }
        assert(views(out@) + cell_link_texts(d, j + 1, to as int) =~= before + cell_link_texts(
            d,
            j as int,
            to as int,
        ));
        j = j + 1;
    }
    assert(views(out@) + Seq::<Seq<char>>::empty() =~= views(out@));
    out
}

fn rows_of_doc(nodes: &Vec<HtmlNode>) -> (r: Vec<Vec<String>>)
    ensures
        table_views(r@) == template_rows_of(doc_view(nodes@)),
{
    let ghost d = doc_view(nodes@);
    let rows = named_of(nodes, "tr", 0, nodes.len());
    let ghost rs = rows@.map_values(|x: usize| x as int);
    let mut out: Vec<Vec<String>> = Vec::new();
    let mut i: usize = 0;
    while i < rows.len()
        invariant
            d == doc_view(nodes@),
            rs == rows@.map_values(|x: usize| x as int),
            rs == named_in(d, "tr"@, 0, d.len() as int),
            forall|k: int| 0 <= k < rows@.len() ==> #[trigger] rows@[k] < nodes@.len(),
            i <= rows@.len(),
            table_views(out@) == rs.take(i as int).map_values(
                |r: int| cell_link_texts(d, r + 1, subtree_end(d, r)),
            ),
        decreases rows@.len() - i,
    {
        let r = rows[i];
        let e = end_of(nodes, r);
        let links = cell_links(nodes, r + 1, e);
        let ghost before = table_views(out@);
        out.push(links);
        assert(rs[i as int] == r as int);
        assert(table_views(out@) =~= before.push(cell_link_texts(d, r + 1, subtree_end(d, r as int))));
        assert(rs.take(i + 1).map_values(|r: int| cell_link_texts(d, r + 1, subtree_end(d, r))) =~= rs.take(
            i as int,
        ).map_values(|r: int| cell_link_texts(d, r + 1, subtree_end(d, r))).push(
            cell_link_texts(d, r + 1, subtree_end(d, r as int)),
        ));
        i = i + 1;
    }
    assert(rs.take(i as int) =~= rs);
    out
}

/// The rows of the wiki's summary table page: for each row, the texts of
/// the links in its cells.
pub fn template_rows(html: &str) -> (r: Vec<Vec<String>>)
    ensures
        table_views(r@) == template_rows_of(parsed_document(html@)),
{
    let (nodes, _inner) = parse_document(html);
    rows_of_doc(&nodes)
}


// ----- the Mii table -----

/// The first node from `j` on whose `id` is `v`.
pub open spec fn first_with_id(d: Seq<HtmlNodeView>, v: Seq<char>, j: int) -> Option<int>
    decreases d.len() - j,
{
    if j < 0 || j >= d.len() {
        None
    } else if d[j].id == Some(v) {
        Some(j)
    } else {
        first_with_id(d, v, j + 1)
    }
}

/// The first `table` sibling of node `p` among the nodes `j` to `to`.
pub open spec fn table_sibling(d: Seq<HtmlNodeView>, p: int, j: int, to: int) -> Option<int>
    decreases to - j,
{
    if j >= to {
        None
    } else if d[j].depth == d[p].depth && d[j].name == "table"@ {
        Some(j)
    } else {
        table_sibling(d, p, j + 1, to)
    }
}

/// The first texts of the bold texts inside cells among the nodes `j` to
/// `to` (`td b`), or `None` when one of them has no text.
pub open spec fn bold_texts(d: Seq<HtmlNodeView>, j: int, to: int) -> Option<Seq<Seq<char>>>
    decreases to - j,
{
    if j >= to {
        Some(Seq::empty())
    } else {
        let rest = bold_texts(d, j + 1, to);
        if d[j].name == "b"@ && has_ancestor(d, j, "td"@) {
            match (first_text_in(d, j + 1, subtree_end(d, j)), rest) {
                (Some(t), Some(r)) => Some(seq![t] + r),
                _ => None,
            }
        } else {
            rest
        }
    }
}

/// Whether row `i` of the Mii table names Miis: the third row and every
/// fourth after it.
pub open spec fn mii_row(i: int) -> bool {
    i >= 2 && (i - 2) % 4 == 0
}

/// The first `n` rows of the Mii table: the bold cell texts of the rows
/// that name Miis, nothing for the others; `None` when a bold cell of such
/// a row has no text.
pub open spec fn mii_table_rows(d: Seq<HtmlNodeView>, rows: Seq<int>, n: int) -> Option<Seq<Seq<Seq<char>>>>
    decreases n,
{
    if n <= 0 {
        Some(Seq::empty())
    } else {
        match mii_table_rows(d, rows, n - 1) {
            None => None,
            Some(acc) => if mii_row(n - 1) {
                match bold_texts(d, rows[n - 1] + 1, subtree_end(d, rows[n - 1])) {
                    Some(t) => Some(acc.push(t)),
                    None => None,
                }
            } else {
                Some(acc.push(Seq::empty()))
            },
        }
    }
}

/// The rows of the Mii table of a document: the element with id
/// `Mario_Kart_Tour`, its parent, the first `table` among that parent's
/// later siblings, then its `tr` rows; `None` where one of them is missing
/// or a bold cell of a Mii row has no text.
pub open spec fn mii_rows_of(d: Seq<HtmlNodeView>) -> Option<Seq<Seq<Seq<char>>>> {
    match first_with_id(d, "Mario_Kart_Tour"@, 0) {
        None => None,
        Some(s) => match parent_scan(d, s, s) {
            None => None,
            Some(p) => match table_sibling(d, p, p + 1, close_scan(d, p, p + 1)) {
                None => None,
                Some(t) => {
                    let rows = named_in(d, "tr"@, t + 1, subtree_end(d, t));
                    mii_table_rows(d, rows, rows.len() as int)
                },
            },
        },
    }
}

fn bold_cells(nodes: &Vec<HtmlNode>, from: usize, to: usize) -> (r: Option<Vec<String>>)
    requires
        from <= to <= nodes@.len(),
    ensures
        match bold_texts(doc_view(nodes@), from as int, to as int) {
            Some(t) => r matches Some(v) && views(v@) == t,
            None => r is None,
        },
{
    let ghost d = doc_view(nodes@);
    let mut out: Vec<String> = Vec::new();
    let mut j = from;
    while j < to
        invariant
            d == doc_view(nodes@),
            from <= j <= to <= nodes@.len(),
            bold_texts(d, from as int, to as int) == match bold_texts(d, j as int, to as int) {
                Some(t) => Some(views(out@) + t),
                None => None::<Seq<Seq<char>>>,
            },
        decreases to - j,
    {
        let ghost before = views(out@);
        if same_text(nodes[j].name.as_str(), "b") && has_ancestor_named(nodes, j, "td") {
            let e = end_of(nodes, j);
            match first_text_of(nodes, j + 1, e) {
                Some(t) => {
                    out.push(t);
                    proof {
                        assert(views(out@) =~= before.push(first_text_in(d, j + 1, subtree_end(d, j as int))->0));
                        match bold_texts(d, j + 1, to as int) {
                            Some(rest) => {
                                assert(before + (seq![first_text_in(d, j + 1, subtree_end(d, j as int))->0] + rest)
                                    =~= views(out@) + rest);
                            },
                            None => {},
                        }
                    }
                },
                None => {
                    return None;
                },
            }
        }
        j = j + 1;
    }
    assert(views(out@) + Seq::<Seq<char>>::empty() =~= views(out@));
    Some(out)
}

fn first_id_of(nodes: &Vec<HtmlNode>, v: &str) -> (r: Option<usize>)
    ensures
        match first_with_id(doc_view(nodes@), v@, 0) {
            Some(s) => r matches Some(v) && v as int == s && 0 <= s < nodes@.len(),
            None => r is None,
        },
{
    let ghost d = doc_view(nodes@);
    let mut j: usize = 0;
    while j < nodes.len()
        invariant
            d == doc_view(nodes@),
            j <= nodes@.len(),
            first_with_id(d, v@, j as int) == first_with_id(d, v@, 0),
        decreases nodes@.len() - j,
    {
        match &nodes[j].id {
            Some(x) => {
                if same_text(x.as_str(), v) {
                    return Some(j);
                }
            },
            None => {},
        }
        j = j + 1;
    }
    None
}

fn table_sibling_of(nodes: &Vec<HtmlNode>, p: usize, from: usize, to: usize) -> (r: Option<usize>)
    requires
        p < nodes@.len(),
        from <= to <= nodes@.len(),
    ensures
        match table_sibling(doc_view(nodes@), p as int, from as int, to as int) {
            Some(t) => r matches Some(v) && v as int == t && from <= t < to,
            None => r is None,
        },
{
    let ghost d = doc_view(nodes@);
    let mut j = from;
    proof {
        lemma_table_sibling_range(d, p as int, from as int, to as int);
    }
    while j < to
        invariant
            d == doc_view(nodes@),
            p < nodes@.len(),
            from <= j <= to <= nodes@.len(),
            table_sibling(d, p as int, j as int, to as int) == table_sibling(d, p as int, from as int, to as int),
            forall|t: int| table_sibling(d, p as int, j as int, to as int) == Some(t) ==> j <= t < to,
        decreases to - j,
    {
        proof {
            lemma_table_sibling_range(d, p as int, j + 1, to as int);
        }
        if nodes[j].depth == nodes[p].depth && same_text(nodes[j].name.as_str(), "table") {
            return Some(j);
        }
        j = j + 1;
    }
    None
}

proof fn lemma_table_sibling_range(d: Seq<HtmlNodeView>, p: int, j: int, to: int)
    ensures
        forall|t: int| table_sibling(d, p, j, to) == Some(t) ==> j <= t < to,
    decreases to - j,
{
    if j < to {
        lemma_table_sibling_range(d, p, j + 1, to);
    }
}

/// The rows of the Mii table of the wiki's Mii page: the bold cell texts of
/// the rows that name Miis, nothing for the others; `None` when the table
/// is not found or a bold cell of such a row has no text.
pub fn mii_rows(html: &str) -> (r: Option<Vec<Vec<String>>>)
    ensures
        match mii_rows_of(parsed_document(html@)) {
            Some(rows) => r matches Some(v) && table_views(v@) == rows,
            None => r is None,
        },
{
    let (nodes, _inner) = parse_document(html);
    let ghost d = doc_view(nodes@);
    let s = match first_id_of(&nodes, "Mario_Kart_Tour") {
        Some(s) => s,
        None => {
            return None;
        },
    };
    let p = match parent_of(&nodes, s) {
        Some(p) => p,
        None => {
            return None;
        },
    };
    let close = close_of(&nodes, p);
    let t = match table_sibling_of(&nodes, p, p + 1, close) {
        Some(t) => t,
        None => {
            return None;
        },
    };
    let e = end_of(&nodes, t);
    let rows = named_of(&nodes, "tr", t + 1, e);
    let ghost rs = rows@.map_values(|x: usize| x as int);
    assert(mii_rows_of(d) == mii_table_rows(d, rs, rs.len() as int));
    let mut out: Vec<Vec<String>> = Vec::new();
    let mut i: usize = 0;
    while i < rows.len()
        invariant
            d == doc_view(nodes@),
            d == parsed_document(html@),
            mii_rows_of(d) == mii_table_rows(d, rs, rs.len() as int),
            rs.len() == rows@.len(),
            rs == rows@.map_values(|x: usize| x as int),
            forall|k: int| 0 <= k < rows@.len() ==> #[trigger] rows@[k] < nodes@.len(),
            i <= rows@.len(),
            mii_table_rows(d, rs, i as int) == Some(table_views(out@)),
        decreases rows@.len() - i,
    {
        let r = rows[i];
        assert(rs[i as int] == r as int);
        if i >= 2 && (i - 2) % 4 == 0 {
            let e = end_of(&nodes, r);
            match bold_cells(&nodes, r + 1, e) {
                Some(cells) => {
                    let ghost before = table_views(out@);
                    out.push(cells);
                    assert(table_views(out@) =~= before.push(views(cells@)));
                },
                None => {
                    proof {
                        assert(mii_row(i as int));
                        assert(mii_table_rows(d, rs, i + 1) is None);
                        lemma_mii_rows_stay_none(d, rs, i + 1, rs.len() as int);
                    }
                    return None;
                },
            }
        } else {
            let ghost before = table_views(out@);
            let none: Vec<String> = Vec::new();
            assert(views(none@) =~= Seq::<Seq<char>>::empty());
            out.push(none);
            assert(!mii_row(i as int));
            assert(table_views(out@) =~= before.push(Seq::<Seq<char>>::empty()));
        }
        i = i + 1;
    }
    Some(out)
}

proof fn lemma_mii_rows_stay_none(d: Seq<HtmlNodeView>, rows: Seq<int>, m: int, n: int)
    requires
        m <= n,
        mii_table_rows(d, rows, m) is None,
    ensures
        mii_table_rows(d, rows, n) is None,
    decreases n - m,
{
    if m < n {
        lemma_mii_rows_stay_none(d, rows, m + 1, n);
    }
}


// ----- the item list pages -----

/// The views of the inner HTML of the nodes.
pub open spec fn inner_view(inner: Seq<Option<String>>) -> Seq<Option<Seq<char>>> {
    inner.map_values(|o: Option<String>| crate::html::opt_text(o))
}

/// Whether node `t` is a `table` whose previous element sibling is an `h2`
/// (`h2 + table`).
pub open spec fn h2_table(d: Seq<HtmlNodeView>, t: int) -> bool {
    d[t].name == "table"@ && match prev_element(d, t) {
        Some(p) => d[p].name == "h2"@,
        None => false,
    }
}

/// Whether an ancestor of a node, among the nodes before index `m` whose
/// depth is under `low`, is an `h2 + table`.
pub open spec fn h2_table_anc_scan(d: Seq<HtmlNodeView>, m: int, low: int) -> bool
    decreases m,
{
    if m <= 0 {
        false
    } else if d[m - 1].depth < low {
        h2_table(d, m - 1) || h2_table_anc_scan(d, m - 1, d[m - 1].depth)
    } else {
        h2_table_anc_scan(d, m - 1, low)
    }
}

/// The first `tbody` from node `j` on that is inside an `h2 + table`
/// (`h2 + table tbody`).
pub open spec fn first_tbody(d: Seq<HtmlNodeView>, j: int) -> Option<int>
    decreases d.len() - j,
{
    if j < 0 || j >= d.len() {
        None
    } else if d[j].name == "tbody"@ && h2_table_anc_scan(d, j, d[j].depth) {
        Some(j)
    } else {
        first_tbody(d, j + 1)
    }
}

/// Whether node `j` is a cell of an item list row: a `td`, or a titled
/// link that is the first element of its parent, inside a `th`
/// (`th a[title]:first-child, td`).
pub open spec fn item_cell(d: Seq<HtmlNodeView>, j: int) -> bool {
    ||| d[j].name == "td"@
    ||| (d[j].name == "a"@ && d[j].title is Some && prev_element(d, j) is None && has_ancestor(d, j, "th"@))
}

/// The item cells among the nodes `j` to `to`.
pub open spec fn cells_in(d: Seq<HtmlNodeView>, j: int, to: int) -> Seq<int>
    decreases to - j,
{
    if j >= to {
        Seq::empty()
    } else {
        (if item_cell(d, j) {
            seq![j]
        } else {
            Seq::empty()
        }) + cells_in(d, j + 1, to)
    }
}

/// The inner HTML of the element siblings of node `x` among the nodes `j`
/// to `to`.
pub open spec fn sibling_htmls(d: Seq<HtmlNodeView>, inner: Seq<Option<Seq<char>>>, x: int, j: int, to: int) -> Seq<
    Seq<char>,
>
    decreases to - j,
{
    if j >= to {
        Seq::empty()
    } else {
        (if d[j].depth == d[x].depth && d[j].name.len() > 0 {
            seq![text_or_empty(inner[j])]
        } else {
            Seq::empty()
        }) + sibling_htmls(d, inner, x, j + 1, to)
    }
}

/// Texts joined with single spaces.
pub open spec fn join_spaced(s: Seq<Seq<char>>) -> Seq<char>
    decreases s.len(),
{
    if s.len() == 0 {
        Seq::empty()
    } else if s.len() == 1 {
        s[0]
    } else {
        join_spaced(s.drop_last()) + " "@ + s.last()
    }
}

/// The name cell text of node `x`: its inner HTML and that of each later
/// element sibling, joined with spaces.
pub open spec fn name_html(d: Seq<HtmlNodeView>, inner: Seq<Option<Seq<char>>>, x: int) -> Seq<char> {
    join_spaced(seq![text_or_empty(inner[x])] + sibling_htmls(d, inner, x, x + 1, close_scan(d, x, x + 1)))
}

/// The first `k` (name, rarity text) pairs of a name row's cells `ns` and
/// a rarity row's cells `rs`.
pub open spec fn cell_pairs(d: Seq<HtmlNodeView>, inner: Seq<Option<Seq<char>>>, ns: Seq<int>, rs: Seq<int>, k: int) -> Seq<
    (Seq<char>, Option<Seq<char>>),
>
    decreases k,
{
    if k <= 0 {
        Seq::empty()
    } else {
        cell_pairs(d, inner, ns, rs, k - 1).push(
            (name_html(d, inner, ns[k - 1]), first_text_in(d, rs[k - 1] + 1, subtree_end(d, rs[k - 1]))),
        )
    }
}

/// The pairs of the name row (first) and rarity row (fourth) of a group of
/// rows starting at row `r`.
pub open spec fn group_pairs(d: Seq<HtmlNodeView>, inner: Seq<Option<Seq<char>>>, names: int, rarities: int) -> Seq<
    (Seq<char>, Option<Seq<char>>),
> {
    let ns = cells_in(d, names + 1, subtree_end(d, names));
    let rs = cells_in(d, rarities + 1, subtree_end(d, rarities));
    cell_pairs(d, inner, ns, rs, if ns.len() < rs.len() {
        ns.len() as int
    } else {
        rs.len() as int
    })
}

/// The pairs of the row groups of `row_num` rows from row `i` on; `None`
/// when a group has fewer than four rows.
pub open spec fn group_cells(d: Seq<HtmlNodeView>, inner: Seq<Option<Seq<char>>>, rows: Seq<int>, i: int, row_num: int) -> Option<
    Seq<(Seq<char>, Option<Seq<char>>)>,
>
    decreases (if i < rows.len() {
        rows.len() - i
    } else {
        0
    }),
{
    if i < 0 || i >= rows.len() {
        Some(Seq::empty())
    } else if row_num < 4 || i + 4 > rows.len() {
        None
    } else {
        match group_cells(d, inner, rows, i + row_num, row_num) {
            Some(rest) => Some(group_pairs(d, inner, rows[i], rows[i + 3]) + rest),
            None => None,
        }
    }
}

/// The (name cell, rarity text) pairs of an item list page: the rows of the
/// first `h2 + table tbody`, in groups of `row_num`, each group's first row
/// naming items and its fourth giving their rarities.
pub open spec fn page_cells_of(d: Seq<HtmlNodeView>, inner: Seq<Option<Seq<char>>>, row_num: int) -> Option<
    Seq<(Seq<char>, Option<Seq<char>>)>,
> {
    match first_tbody(d, 0) {
        None => None,
        Some(tb) => group_cells(d, inner, named_in(d, "tr"@, tb + 1, subtree_end(d, tb)), 0, row_num),
    }
}

fn is_h2_table(nodes: &Vec<HtmlNode>, t: usize) -> (r: bool)
    requires
        t < nodes@.len(),
    ensures
        r == h2_table(doc_view(nodes@), t as int),
{
    if !same_text(nodes[t].name.as_str(), "table") {
        return false;
    }
    match prev_element_of(nodes, t) {
        Some(p) => same_text(nodes[p].name.as_str(), "h2"),
        None => false,
    }
}

fn under_h2_table(nodes: &Vec<HtmlNode>, j: usize) -> (r: bool)
    requires
        j < nodes@.len(),
    ensures
        r == h2_table_anc_scan(doc_view(nodes@), j as int, doc_view(nodes@)[j as int].depth),
{
    let ghost d = doc_view(nodes@);
    let mut m = j;
    let mut low = nodes[j].depth;
    while m > 0
        invariant
            d == doc_view(nodes@),
            m <= j < nodes@.len(),
            h2_table_anc_scan(d, m as int, low as int) == h2_table_anc_scan(d, j as int, d[j as int].depth),
        decreases m,
    {
        let a = m - 1;
        if nodes[a].depth < low {
            if is_h2_table(nodes, a) {
                return true;
            }
            low = nodes[a].depth;
        }
        m = a;
    }
    false
}

fn first_tbody_of(nodes: &Vec<HtmlNode>) -> (r: Option<usize>)
    ensures
        match first_tbody(doc_view(nodes@), 0) {
            Some(t) => r matches Some(x) && x as int == t && 0 <= t < nodes@.len(),
            None => r is None,
        },
{
    let ghost d = doc_view(nodes@);
    let mut j: usize = 0;
    while j < nodes.len()
        invariant
            d == doc_view(nodes@),
            j <= nodes@.len(),
            first_tbody(d, j as int) == first_tbody(d, 0),
        decreases nodes@.len() - j,
    {
        if same_text(nodes[j].name.as_str(), "tbody") && under_h2_table(nodes, j) {
            return Some(j);
        }
        j = j + 1;
    }
    None
}

fn is_item_cell(nodes: &Vec<HtmlNode>, j: usize) -> (r: bool)
    requires
        j < nodes@.len(),
    ensures
        r == item_cell(doc_view(nodes@), j as int),
{
    if same_text(nodes[j].name.as_str(), "td") {
        return true;
    }
    same_text(nodes[j].name.as_str(), "a") && nodes[j].title.is_some() && prev_element_of(nodes, j).is_none()
        && has_ancestor_named(nodes, j, "th")
}

fn cells_of(nodes: &Vec<HtmlNode>, from: usize, to: usize) -> (r: Vec<usize>)
    requires
        from <= to <= nodes@.len(),
    ensures
        r@.map_values(|x: usize| x as int) == cells_in(doc_view(nodes@), from as int, to as int),
        forall|i: int| 0 <= i < r@.len() ==> from <= #[trigger] r@[i] < to,
{
    let ghost d = doc_view(nodes@);
    let mut out: Vec<usize> = Vec::new();
    let mut j = from;
    while j < to
        invariant
            d == doc_view(nodes@),
            from <= j <= to <= nodes@.len(),
            out@.map_values(|x: usize| x as int) + cells_in(d, j as int, to as int) == cells_in(
                d,
                from as int,
                to as int,
            ),
            forall|i: int| 0 <= i < out@.len() ==> from <= #[trigger] out@[i] < j,
        decreases to - j,
    {
        let ghost before = out@.map_values(|x: usize| x as int);
        if is_item_cell(nodes, j) {
            out.push(j);
            assert(out@.map_values(|x: usize| x as int) =~= before.push(j as int));
        }
        assert(out@.map_values(|x: usize| x as int) + cells_in(d, j + 1, to as int) =~= before + cells_in(
            d,
            j as int,
            to as int,
        ));
        j = j + 1;
    }
    assert(out@.map_values(|x: usize| x as int) + Seq::<int>::empty() =~= out@.map_values(|x: usize| x as int));
    out
}

fn html_or_empty(inner: &Vec<Option<String>>, j: usize) -> (r: String)
    requires
        j < inner@.len(),
    ensures
        r@ == text_or_empty(inner_view(inner@)[j as int]),
{
    match &inner[j] {
        Some(h) => h.clone(),
        None => String::new(),
    }
}

fn name_html_of(nodes: &Vec<HtmlNode>, inner: &Vec<Option<String>>, x: usize) -> (r: String)
    requires
        x < nodes@.len(),
        inner@.len() == nodes@.len(),
    ensures
        r@ == name_html(doc_view(nodes@), inner_view(inner@), x as int),
{
    let ghost d = doc_view(nodes@);
    let ghost iv = inner_view(inner@);
    let close = close_of(nodes, x);
    let mut parts: Vec<String> = Vec::new();
    let first = html_or_empty(inner, x);
    parts.push(first);
    let mut j = x + 1;
    let ghost head = seq![text_or_empty(iv[x as int])];
    assert(views(parts@) =~= head);
    while j < close
        invariant
            d == doc_view(nodes@),
            iv == inner_view(inner@),
            inner@.len() == nodes@.len(),
            x < j <= close <= nodes@.len(),
            views(parts@) + sibling_htmls(d, iv, x as int, j as int, close as int) == head + sibling_htmls(
                d,
                iv,
                x as int,
                x + 1,
                close as int,
            ),
        decreases close - j,
    {
        let ghost before = views(parts@);
        if nodes[j].depth == nodes[x].depth && nodes[j].name.unicode_len() > 0 {
            let h = html_or_empty(inner, j);
            parts.push(h);
            assert(views(parts@) =~= before.push(text_or_empty(iv[j as int])));
        }
        assert(views(parts@) + sibling_htmls(d, iv, x as int, j + 1, close as int) =~= before + sibling_htmls(
            d,
            iv,
            x as int,
            j as int,
            close as int,
        ));
        j = j + 1;
    }
    assert(views(parts@) + Seq::<Seq<char>>::empty() =~= views(parts@));
    let ghost all = views(parts@);
    let mut out = String::new();
    let mut k: usize = 0;
    while k < parts.len()
        invariant
            all == views(parts@),
            k <= parts@.len(),
            out@ == join_spaced(all.take(k as int)),
        decreases parts@.len() - k,
    {
        let ghost prev = all.take(k as int);
        if k > 0 {
            out.append(" ");
        }
        out.append(parts[k].as_str());
        proof {
            reveal_strlit(" ");
            assert(all.take(k + 1).drop_last() =~= prev);
            if k == 0 {
                assert(out@ =~= all.take(1)[0]);
            } else {
                assert(out@ =~= join_spaced(prev) + " "@ + all[k as int]);
            }
        }
        k = k + 1;
    }
    assert(all.take(all.len() as int) =~= all);
    out
}

fn group_pairs_of(nodes: &Vec<HtmlNode>, inner: &Vec<Option<String>>, names: usize, rarities: usize) -> (r: Vec<
    (String, Option<String>),
>)
    requires
        names < nodes@.len(),
        rarities < nodes@.len(),
        inner@.len() == nodes@.len(),
    ensures
        crate::update::cell_pair_views(r@) == group_pairs(doc_view(nodes@), inner_view(inner@), names as int, rarities as int),
{
    let ghost d = doc_view(nodes@);
    let ghost iv = inner_view(inner@);
    let ne = end_of(nodes, names);
    let ns = cells_of(nodes, names + 1, ne);
    let re = end_of(nodes, rarities);
    let rs = cells_of(nodes, rarities + 1, re);
    let ghost nsv = ns@.map_values(|x: usize| x as int);
    let ghost rsv = rs@.map_values(|x: usize| x as int);
    let n = if ns.len() < rs.len() {
        ns.len()
    } else {
        rs.len()
    };
    let mut out: Vec<(String, Option<String>)> = Vec::new();
    let mut k: usize = 0;
    while k < n
        invariant
            d == doc_view(nodes@),
            iv == inner_view(inner@),
            inner@.len() == nodes@.len(),
            n <= ns@.len(),
            n <= rs@.len(),
            nsv == ns@.map_values(|x: usize| x as int),
            rsv == rs@.map_values(|x: usize| x as int),
            forall|i: int| 0 <= i < ns@.len() ==> #[trigger] ns@[i] < nodes@.len(),
            forall|i: int| 0 <= i < rs@.len() ==> #[trigger] rs@[i] < nodes@.len(),
            k <= n,
            crate::update::cell_pair_views(out@) == cell_pairs(d, iv, nsv, rsv, k as int),
        decreases n - k,
    {
        let name = name_html_of(nodes, inner, ns[k]);
        let e = end_of(nodes, rs[k]);
        let rarity = first_text_of(nodes, rs[k] + 1, e);
        let ghost before = crate::update::cell_pair_views(out@);
        out.push((name, rarity));
        assert(nsv[k as int] == ns@[k as int] as int);
        assert(rsv[k as int] == rs@[k as int] as int);
        assert(crate::update::cell_pair_views(out@) =~= before.push(
            (name_html(d, iv, nsv[k as int]), first_text_in(d, rsv[k as int] + 1, subtree_end(d, rsv[k as int]))),
        ));
        k = k + 1;
    }
    out
}

fn page_cells_doc(nodes: &Vec<HtmlNode>, inner: &Vec<Option<String>>, row_num: usize) -> (r: Option<
    Vec<(String, Option<String>)>,
>)
    requires
        inner@.len() == nodes@.len(),
        row_num >= 4,
    ensures
        match page_cells_of(doc_view(nodes@), inner_view(inner@), row_num as int) {
            Some(c) => r matches Some(v) && crate::update::cell_pair_views(v@) == c,
            None => r is None,
        },
{
    let ghost d = doc_view(nodes@);
    let ghost iv = inner_view(inner@);
    let found = first_tbody_of(nodes);
    if found.is_none() {
        return None;
    }
    let tb = found.unwrap();
    let e = end_of(nodes, tb);
    let rows = named_of(nodes, "tr", tb + 1, e);
    let ghost rs = rows@.map_values(|x: usize| x as int);
    assert(first_tbody(d, 0) == Some(tb as int));
    assert(rs == named_in(d, "tr"@, tb + 1, subtree_end(d, tb as int)));
    assert(page_cells_of(d, iv, row_num as int) == group_cells(d, iv, rs, 0, row_num as int));
    let mut out: Vec<(String, Option<String>)> = Vec::new();
    let mut i: usize = 0;
    while i < rows.len()
        invariant
            d == doc_view(nodes@),
            iv == inner_view(inner@),
            inner@.len() == nodes@.len(),
            row_num >= 4,
            rs == rows@.map_values(|x: usize| x as int),
            forall|k: int| 0 <= k < rows@.len() ==> #[trigger] rows@[k] < nodes@.len(),
            page_cells_of(d, iv, row_num as int) == match group_cells(d, iv, rs, i as int, row_num as int) {
                Some(t) => Some(crate::update::cell_pair_views(out@) + t),
                None => None::<Seq<(Seq<char>, Option<Seq<char>>)>>,
            },
        decreases rows@.len() - i,
    {
        if rows.len() - i < 4 {
            return None;
        }
        let pairs = group_pairs_of(nodes, inner, rows[i], rows[i + 3]);
        let ghost before = crate::update::cell_pair_views(out@);
        assert(rs[i as int] == rows@[i as int] as int);
        assert(rs[i + 3] == rows@[i + 3] as int);
        let mut k: usize = 0;
        while k < pairs.len()
            invariant
                k <= pairs@.len(),
                crate::update::cell_pair_views(out@) == before + crate::update::cell_pair_views(pairs@).take(k as int),
            decreases pairs@.len() - k,
        {
            let rarity = match &pairs[k].1 {
                Some(t) => Some(t.clone()),
                None => None,
            };
            let p = (pairs[k].0.clone(), rarity);
            assert(p.0@ == pairs@[k as int].0@);
            assert(crate::update::text_view(p.1) == crate::update::text_view(pairs@[k as int].1));
            let ghost mid = crate::update::cell_pair_views(out@);
            out.push(p);
            assert(crate::update::cell_pair_views(out@) =~= mid.push((p.0@, crate::update::text_view(p.1))));
            assert(crate::update::cell_pair_views(pairs@).take(k + 1) =~= crate::update::cell_pair_views(pairs@).take(k as int).push(
                (pairs@[k as int].0@, crate::update::text_view(pairs@[k as int].1)),
            ));
            assert(crate::update::cell_pair_views(out@) =~= before + crate::update::cell_pair_views(pairs@).take(k + 1));
            k = k + 1;
        }
        assert(crate::update::cell_pair_views(pairs@).take(pairs@.len() as int) =~= crate::update::cell_pair_views(pairs@));
        proof {
            match group_cells(d, iv, rs, i + row_num, row_num as int) {
                Some(t) => {
                    assert(before + (group_pairs(d, iv, rs[i as int], rs[i + 3]) + t) =~= crate::update::cell_pair_views(out@) + t);
                },
                None => {},
            }
        }
        if rows.len() - i <= row_num {
            i = rows.len();
        } else {
            i = i + row_num;
        }
    }
    assert(crate::update::cell_pair_views(out@) + Seq::<(Seq<char>, Option<Seq<char>>)>::empty() =~= crate::update::cell_pair_views(out@));
    Some(out)
}

/// The (name cell, rarity text) pairs of a wiki item list page read in
/// groups of `row_num` rows; `None` when the table is not found or a group
/// has fewer than four rows. A name cell is given as the inner HTML of its
/// parts.
pub fn item_page_cells(html: &str, row_num: usize) -> (r: Option<Vec<(String, Option<String>)>>)
    requires
        row_num >= 4,
    ensures
        exists|inner: Seq<Option<Seq<char>>>|
            #![trigger page_cells_of(parsed_document(html@), inner, row_num as int)]
            inner.len() == parsed_document(html@).len() && match page_cells_of(
                parsed_document(html@),
                inner,
                row_num as int,
            ) {
                Some(c) => r matches Some(v) && crate::update::cell_pair_views(v@) == c,
                None => r is None,
            },
{
    let (nodes, inner) = parse_document(html);
    let r = page_cells_doc(&nodes, &inner, row_num);
    assert(inner_view(inner@).len() == parsed_document(html@).len());
    r
}


// ----- the coverage pages -----

/// The first titled link among the nodes `j` to `to` (`a[title]`).
pub open spec fn first_titled(d: Seq<HtmlNodeView>, j: int, to: int) -> Option<int>
    decreases to - j,
{
    if j >= to {
        None
    } else if d[j].name == "a"@ && d[j].title is Some {
        Some(j)
    } else {
        first_titled(d, j + 1, to)
    }
}

/// The first element child of node `r` among the nodes `j` to `to`.
pub open spec fn first_child_elem(d: Seq<HtmlNodeView>, r: int, j: int, to: int) -> Option<int>
    decreases to - j,
{
    if j >= to {
        None
    } else if d[j].depth == d[r].depth + 1 && d[j].name.len() > 0 {
        Some(j)
    } else {
        first_child_elem(d, r, j + 1, to)
    }
}

/// The number of stars in a text.
pub open spec fn star_count(s: Seq<char>) -> int
    decreases s.len(),
{
    if s.len() == 0 {
        0
    } else {
        star_count(s.drop_last()) + if s.last() == '*' {
            1int
        } else {
            0int
        }
    }
}

/// A link of a coverage cell: its title, or else the `alt` text of the
/// first titled link inside it; and the stars of the `sup` element right
/// after it, if there is one.
pub open spec fn link_of(d: Seq<HtmlNodeView>, inner: Seq<Option<Seq<char>>>, a: int) -> LinkView {
    let title = if d[a].title is Some {
        d[a].title
    } else {
        match first_titled(d, a + 1, subtree_end(d, a)) {
            Some(b) => d[b].alt,
            None => None,
        }
    };
    let stars = match next_sibling(d, a) {
        Some(y) => if d[y].name == "sup"@ {
            Some(star_count(text_or_empty(inner[y])) as usize)
        } else {
            None
        },
        None => None,
    };
    (title, stars)
}

/// A row of a coverage table: the first text of its first element child,
/// and for each `td` cell, its links.
pub open spec fn row_of(d: Seq<HtmlNodeView>, inner: Seq<Option<Seq<char>>>, r: int) -> RowView {
    let first_text = match first_child_elem(d, r, r + 1, subtree_end(d, r)) {
        Some(c) => first_text_in(d, c + 1, subtree_end(d, c)),
        None => None,
    };
    (
        first_text,
        named_in(d, "td"@, r + 1, subtree_end(d, r)).map_values(
            |c: int| named_in(d, "a"@, c + 1, subtree_end(d, c)).map_values(|a: int| link_of(d, inner, a)),
        ),
    )
}

/// A coverage table: the inner HTML of the first titled link of the
/// element before it (the course name), and its rows after the first.
pub open spec fn table_of(d: Seq<HtmlNodeView>, inner: Seq<Option<Seq<char>>>, t: int) -> TableView {
    let name = match prev_element(d, t) {
        Some(p) => match first_titled(d, p + 1, subtree_end(d, p)) {
            Some(a) => Some(text_or_empty(inner[a])),
            None => None,
        },
        None => None,
    };
    let rows = named_in(d, "tr"@, t + 1, subtree_end(d, t));
    (name, (if rows.len() == 0 {
        rows
    } else {
        rows.drop_first()
    }).map_values(|r: int| row_of(d, inner, r)))
}

/// The `h2 + table` nodes among the nodes `j` to `to`.
pub open spec fn h2_tables_in(d: Seq<HtmlNodeView>, j: int, to: int) -> Seq<int>
    decreases to - j,
{
    if j >= to {
        Seq::empty()
    } else {
        (if h2_table(d, j) {
            seq![j]
        } else {
            Seq::empty()
        }) + h2_tables_in(d, j + 1, to)
    }
}

/// A coverage page: its console prefix and its `h2 + table` tables.
pub open spec fn coverage_page_of(prefix: Seq<char>, d: Seq<HtmlNodeView>, inner: Seq<Option<Seq<char>>>) -> PageView {
    (prefix, h2_tables_in(d, 0, d.len() as int).map_values(|t: int| table_of(d, inner, t)))
}

fn first_titled_of(nodes: &Vec<HtmlNode>, from: usize, to: usize) -> (r: Option<usize>)
    requires
        from <= to <= nodes@.len(),
    ensures
        match first_titled(doc_view(nodes@), from as int, to as int) {
            Some(t) => r matches Some(x) && x as int == t && from <= t < to,
            None => r is None,
        },
{
    let ghost d = doc_view(nodes@);
    let mut j = from;
    proof {
        lemma_first_titled_range(d, from as int, to as int);
    }
    while j < to
        invariant
            d == doc_view(nodes@),
            from <= j <= to <= nodes@.len(),
            first_titled(d, j as int, to as int) == first_titled(d, from as int, to as int),
            forall|t: int| first_titled(d, j as int, to as int) == Some(t) ==> j <= t < to,
        decreases to - j,
    {
        proof {
            lemma_first_titled_range(d, j + 1, to as int);
        }
        if same_text(nodes[j].name.as_str(), "a") && nodes[j].title.is_some() {
            return Some(j);
        }
        j = j + 1;
    }
    None
}

proof fn lemma_first_titled_range(d: Seq<HtmlNodeView>, j: int, to: int)
    ensures
        forall|t: int| first_titled(d, j, to) == Some(t) ==> j <= t < to,
    decreases to - j,
{
    if j < to {
        lemma_first_titled_range(d, j + 1, to);
    }
}

fn first_child_elem_of(nodes: &Vec<HtmlNode>, r: usize, from: usize, to: usize) -> (res: Option<usize>)
    requires
        r < nodes@.len(),
        from <= to <= nodes@.len(),
    ensures
        match first_child_elem(doc_view(nodes@), r as int, from as int, to as int) {
            Some(t) => res matches Some(x) && x as int == t && from <= t < to,
            None => res is None,
        },
{
    let ghost d = doc_view(nodes@);
    let mut j = from;
    proof {
        lemma_first_child_range(d, r as int, from as int, to as int);
    }
    while j < to
        invariant
            d == doc_view(nodes@),
            r < nodes@.len(),
            from <= j <= to <= nodes@.len(),
            first_child_elem(d, r as int, j as int, to as int) == first_child_elem(d, r as int, from as int, to as int),
            forall|t: int| first_child_elem(d, r as int, j as int, to as int) == Some(t) ==> j <= t < to,
        decreases to - j,
    {
        proof {
            lemma_first_child_range(d, r as int, j + 1, to as int);
        }
        if nodes[j].depth as u128 == nodes[r].depth as u128 + 1 && nodes[j].name.unicode_len() > 0 {
            return Some(j);
        }
        j = j + 1;
    }
    None
}

proof fn lemma_first_child_range(d: Seq<HtmlNodeView>, r: int, j: int, to: int)
    ensures
        forall|t: int| first_child_elem(d, r, j, to) == Some(t) ==> j <= t < to,
    decreases to - j,
{
    if j < to {
        lemma_first_child_range(d, r, j + 1, to);
    }
}

fn stars_in(s: &str) -> (r: usize)
    ensures
        r as int == star_count(s@),
{
    let n = s.unicode_len();
    let mut c: usize = 0;
    let mut i: usize = 0;
    while i < n
        invariant
            n == s@.len(),
            i <= n,
            c <= i,
            c as int == star_count(s@.take(i as int)),
        decreases n - i,
    {
        assert(s@.take(i + 1).drop_last() =~= s@.take(i as int));
        if s.get_char(i) == '*' {
            c = c + 1;
        }
        i = i + 1;
    }
    assert(s@.take(n as int) =~= s@);
    c
}

fn link_of_exec(nodes: &Vec<HtmlNode>, inner: &Vec<Option<String>>, a: usize) -> (r: CoverageLink)
    requires
        a < nodes@.len(),
        inner@.len() == nodes@.len(),
    ensures
        r@ == link_of(doc_view(nodes@), inner_view(inner@), a as int),
{
    let ghost d = doc_view(nodes@);
    let title = match &nodes[a].title {
        Some(t) => Some(t.clone()),
        None => {
            let e = end_of(nodes, a);
            match first_titled_of(nodes, a + 1, e) {
                Some(b) => match &nodes[b].alt {
                    Some(x) => Some(x.clone()),
                    None => None,
                },
                None => None,
            }
        },
    };
    let stars = match next_sibling_of(nodes, a) {
        Some(y) => {
            if same_text(nodes[y].name.as_str(), "sup") {
                let h = html_or_empty(inner, y);
                let c = stars_in(h.as_str());
                proof {
                    assert(c == (c as int) as usize);
                }
                Some(c)
            } else {
                None
            }
        },
        None => None,
    };
    CoverageLink { title, stars }
}

fn cell_links_of(nodes: &Vec<HtmlNode>, inner: &Vec<Option<String>>, c: usize) -> (r: Vec<CoverageLink>)
    requires
        c < nodes@.len(),
        inner@.len() == nodes@.len(),
    ensures
        crate::update::cell_view(r) == named_in(doc_view(nodes@), "a"@, c + 1, subtree_end(doc_view(nodes@), c as int)).map_values(
            |a: int| link_of(doc_view(nodes@), inner_view(inner@), a),
        ),
{
    let ghost d = doc_view(nodes@);
    let ghost iv = inner_view(inner@);
    let e = end_of(nodes, c);
    let links = named_of(nodes, "a", c + 1, e);
    let ghost ls = links@.map_values(|x: usize| x as int);
    let mut out: Vec<CoverageLink> = Vec::new();
    let mut i: usize = 0;
    while i < links.len()
        invariant
            d == doc_view(nodes@),
            iv == inner_view(inner@),
            inner@.len() == nodes@.len(),
            ls == links@.map_values(|x: usize| x as int),
            forall|k: int| 0 <= k < links@.len() ==> #[trigger] links@[k] < nodes@.len(),
            i <= links@.len(),
            crate::update::cell_view(out) == ls.take(i as int).map_values(|a: int| link_of(d, iv, a)),
        decreases links@.len() - i,
    {
        let l = link_of_exec(nodes, inner, links[i]);
        let ghost before = crate::update::cell_view(out);
        out.push(l);
        assert(ls[i as int] == links@[i as int] as int);
        assert(crate::update::cell_view(out) =~= before.push(link_of(d, iv, ls[i as int])));
        assert(ls.take(i + 1).map_values(|a: int| link_of(d, iv, a)) =~= ls.take(i as int).map_values(
            |a: int| link_of(d, iv, a),
        ).push(link_of(d, iv, ls[i as int])));
        i = i + 1;
    }
    assert(ls.take(i as int) =~= ls);
    out
}

fn row_of_exec(nodes: &Vec<HtmlNode>, inner: &Vec<Option<String>>, r: usize) -> (res: CoverageRow)
    requires
        r < nodes@.len(),
        inner@.len() == nodes@.len(),
    ensures
        res@ == row_of(doc_view(nodes@), inner_view(inner@), r as int),
{
    let ghost d = doc_view(nodes@);
    let ghost iv = inner_view(inner@);
    let e = end_of(nodes, r);
    let first_text = match first_child_elem_of(nodes, r, r + 1, e) {
        Some(c) => {
            let ce = end_of(nodes, c);
            first_text_of(nodes, c + 1, ce)
        },
        None => None,
    };
    let tds = named_of(nodes, "td", r + 1, e);
    let ghost ts = tds@.map_values(|x: usize| x as int);
    let ghost f = |c: int| named_in(d, "a"@, c + 1, subtree_end(d, c)).map_values(|a: int| link_of(d, iv, a));
    let mut cells: Vec<Vec<CoverageLink>> = Vec::new();
    let mut i: usize = 0;
    while i < tds.len()
        invariant
            d == doc_view(nodes@),
            iv == inner_view(inner@),
            inner@.len() == nodes@.len(),
            ts == tds@.map_values(|x: usize| x as int),
            forall|k: int| 0 <= k < tds@.len() ==> #[trigger] tds@[k] < nodes@.len(),
            i <= tds@.len(),
            f == (|c: int| named_in(d, "a"@, c + 1, subtree_end(d, c)).map_values(|a: int| link_of(d, iv, a))),
            cells@.map_values(|c: Vec<CoverageLink>| crate::update::cell_view(c)) == ts.take(i as int).map_values(f),
        decreases tds@.len() - i,
    {
        let links = cell_links_of(nodes, inner, tds[i]);
        let ghost before = cells@.map_values(|c: Vec<CoverageLink>| crate::update::cell_view(c));
        cells.push(links);
        assert(ts[i as int] == tds@[i as int] as int);
        assert(cells@.map_values(|c: Vec<CoverageLink>| crate::update::cell_view(c)) =~= before.push(f(ts[i as int])));
        assert(ts.take(i + 1).map_values(f) =~= ts.take(i as int).map_values(f).push(f(ts[i as int])));
        i = i + 1;
    }
    assert(ts.take(i as int) =~= ts);
    let res = CoverageRow { first_text, cells };
    assert(res@.1 =~= row_of(d, iv, r as int).1);
    res
}

fn table_of_exec(nodes: &Vec<HtmlNode>, inner: &Vec<Option<String>>, t: usize) -> (res: CoverageTable)
    requires
        t < nodes@.len(),
        inner@.len() == nodes@.len(),
    ensures
        res@ == table_of(doc_view(nodes@), inner_view(inner@), t as int),
{
    let ghost d = doc_view(nodes@);
    let ghost iv = inner_view(inner@);
    let name = match prev_element_of(nodes, t) {
        Some(p) => {
            let pe = end_of(nodes, p);
            match first_titled_of(nodes, p + 1, pe) {
                Some(a) => Some(html_or_empty(inner, a)),
                None => None,
            }
        },
        None => None,
    };
    let e = end_of(nodes, t);
    let trs = named_of(nodes, "tr", t + 1, e);
    let ghost all = trs@.map_values(|x: usize| x as int);
    let mut rows: Vec<CoverageRow> = Vec::new();
    let mut i: usize = 1;
    if trs.len() == 0 {
        i = 0;
    }
    let ghost start = i as int;
    while i < trs.len()
        invariant
            d == doc_view(nodes@),
            iv == inner_view(inner@),
            inner@.len() == nodes@.len(),
            all == trs@.map_values(|x: usize| x as int),
            forall|k: int| 0 <= k < trs@.len() ==> #[trigger] trs@[k] < nodes@.len(),
            start <= i <= trs@.len(),
            start == (if trs@.len() == 0 { 0int } else { 1int }),
            rows@.map_values(|r: CoverageRow| r@) == all.subrange(start, i as int).map_values(|r: int| row_of(d, iv, r)),
        decreases trs@.len() - i,
    {
        let row = row_of_exec(nodes, inner, trs[i]);
        let ghost before = rows@.map_values(|r: CoverageRow| r@);
        rows.push(row);
        assert(all[i as int] == trs@[i as int] as int);
        assert(rows@.map_values(|r: CoverageRow| r@) =~= before.push(row_of(d, iv, all[i as int])));
        assert(all.subrange(start, i + 1).map_values(|r: int| row_of(d, iv, r)) =~= all.subrange(start, i as int).map_values(
            |r: int| row_of(d, iv, r),
        ).push(row_of(d, iv, all[i as int])));
        i = i + 1;
    }
    assert(all.subrange(start, i as int) =~= (if all.len() == 0 {
        all
    } else {
        all.drop_first()
    }));
    let res = CoverageTable { name, rows };
    assert(res@.1 =~= table_of(d, iv, t as int).1);
    res
}

fn h2_tables_of(nodes: &Vec<HtmlNode>) -> (r: Vec<usize>)
    ensures
        r@.map_values(|x: usize| x as int) == h2_tables_in(doc_view(nodes@), 0, nodes@.len() as int),
        forall|i: int| 0 <= i < r@.len() ==> #[trigger] r@[i] < nodes@.len(),
{
    let ghost d = doc_view(nodes@);
    let to = nodes.len();
    let mut out: Vec<usize> = Vec::new();
    let mut j: usize = 0;
    while j < to
        invariant
            d == doc_view(nodes@),
            j <= to == nodes@.len(),
            out@.map_values(|x: usize| x as int) + h2_tables_in(d, j as int, to as int) == h2_tables_in(d, 0, to as int),
            forall|i: int| 0 <= i < out@.len() ==> #[trigger] out@[i] < j,
        decreases to - j,
    {
        let ghost before = out@.map_values(|x: usize| x as int);
        if is_h2_table(nodes, j) {
            out.push(j);
            assert(out@.map_values(|x: usize| x as int) =~= before.push(j as int));
        }
        assert(out@.map_values(|x: usize| x as int) + h2_tables_in(d, j + 1, to as int) =~= before + h2_tables_in(
            d,
            j as int,
            to as int,
        ));
        j = j + 1;
    }
    assert(out@.map_values(|x: usize| x as int) + Seq::<int>::empty() =~= out@.map_values(|x: usize| x as int));
    out
}

fn coverage_page_doc(prefix: &str, nodes: &Vec<HtmlNode>, inner: &Vec<Option<String>>) -> (r: CoveragePage)
    requires
        inner@.len() == nodes@.len(),
    ensures
        r@ == coverage_page_of(prefix@, doc_view(nodes@), inner_view(inner@)),
{
    let ghost d = doc_view(nodes@);
    let ghost iv = inner_view(inner@);
    let ts = h2_tables_of(nodes);
    let ghost tv = ts@.map_values(|x: usize| x as int);
    let mut tables: Vec<CoverageTable> = Vec::new();
    let mut i: usize = 0;
    while i < ts.len()
        invariant
            d == doc_view(nodes@),
            iv == inner_view(inner@),
            inner@.len() == nodes@.len(),
            tv == ts@.map_values(|x: usize| x as int),
            forall|k: int| 0 <= k < ts@.len() ==> #[trigger] ts@[k] < nodes@.len(),
            i <= ts@.len(),
            tables@.map_values(|t: CoverageTable| t@) == tv.take(i as int).map_values(|t: int| table_of(d, iv, t)),
        decreases ts@.len() - i,
    {
        let t = table_of_exec(nodes, inner, ts[i]);
        let ghost before = tables@.map_values(|t: CoverageTable| t@);
        tables.push(t);
        assert(tv[i as int] == ts@[i as int] as int);
        assert(tables@.map_values(|t: CoverageTable| t@) =~= before.push(table_of(d, iv, tv[i as int])));
        assert(tv.take(i + 1).map_values(|t: int| table_of(d, iv, t)) =~= tv.take(i as int).map_values(
            |t: int| table_of(d, iv, t),
        ).push(table_of(d, iv, tv[i as int])));
        i = i + 1;
    }
    assert(tv.take(i as int) =~= tv);
    let r = CoveragePage { prefix: prefix.to_string(), tables };
    assert(r@.1 =~= coverage_page_of(prefix@, d, iv).1);
    r
}

/// The coverage tables of a wiki page of favored courses, with the console
/// prefix of its courses. Course names are given as the inner HTML of
/// their links.
pub fn coverage_page(prefix: &str, html: &str) -> (r: CoveragePage)
    ensures
        exists|inner: Seq<Option<Seq<char>>>|
            #![trigger coverage_page_of(prefix@, parsed_document(html@), inner)]
            inner.len() == parsed_document(html@).len() && r@ == coverage_page_of(
                prefix@,
                parsed_document(html@),
                inner,
            ),
{
    let (nodes, inner) = parse_document(html);
    let r = coverage_page_doc(prefix, &nodes, &inner);
    assert(inner_view(inner@).len() == parsed_document(html@).len());
    r
}


// ----- the updates from the wiki pages -----

/// Adds to the database the items and courses of the wiki's summary table
/// page (see `add_listed_items_and_courses`). Nothing changes, and the
/// result is `false`, when the page has fewer than 26 rows or lists more
/// items or courses than can be numbered.
pub fn update_mkt_item_and_course_data(data: &mut MktData, html: &str) -> (ok: bool)
    requires
        old(data).wf(),
    ensures
        ({
            let rows = template_rows_of(parsed_document(html@));
            &&& ok == (rows.len() >= 26 && table_fits(rows))
            &&& ok ==> catalog_added(*old(data), *final(data), rows)
            &&& !ok ==> *final(data) == *old(data)
        }),
{
    let rows = template_rows(html);
    if rows.len() < 26 {
        return false;
    }
    let drivers = listed_items(&rows, 2, true);
    let karts = listed_items(&rows, 6, false);
    let gliders = listed_items(&rows, 9, false);
    let courses = listed_courses(&rows);
    if drivers.len() as u64 > 0xFFFF_FFFF || karts.len() as u64 > 0xFFFF_FFFF || gliders.len() as u64 > 0xFFFF_FFFF
        || courses.len() as u64 > 0xFFFF_FFFF {
        return false;
    }
    add_listed_items_and_courses(data, &rows);
    true
}

/// Adds to the database the Miis of the wiki's Mii page (see
/// `add_listed_miis`). Nothing changes, and the result is `false`, when the
/// Mii table is not found, a Mii cell has no text, or the Miis cannot be
/// numbered after the drivers.
pub fn update_mkt_mii_data(data: &mut MktData, html: &str) -> (ok: bool)
    requires
        old(data).wf(),
    ensures
        match mii_rows_of(parsed_document(html@)) {
            None => !ok && *final(data) == *old(data),
            Some(rows) => {
                &&& ok == (mii_start(old(data).drivers@.len()) + mii_names_of(rows, rows.len() as int).len() <= u32::MAX)
                &&& ok ==> miis_added(*old(data), *final(data), rows)
                &&& !ok ==> *final(data) == *old(data)
            },
        },
{
    let rows = match mii_rows(html) {
        Some(r) => r,
        None => {
            return false;
        },
    };
    let miis = listed_miis(&rows);
    let start: u32 = #[verifier::truncate] (data.drivers.len() as u32);
    assert(pair_list_views(miis@).len() == miis@.len());
    assert(mii_start(old(data).drivers@.len()) == start);
    if start as u128 + miis.len() as u128 > 0xFFFF_FFFF {
        return false;
    }
    add_listed_miis(data, &rows);
    true
}

/// Adds to the database the items of type `t` of the wiki's list page of
/// that type (see `add_page_items`), read in groups of 7 rows for drivers
/// and 5 for karts and gliders. Nothing changes, and the result is
/// `false`, when the table is not found, a group has fewer than four rows,
/// or the items cannot be numbered.
pub fn update_mkt_item_data(data: &mut MktData, t: ItemType, html: &str) -> (ok: bool)
    requires
        old(data).wf(),
    ensures
        exists|inner: Seq<Option<Seq<char>>>|
            #![trigger page_cells_of(parsed_document(html@), inner, item_rows_per_group(t))]
            inner.len() == parsed_document(html@).len() && match page_cells_of(
                parsed_document(html@),
                inner,
                item_rows_per_group(t),
            ) {
                None => !ok && *final(data) == *old(data),
                Some(c) => {
                    &&& ok == (page_items(c, c.len() as int).len() <= u32::MAX)
                    &&& ok ==> page_items_added(*old(data), *final(data), t, c)
                    &&& !ok ==> *final(data) == *old(data)
                },
            },
{
    let row_num: usize = match t {
        ItemType::Driver => 7,
        ItemType::Kart => 5,
        ItemType::Glider => 5,
    };
    let (nodes, inner) = parse_document(html);
    let ghost iv = inner_view(inner@);
    assert(iv.len() == parsed_document(html@).len());
    let cells = match page_cells_doc(&nodes, &inner, row_num) {
        Some(c) => c,
        None => {
            assert(page_cells_of(parsed_document(html@), iv, item_rows_per_group(t)) is None);
            return false;
        },
    };
    assert(page_cells_of(parsed_document(html@), iv, item_rows_per_group(t)) == Some(cell_pair_views(cells@)));
    let items = listed_page_items(&cells);
    if items.len() as u64 > 0xFFFF_FFFF {
        return false;
    }
    add_page_items(data, t, &cells);
    true
}

/// The rows of a group on the wiki's item list page of type `t`.
pub open spec fn item_rows_per_group(t: ItemType) -> int {
    match t {
        ItemType::Driver => 7,
        _ => 5,
    }
}

/// The number of rows of the first `m` tables.
pub open spec fn rows_total(tables: Seq<TableView>, m: int) -> int
    decreases m,
{
    if m <= 0 {
        0
    } else {
        rows_total(tables, m - 1) + tables[m - 1].1.len()
    }
}

/// Whether each page has fewer rows than a course number can reach.
pub open spec fn rows_fit(pages: Seq<PageView>) -> bool {
    forall|p: int| 0 <= p < pages.len() ==> #[trigger] rows_total(pages[p].1, pages[p].1.len() as int) < u32::MAX
}

proof fn lemma_table_named_len(prefix: Seq<char>, t: TableView, k: int)
    ensures
        table_named(prefix, t, k).len() <= if k < 0 {
            0
        } else {
            k
        },
    decreases k,
{
    if k > 0 {
        lemma_table_named_len(prefix, t, k - 1);
    }
}

proof fn lemma_page_named_len(prefix: Seq<char>, tables: Seq<TableView>, m: int)
    ensures
        page_named(prefix, tables, m).len() <= rows_total(tables, m),
    decreases m,
{
    if m > 0 {
        lemma_page_named_len(prefix, tables, m - 1);
        lemma_table_named_len(prefix, tables[m - 1], tables[m - 1].1.len() as int / 3);
    }
}

/// The pages of coverage as read from (prefix, page text) pairs with the
/// given inner HTML of their nodes.
pub open spec fn pages_read(pages: Seq<(String, String)>, inners: Seq<Seq<Option<Seq<char>>>>) -> Seq<PageView> {
    Seq::new(pages.len(), |p: int| coverage_page_of(pages[p].0@, parsed_document(pages[p].1@), inners[p]))
}

fn page_rows_fit(page: &CoveragePage) -> (r: bool)
    ensures
        r == (rows_total(page@.1, page@.1.len() as int) < u32::MAX),
{
    let mut total: u128 = 0;
    let mut i: usize = 0;
    while i < page.tables.len()
        invariant
            i <= page.tables@.len(),
            total == rows_total(page@.1, i as int),
            total < u32::MAX,
        decreases page.tables@.len() - i,
    {
        assert(page@.1[i as int] == page.tables@[i as int]@);
        total = total + page.tables[i].rows.len() as u128;
        if total >= 0xFFFF_FFFF {
            proof {
                lemma_rows_total_grows(page@.1, i + 1, page@.1.len() as int);
            }
            return false;
        }
        i = i + 1;
    }
    true
}

proof fn lemma_rows_total_grows(tables: Seq<TableView>, m: int, n: int)
    requires
        0 <= m <= n <= tables.len(),
    ensures
        rows_total(tables, m) <= rows_total(tables, n),
    decreases n - m,
{
    if m < n {
        lemma_rows_total_grows(tables, m, n - 1);
    }
}

/// Adds to the database the courses of the coverage pages, given as
/// (console prefix, page text) pairs, and the items each course favors
/// (see `apply_coverage_pages`). Nothing changes, and the result is
/// `false`, when a page has too many rows for its courses to be numbered.
pub fn update_mkt_item_coverage_data(data: &mut MktData, pages: &Vec<(String, String)>) -> (ok: bool)
    requires
        old(data).wf(),
    ensures
        exists|inners: Seq<Seq<Option<Seq<char>>>>|
            #![trigger pages_read(pages@, inners)]
            inners.len() == pages@.len() && (forall|p: int|
                0 <= p < pages@.len() ==> (#[trigger] inners[p]).len() == parsed_document(pages@[p].1@).len()) && ({
                let pv = pages_read(pages@, inners);
                &&& ok == rows_fit(pv)
                &&& ok ==> coverage_added(*old(data), *final(data), pv)
                &&& !ok ==> *final(data) == *old(data)
            }),
{
    let ghost mut inners: Seq<Seq<Option<Seq<char>>>> = Seq::empty();
    let mut read: Vec<CoveragePage> = Vec::new();
    let mut i: usize = 0;
    while i < pages.len()
        invariant
            i <= pages@.len(),
            inners.len() == i,
            read@.len() == i,
            forall|p: int| 0 <= p < i ==> (#[trigger] inners[p]).len() == parsed_document(pages@[p].1@).len(),
            forall|p: int|
                0 <= p < i ==> (#[trigger] read@[p])@ == coverage_page_of(
                    pages@[p].0@,
                    parsed_document(pages@[p].1@),
                    inners[p],
                ),
        decreases pages@.len() - i,
    {
        let (nodes, inner) = parse_document(pages[i].1.as_str());
        let page = coverage_page_doc(pages[i].0.as_str(), &nodes, &inner);
        proof {
            inners = inners.push(inner_view(inner@));
        }
        read.push(page);
        i = i + 1;
    }
    let ghost pv = pages_read(pages@, inners);
    assert(read@.map_values(|p: CoveragePage| p@) =~= pv);
    let mut fits = true;
    let mut k: usize = 0;
    while k < read.len()
        invariant
            k <= read@.len(),
            pv == read@.map_values(|p: CoveragePage| p@),
            fits == (forall|p: int| 0 <= p < k ==> #[trigger] rows_total(pv[p].1, pv[p].1.len() as int) < u32::MAX),
        decreases read@.len() - k,
    {
        let f = page_rows_fit(&read[k]);
        assert(pv[k as int] == read@[k as int]@);
        fits = fits && f;
        k = k + 1;
    }
    if !fits {
        return false;
    }
    proof {
        assert forall|p: int| 0 <= p < pv.len() implies (#[trigger] page_named(pv[p].0, pv[p].1, pv[p].1.len() as int)).len()
            < u32::MAX by {
            assert(rows_total(pv[p].1, pv[p].1.len() as int) < u32::MAX);
            lemma_page_named_len(pv[p].0, pv[p].1, pv[p].1.len() as int);
        }
    }
    apply_coverage_pages(data, &read);
    true
}

} // verus!
