//! HTML documents as the list of their nodes in document order, each with
//! its depth in the tree, and the walks over that list that the wiki
//! readers need: a node's subtree, its siblings, its ancestors, its text.
use vstd::prelude::*;
use crate::text::same_text;

verus! {

/// A node of a parsed document: its depth (the document node is at depth
/// 0), its tag name (empty for a node that is not an element), the `id`,
/// `title` and `alt` attributes of an element, and the text of a text node.
#[derive(Debug)]
pub struct HtmlNode {
    pub depth: usize,
    pub name: String,
    pub id: Option<String>,
    pub title: Option<String>,
    pub alt: Option<String>,
    pub text: Option<String>,
}

pub struct HtmlNodeView {
    pub depth: int,
    pub name: Seq<char>,
    pub id: Option<Seq<char>>,
    pub title: Option<Seq<char>>,
    pub alt: Option<Seq<char>>,
    pub text: Option<Seq<char>>,
}

pub open spec fn opt_text(o: Option<String>) -> Option<Seq<char>> {
    match o {
        Some(s) => Some(s@),
        None => None,
    }
}

impl View for HtmlNode {
    type V = HtmlNodeView;

    open spec fn view(&self) -> HtmlNodeView {
        HtmlNodeView {
            depth: self.depth as int,
            name: self.name@,
            id: opt_text(self.id),
            title: opt_text(self.title),
            alt: opt_text(self.alt),
            text: opt_text(self.text),
        }
    }
}

/// The views of the nodes of a document.
pub open spec fn doc_view(nodes: Seq<HtmlNode>) -> Seq<HtmlNodeView> {
    nodes.map_values(|n: HtmlNode| n@)
}

/// The node list that `scraper::Html::parse_document` gives for a text.
pub uninterp spec fn parsed_document(html: Seq<char>) -> Seq<HtmlNodeView>;

/// Calls `scraper::Html::parse_document` and lists the nodes of the tree in
/// document order (ego_tree's `descendants` of the root), each converted to
/// an `HtmlNode`; beside them, the inner HTML of each element node
/// (`ElementRef::inner_html`). The contract names the node list, which
/// depends on the text alone. Of the inner HTML it states only that there
/// is one entry per node: the serializer writes the attributes of nested
/// elements in the order of a hash map, which is not the same from run to
/// run.
#[verifier::external_body]
pub(crate) fn parse_document(html: &str) -> (r: (Vec<HtmlNode>, Vec<Option<String>>))
    ensures
        doc_view(r.0@) == parsed_document(html@),
        r.1@.len() == r.0@.len(),
{
    let doc = scraper::Html::parse_document(html);
    doc.tree.root().descendants().map(|n| {
        let e = n.value().as_element();
        let at = |a| e.and_then(|e| e.attr(a)).map(Into::into);
        let node = HtmlNode {
            depth: n.ancestors().count(),
            name: e.map_or(String::new(), |e| e.name().into()),
            id: at("id"),
            title: at("title"),
            alt: at("alt"),
            text: n.value().as_text().map(|t| t.to_string()),
        };
        (node, scraper::ElementRef::wrap(n).map(|e| e.inner_html()))
    }).unzip()
}

/// The index just past the subtree of node `k`, looking from `j` on: the
/// first node that is not deeper than `k`, or the end of the document.
pub open spec fn end_scan(d: Seq<HtmlNodeView>, k: int, j: int) -> int
    decreases d.len() - j,
{
    if j < 0 || j >= d.len() || d[j].depth <= d[k].depth {
        j
    } else {
        end_scan(d, k, j + 1)
    }
}

/// The index just past the subtree of node `k`.
pub open spec fn subtree_end(d: Seq<HtmlNodeView>, k: int) -> int {
    end_scan(d, k, k + 1)
}

/// The index just past the last later sibling of node `k`: the first node
/// after it that is less deep, or the end of the document.
pub open spec fn close_scan(d: Seq<HtmlNodeView>, k: int, j: int) -> int
    decreases d.len() - j,
{
    if j < 0 || j >= d.len() || d[j].depth < d[k].depth {
        j
    } else {
        close_scan(d, k, j + 1)
    }
}

/// A text, or the empty text.
pub open spec fn text_or_empty(o: Option<Seq<char>>) -> Seq<char> {
    match o {
        Some(t) => t,
        None => Seq::empty(),
    }
}

/// The text of the text nodes at indices `j` to `to`, joined.
pub open spec fn texts_in(d: Seq<HtmlNodeView>, j: int, to: int) -> Seq<char>
    decreases to - j,
{
    if j >= to {
        Seq::empty()
    } else {
        text_or_empty(d[j].text) + texts_in(d, j + 1, to)
    }
}

/// The text of the first text node at indices `j` to `to`.
pub open spec fn first_text_in(d: Seq<HtmlNodeView>, j: int, to: int) -> Option<Seq<char>>
    decreases to - j,
{
    if j >= to {
        None
    } else if d[j].text is Some {
        d[j].text
    } else {
        first_text_in(d, j + 1, to)
    }
}

/// The indices of the nodes named `n` at indices `j` to `to`.
pub open spec fn named_in(d: Seq<HtmlNodeView>, n: Seq<char>, j: int, to: int) -> Seq<int>
    decreases to - j,
{
    if j >= to {
        Seq::empty()
    } else {
        (if d[j].name == n {
            seq![j]
        } else {
            Seq::empty()
        }) + named_in(d, n, j + 1, to)
    }
}

/// Whether an ancestor of node `j` is named `n`, looking at the nodes before
/// index `m` whose depth is under `low`: the ancestors are the nodes at
/// which the depth, read backwards, drops.
pub open spec fn anc_scan(d: Seq<HtmlNodeView>, n: Seq<char>, m: int, low: int) -> bool
    decreases m,
{
    if m <= 0 {
        false
    } else if d[m - 1].depth < low {
        d[m - 1].name == n || anc_scan(d, n, m - 1, d[m - 1].depth)
    } else {
        anc_scan(d, n, m - 1, low)
    }
}

/// Whether an ancestor of node `j` is named `n`.
pub open spec fn has_ancestor(d: Seq<HtmlNodeView>, j: int, n: Seq<char>) -> bool {
    anc_scan(d, n, j, d[j].depth)
}

/// The parent of node `j`, looking before index `m`: the nearest node
/// before it that is less deep.
pub open spec fn parent_scan(d: Seq<HtmlNodeView>, j: int, m: int) -> Option<int>
    decreases m,
{
    if m <= 0 {
        None
    } else if d[m - 1].depth < d[j].depth {
        Some(m - 1)
    } else {
        parent_scan(d, j, m - 1)
    }
}

/// The previous element sibling of node `x`, looking before index `m`: the
/// nearest element before it at its depth, unless a less deep node (its
/// parent) comes first.
pub open spec fn prev_elem_scan(d: Seq<HtmlNodeView>, x: int, m: int) -> Option<int>
    decreases m,
{
    if m <= 0 {
        None
    } else if d[m - 1].depth < d[x].depth {
        None
    } else if d[m - 1].depth == d[x].depth && d[m - 1].name.len() > 0 {
        Some(m - 1)
    } else {
        prev_elem_scan(d, x, m - 1)
    }
}

/// The previous element sibling of node `x`.
pub open spec fn prev_element(d: Seq<HtmlNodeView>, x: int) -> Option<int> {
    prev_elem_scan(d, x, x)
}

/// The node right after node `x` and its subtree, if it is a sibling.
pub open spec fn next_sibling(d: Seq<HtmlNodeView>, x: int) -> Option<int> {
    let y = subtree_end(d, x);
    if y < d.len() && d[y].depth == d[x].depth {
        Some(y)
    } else {
        None
    }
}

pub proof fn lemma_parent_scan_below(d: Seq<HtmlNodeView>, j: int, m: int)
    ensures
        forall|p: int| parent_scan(d, j, m) == Some(p) ==> 0 <= p < m,
    decreases m,
{
    if m > 0 {
        lemma_parent_scan_below(d, j, m - 1);
    }
}

pub proof fn lemma_prev_elem_scan_below(d: Seq<HtmlNodeView>, x: int, m: int)
    ensures
        forall|p: int| prev_elem_scan(d, x, m) == Some(p) ==> 0 <= p < m,
    decreases m,
{
    if m > 0 {
        lemma_prev_elem_scan_below(d, x, m - 1);
    }
}

fn node_named(nodes: &Vec<HtmlNode>, j: usize, n: &str) -> (r: bool)
    requires
        j < nodes@.len(),
    ensures
        r == (doc_view(nodes@)[j as int].name == n@),
{
    same_text(nodes[j].name.as_str(), n)
}

/// The index just past the subtree of node `k`.
pub fn end_of(nodes: &Vec<HtmlNode>, k: usize) -> (e: usize)
    requires
        k < nodes@.len(),
    ensures
        e as int == subtree_end(doc_view(nodes@), k as int),
        k < e <= nodes@.len(),
{
    let ghost d = doc_view(nodes@);
    let len = nodes.len();
    let mut j = k + 1;
    while j < nodes.len() && nodes[j].depth > nodes[k].depth
        invariant
            d == doc_view(nodes@),
            k < j <= nodes@.len(),
            end_scan(d, k as int, j as int) == subtree_end(d, k as int),
        decreases nodes@.len() - j,
    {
        j = j + 1;
    }
    j
}

/// The index just past the last later sibling of node `k`.
pub fn close_of(nodes: &Vec<HtmlNode>, k: usize) -> (e: usize)
    requires
        k < nodes@.len(),
    ensures
        e as int == close_scan(doc_view(nodes@), k as int, k + 1),
        k < e <= nodes@.len(),
{
    let ghost d = doc_view(nodes@);
    let len = nodes.len();
    let mut j = k + 1;
    while j < nodes.len() && nodes[j].depth >= nodes[k].depth
        invariant
            d == doc_view(nodes@),
            k < j <= nodes@.len(),
            close_scan(d, k as int, j as int) == close_scan(d, k as int, k + 1),
        decreases nodes@.len() - j,
    {
        j = j + 1;
    }
    j
}

/// The text of the text nodes at indices `from` to `to`, joined.
pub fn texts_of(nodes: &Vec<HtmlNode>, from: usize, to: usize) -> (r: String)
    requires
        from <= to <= nodes@.len(),
    ensures
        r@ == texts_in(doc_view(nodes@), from as int, to as int),
{
    let ghost d = doc_view(nodes@);
    let mut out = String::new();
    let mut j = from;
    while j < to
        invariant
            d == doc_view(nodes@),
            from <= j <= to <= nodes@.len(),
            out@ + texts_in(d, j as int, to as int) == texts_in(d, from as int, to as int),
        decreases to - j,
    {
        let ghost before = out@;
        match &nodes[j].text {
            Some(t) => {
                out.append(t.as_str());
            },
            None => {},
        }
        assert(out@ + texts_in(d, j + 1, to as int) =~= before + texts_in(d, j as int, to as int));
        j = j + 1;
    }
    assert(texts_in(d, j as int, to as int) =~= Seq::<char>::empty());
    assert(out@ + Seq::<char>::empty() =~= out@);
    out
}

/// The text of the first text node at indices `from` to `to`.
pub fn first_text_of(nodes: &Vec<HtmlNode>, from: usize, to: usize) -> (r: Option<String>)
    requires
        from <= to <= nodes@.len(),
    ensures
        opt_text(r) == first_text_in(doc_view(nodes@), from as int, to as int),
{
    let ghost d = doc_view(nodes@);
    let mut j = from;
    while j < to
        invariant
            d == doc_view(nodes@),
            from <= j <= to <= nodes@.len(),
            first_text_in(d, j as int, to as int) == first_text_in(d, from as int, to as int),
        decreases to - j,
    {
        match &nodes[j].text {
            Some(t) => {
                return Some(t.clone());
            },
            None => {},
        }
        j = j + 1;
    }
    None
}

/// The indices of the nodes named `n` at indices `from` to `to`.
pub fn named_of(nodes: &Vec<HtmlNode>, n: &str, from: usize, to: usize) -> (r: Vec<usize>)
    requires
        from <= to <= nodes@.len(),
    ensures
        r@.map_values(|x: usize| x as int) == named_in(doc_view(nodes@), n@, from as int, to as int),
        forall|i: int| 0 <= i < r@.len() ==> from <= #[trigger] r@[i] < to,
{
    let ghost d = doc_view(nodes@);
    let mut out: Vec<usize> = Vec::new();
    let mut j = from;
    while j < to
        invariant
            d == doc_view(nodes@),
            from <= j <= to <= nodes@.len(),
            out@.map_values(|x: usize| x as int) + named_in(d, n@, j as int, to as int) == named_in(
                d,
                n@,
                from as int,
                to as int,
            ),
            forall|i: int| 0 <= i < out@.len() ==> from <= #[trigger] out@[i] < j,
        decreases to - j,
    {
        let ghost before = out@.map_values(|x: usize| x as int);
        if node_named(nodes, j, n) {
            out.push(j);
            assert(out@.map_values(|x: usize| x as int) =~= before.push(j as int));
        }
        assert(out@.map_values(|x: usize| x as int) + named_in(d, n@, j + 1, to as int) =~= before
            + named_in(d, n@, j as int, to as int));
        j = j + 1;
    }
    assert(out@.map_values(|x: usize| x as int) + Seq::<int>::empty() =~= out@.map_values(|x: usize| x as int));
    out
}

/// Whether an ancestor of node `j` is named `n`.
pub fn has_ancestor_named(nodes: &Vec<HtmlNode>, j: usize, n: &str) -> (r: bool)
    requires
        j < nodes@.len(),
    ensures
        r == has_ancestor(doc_view(nodes@), j as int, n@),
{
    let ghost d = doc_view(nodes@);
    let mut m = j;
    let mut low = nodes[j].depth;
    while m > 0
        invariant
            d == doc_view(nodes@),
            m <= j < nodes@.len(),
            anc_scan(d, n@, m as int, low as int) == has_ancestor(d, j as int, n@),
        decreases m,
    {
        let a = m - 1;
        if nodes[a].depth < low {
            if node_named(nodes, a, n) {
                return true;
            }
            low = nodes[a].depth;
        }
        m = a;
    }
    false
}

/// The parent of node `j`.
pub fn parent_of(nodes: &Vec<HtmlNode>, j: usize) -> (r: Option<usize>)
    requires
        j < nodes@.len(),
    ensures
        match parent_scan(doc_view(nodes@), j as int, j as int) {
            Some(p) => r matches Some(v) && v as int == p && 0 <= p < j,
            None => r is None,
        },
{
    let ghost d = doc_view(nodes@);
    let mut m = j;
    while m > 0
        invariant
            d == doc_view(nodes@),
            m <= j < nodes@.len(),
            parent_scan(d, j as int, m as int) == parent_scan(d, j as int, j as int),
        decreases m,
    {
        proof {
            lemma_parent_scan_below(d, j as int, m as int);
        }
        if nodes[m - 1].depth < nodes[j].depth {
            return Some(m - 1);
        }
        m = m - 1;
    }
    None
}

/// The previous element sibling of node `x`.
pub fn prev_element_of(nodes: &Vec<HtmlNode>, x: usize) -> (r: Option<usize>)
    requires
        x < nodes@.len(),
    ensures
        match prev_element(doc_view(nodes@), x as int) {
            Some(p) => r matches Some(v) && v as int == p && 0 <= p < x,
            None => r is None,
        },
{
    let ghost d = doc_view(nodes@);
    let mut m = x;
    while m > 0
        invariant
            d == doc_view(nodes@),
            m <= x < nodes@.len(),
            prev_elem_scan(d, x as int, m as int) == prev_element(d, x as int),
        decreases m,
    {
        proof {
            lemma_prev_elem_scan_below(d, x as int, m as int);
        }
        let y = m - 1;
        if nodes[y].depth < nodes[x].depth {
            return None;
        }
        if nodes[y].depth == nodes[x].depth && nodes[y].name.unicode_len() > 0 {
            return Some(y);
        }
        m = y;
    }
    None
}

/// The sibling right after node `x` and its subtree.
pub fn next_sibling_of(nodes: &Vec<HtmlNode>, x: usize) -> (r: Option<usize>)
    requires
        x < nodes@.len(),
    ensures
        match next_sibling(doc_view(nodes@), x as int) {
            Some(y) => r matches Some(v) && v as int == y && x < y < nodes@.len(),
            None => r is None,
        },
{
    let y = end_of(nodes, x);
    if y < nodes.len() && nodes[y].depth == nodes[x].depth {
        Some(y)
    } else {
        None
    }
}

} // verus!
