//! Character-level string helpers used by the id, hash and import logic.
use vstd::prelude::*;
use vstd::string::*;

verus! {

/// `s` with every leading and trailing `c` removed.
pub open spec fn trimmed(s: Seq<char>, c: char) -> Seq<char>
    decreases s.len(),
{
    if s.len() > 0 && s[0] == c {
        trimmed(s.drop_first(), c)
    } else if s.len() > 0 && s[s.len() - 1] == c {
        trimmed(s.drop_last(), c)
    } else {
        s
    }
}

/// The pieces of `s` between the occurrences of `sep`, in order (an empty
/// text has one empty piece).
pub open spec fn split_on(s: Seq<char>, sep: char) -> Seq<Seq<char>>
    decreases s.len(),
{
    if s.len() == 0 {
        seq![Seq::<char>::empty()]
    } else {
        let r = split_on(s.drop_last(), sep);
        if s.last() == sep {
            r.push(Seq::<char>::empty())
        } else {
            r.update(r.len() - 1, r.last().push(s.last()))
        }
    }
}

/// Whether `s` begins with `p`.
pub open spec fn has_prefix(s: Seq<char>, p: Seq<char>) -> bool {
    p.len() <= s.len() && s.subrange(0, p.len() as int) == p
}

/// Views of a vector of strings.
pub open spec fn views(v: Seq<String>) -> Seq<Seq<char>> {
    v.map_values(|s: String| s@)
}

pub proof fn lemma_split_nonempty(s: Seq<char>, sep: char)
    ensures
        split_on(s, sep).len() >= 1,
    decreases s.len(),
{
    if s.len() > 0 {
        lemma_split_nonempty(s.drop_last(), sep);
    }
}

/// Character equality of two texts.
pub fn same_text(a: &str, b: &str) -> (r: bool)
    ensures
        r == (a@ == b@),
{
    let n = a.unicode_len();
    let m = b.unicode_len();
    if n != m {
        return false;
    }
    let mut i: usize = 0;
    while i < n
        invariant
            n == a@.len(),
            m == b@.len(),
            n == m,
            i <= n,
            forall|j: int| 0 <= j < i ==> a@[j] == b@[j],
        decreases n - i,
    {
        if a.get_char(i) != b.get_char(i) {
            return false;
        }
        i = i + 1;
    }
    assert(a@ =~= b@);
    true
}

/// Whether `s` begins with the text `p`.
pub fn starts_with_text(s: &str, p: &str) -> (r: bool)
    ensures
        r == has_prefix(s@, p@),
{
    let n = s.unicode_len();
    let m = p.unicode_len();
    if m > n {
        return false;
    }
    let mut i: usize = 0;
    while i < m
        invariant
            n == s@.len(),
            m == p@.len(),
            m <= n,
            i <= m,
            forall|j: int| 0 <= j < i ==> s@[j] == p@[j],
        decreases m - i,
    {
        if s.get_char(i) != p.get_char(i) {
            assert(s@.subrange(0, m as int)[i as int] != p@[i as int]);
            return false;
        }
        i = i + 1;
    }
    assert(s@.subrange(0, m as int) =~= p@);
    true
}

/// Whether two lists of texts are equal element by element.
pub fn same_texts(a: &Vec<String>, b: &Vec<String>) -> (r: bool)
    ensures
        r == (views(a@) == views(b@)),
{
    if a.len() != b.len() {
        assert(views(a@).len() != views(b@).len());
        return false;
    }
    let mut i: usize = 0;
    while i < a.len()
        invariant
            a.len() == b.len(),
            i <= a.len(),
            forall|j: int| 0 <= j < i ==> a@[j]@ == b@[j]@,
        decreases a.len() - i,
    {
        if !same_text(a[i].as_str(), b[i].as_str()) {
            assert(views(a@)[i as int] != views(b@)[i as int]);
            return false;
        }
        i = i + 1;
    }
    assert(views(a@) =~= views(b@));
    true
}

/// A fresh copy of a list of texts.
pub fn copy_texts(a: &Vec<String>) -> (r: Vec<String>)
    ensures
        views(r@) == views(a@),
{
    let mut r: Vec<String> = Vec::new();
    let mut i: usize = 0;
    while i < a.len()
        invariant
            i <= a.len(),
            r@.len() == i,
            forall|j: int| 0 <= j < i ==> r@[j]@ == a@[j]@,
        decreases a.len() - i,
    {
        r.push(a[i].clone());
        i = i + 1;
    }
    assert(views(r@) =~= views(a@));
    r
}

proof fn lemma_trim_front(s: Seq<char>, c: char, start: int)
    requires
        0 <= start < s.len(),
        s[start] == c,
    ensures
        trimmed(s.subrange(start, s.len() as int), c) == trimmed(s.subrange(start + 1, s.len() as int), c),
{
    let t = s.subrange(start, s.len() as int);
    assert(t.drop_first() =~= s.subrange(start + 1, s.len() as int));
}

proof fn lemma_trim_back(s: Seq<char>, c: char, start: int, end: int)
    requires
        0 <= start < end <= s.len(),
        s[start] != c,
        s[end - 1] == c,
    ensures
        trimmed(s.subrange(start, end), c) == trimmed(s.subrange(start, end - 1), c),
{
    let t = s.subrange(start, end);
    assert(t.drop_last() =~= s.subrange(start, end - 1));
}

/// `s` with all leading and trailing `c` removed.
pub fn trim_char(s: &str, c: char) -> (r: String)
    ensures
        r@ == trimmed(s@, c),
{
    let n = s.unicode_len();
    let mut start: usize = 0;
    assert(s@.subrange(0, n as int) =~= s@);
    while start < n && s.get_char(start) == c
        invariant
            n == s@.len(),
            start <= n,
            trimmed(s@, c) == trimmed(s@.subrange(start as int, n as int), c),
        decreases n - start,
    {
        proof {
            lemma_trim_front(s@, c, start as int);
        }
        start = start + 1;
    }
    let mut end: usize = n;
    assert(s@.subrange(start as int, n as int) == s@.subrange(start as int, end as int));
    while end > start && s.get_char(end - 1) == c
        invariant
            n == s@.len(),
            start <= end <= n,
            start < n ==> s@[start as int] != c,
            trimmed(s@, c) == trimmed(s@.subrange(start as int, end as int), c),
        decreases end,
    {
        proof {
            if end - 1 == start {
                let t = s@.subrange(start as int, end as int);
                assert(t.len() == 1 && t[0] == c);
            } else {
                lemma_trim_back(s@, c, start as int, end as int);
            }
        }
        end = end - 1;
    }
    let piece = s.substring_char(start, end);
    proof {
        let t = s@.subrange(start as int, end as int);
        if t.len() > 0 {
            assert(t[0] == s@[start as int]);
            assert(t[t.len() - 1] == s@[end - 1]);
        }
        assert(trimmed(t, c) == t);
    }
    piece.to_owned()
}

/// The pieces of `s` between the occurrences of `sep`.
pub fn split_char(s: &str, sep: char) -> (r: Vec<String>)
    ensures
        views(r@) == split_on(s@, sep),
{
    let n = s.unicode_len();
    let mut pieces: Vec<String> = Vec::new();
    let mut start: usize = 0;
    let mut i: usize = 0;
    assert(s@.subrange(0, 0) =~= Seq::<char>::empty());
    assert(split_on(s@.subrange(0, 0), sep) =~= seq![Seq::<char>::empty()]);
    while i < n
        invariant
            n == s@.len(),
            start <= i <= n,
            split_on(s@.subrange(0, i as int), sep) =~= views(pieces@).push(
                s@.subrange(start as int, i as int),
            ),
        decreases n - i,
    {
        let ch = s.get_char(i);
        let ghost prefix = s@.subrange(0, i + 1);
        assert(prefix.drop_last() =~= s@.subrange(0, i as int));
        assert(prefix.last() == ch);
        if ch == sep {
            let piece = s.substring_char(start, i);
            let ghost before = pieces@;
            pieces.push(piece.to_owned());
            assert(views(pieces@) =~= views(before).push(s@.subrange(start as int, i as int)));
            start = i + 1;
            assert(s@.subrange(start as int, i + 1) =~= Seq::<char>::empty());
        } else {
            assert(s@.subrange(start as int, i + 1) =~= s@.subrange(start as int, i as int).push(
                ch,
            ));
        }
        i = i + 1;
    }
    let last = s.substring_char(start, n);
    let ghost before = pieces@;
    pieces.push(last.to_owned());
    assert(s@.subrange(0, n as int) =~= s@);
    assert(views(pieces@) =~= views(before).push(s@.subrange(start as int, n as int)));
    pieces
}

/// The concatenation of two texts.
pub fn join2(a: &str, b: &str) -> (r: String)
    ensures
        r@ == a@ + b@,
{
    a.to_owned().concat(b)
}

/// The lower-case form of a text, as std's `str::to_lowercase` computes it.
pub uninterp spec fn lowercase(s: Seq<char>) -> Seq<char>;

/// Calls std's `str::to_lowercase`. The contract only names the result: it
/// is the same for the same text, as the Unicode case mapping is fixed.
#[verifier::external_body]
pub(crate) fn to_lowercase(s: &str) -> (r: String)
    ensures
        r@ == lowercase(s@),
{
    s.to_lowercase()
}

/// Whether `c` has the Unicode `White_Space` property, as std's
/// `char::is_whitespace` tests.
pub open spec fn is_white_space(c: char) -> bool {
    ||| '\u{9}' <= c <= '\u{d}'
    ||| c == ' '
    ||| c == '\u{85}'
    ||| c == '\u{a0}'
    ||| c == '\u{1680}'
    ||| '\u{2000}' <= c <= '\u{200a}'
    ||| c == '\u{2028}'
    ||| c == '\u{2029}'
    ||| c == '\u{202f}'
    ||| c == '\u{205f}'
    ||| c == '\u{3000}'
}

fn white_space(c: char) -> (r: bool)
    ensures
        r == is_white_space(c),
{
    ('\u{9}' <= c && c <= '\u{d}') || c == ' ' || c == '\u{85}' || c == '\u{a0}' || c
        == '\u{1680}' || ('\u{2000}' <= c && c <= '\u{200a}') || c == '\u{2028}' || c
        == '\u{2029}' || c == '\u{202f}' || c == '\u{205f}' || c == '\u{3000}'
}

/// `s` without its leading and trailing white space, as std's `str::trim`
/// gives it.
pub open spec fn ws_trimmed(s: Seq<char>) -> Seq<char>
    decreases s.len(),
{
    if s.len() > 0 && is_white_space(s[0]) {
        ws_trimmed(s.drop_first())
    } else if s.len() > 0 && is_white_space(s[s.len() - 1]) {
        ws_trimmed(s.drop_last())
    } else {
        s
    }
}

/// A text without its leading and trailing white space.
pub fn trim_spaces(s: &str) -> (r: String)
    ensures
        r@ == ws_trimmed(s@),
{
    let n = s.unicode_len();
    let mut start: usize = 0;
    assert(s@.subrange(0, n as int) =~= s@);
    while start < n && white_space(s.get_char(start))
        invariant
            n == s@.len(),
            start <= n,
            ws_trimmed(s@) == ws_trimmed(s@.subrange(start as int, n as int)),
        decreases n - start,
    {
        proof {
            let t = s@.subrange(start as int, n as int);
            assert(t.drop_first() =~= s@.subrange(start + 1, n as int));
        }
        start = start + 1;
    }
    let mut end: usize = n;
    while end > start && white_space(s.get_char(end - 1))
        invariant
            n == s@.len(),
            start <= end <= n,
            start < n ==> !is_white_space(s@[start as int]),
            ws_trimmed(s@) == ws_trimmed(s@.subrange(start as int, end as int)),
        decreases end,
    {
        proof {
            let t = s@.subrange(start as int, end as int);
            if end - 1 == start {
                assert(t.len() == 1 && is_white_space(t[0]));
                assert(t.drop_first() =~= Seq::<char>::empty());
                assert(s@.subrange(start as int, end - 1) =~= Seq::<char>::empty());
            } else {
                assert(t[0] == s@[start as int]);
                assert(t.drop_last() =~= s@.subrange(start as int, end - 1));
            }
        }
        end = end - 1;
    }
    let piece = s.substring_char(start, end);
    proof {
        let t = s@.subrange(start as int, end as int);
        if t.len() > 0 {
            assert(t[0] == s@[start as int]);
            assert(t[t.len() - 1] == s@[end - 1]);
        }
    }
    piece.to_owned()
}

/// `s` without its trailing `c`s, as std's `str::trim_end_matches` with a
/// character gives it.
pub open spec fn without_trailing(s: Seq<char>, c: char) -> Seq<char>
    decreases s.len(),
{
    if s.len() > 0 && s.last() == c {
        without_trailing(s.drop_last(), c)
    } else {
        s
    }
}

/// A text without its trailing `c`s.
pub fn trim_end_char(s: &str, c: char) -> (r: String)
    ensures
        r@ == without_trailing(s@, c),
{
    let n = s.unicode_len();
    let mut end: usize = n;
    assert(s@.subrange(0, n as int) =~= s@);
    while end > 0 && s.get_char(end - 1) == c
        invariant
            n == s@.len(),
            end <= n,
            without_trailing(s@, c) == without_trailing(s@.subrange(0, end as int), c),
        decreases end,
    {
        proof {
            let t = s@.subrange(0, end as int);
            assert(t.drop_last() =~= s@.subrange(0, end - 1));
        }
        end = end - 1;
    }
    s.substring_char(0, end).to_owned()
}

/// Whether `p` occurs in `s` at position `i`.
pub open spec fn occurs_at(s: Seq<char>, p: Seq<char>, i: int) -> bool {
    0 <= i && i + p.len() <= s.len() && s.subrange(i, i + p.len()) == p
}

/// The first position at `i` or after where `p` occurs in `s`.
pub open spec fn find_from(s: Seq<char>, p: Seq<char>, i: int) -> Option<int>
    decreases s.len() + 1 - i,
{
    if i < 0 || i + p.len() > s.len() {
        None
    } else if occurs_at(s, p, i) {
        Some(i)
    } else {
        find_from(s, p, i + 1)
    }
}

/// Whether `p` occurs at position `i` of `s`.
fn occurs_at_exec(s: &str, p: &str, i: usize) -> (r: bool)
    requires
        i + p@.len() <= s@.len(),
    ensures
        r == occurs_at(s@, p@, i as int),
{
    let n = s.unicode_len();
    let m = p.unicode_len();
    let mut j: usize = 0;
    while j < m
        invariant
            n == s@.len(),
            m == p@.len(),
            i + m <= s@.len(),
            j <= m,
            forall|k: int| 0 <= k < j ==> s@[i + k] == p@[k],
        decreases m - j,
    {
        if s.get_char(i + j) != p.get_char(j) {
            assert(s@.subrange(i as int, i + m)[j as int] != p@[j as int]);
            return false;
        }
        j = j + 1;
    }
    assert(s@.subrange(i as int, i + m) =~= p@);
    true
}

/// The first position of `p` in `s`, if it occurs.
pub fn find_text(s: &str, p: &str) -> (r: Option<usize>)
    ensures
        match r {
            Some(i) => find_from(s@, p@, 0) == Some(i as int),
            None => find_from(s@, p@, 0) is None,
        },
{
    let n = s.unicode_len();
    let m = p.unicode_len();
    if m > n {
        return None;
    }
    if m == 0 {
        assert(s@.subrange(0, 0) =~= p@);
        return Some(0);
    }
    let mut i: usize = 0;
    while i <= n - m
        invariant
            n == s@.len(),
            m == p@.len(),
            1 <= m <= n,
            i <= n - m + 1,
            find_from(s@, p@, 0) == find_from(s@, p@, i as int),
        decreases n - i,
    {
        if occurs_at_exec(s, p, i) {
            return Some(i);
        }
        i = i + 1;
    }
    None
}

/// The text before and the text after the first occurrence of `p` in `s`,
/// as std's `str::split_once` gives them.
pub open spec fn split_once_at(s: Seq<char>, p: Seq<char>) -> Option<(Seq<char>, Seq<char>)> {
    match find_from(s, p, 0) {
        Some(i) => Some((s.subrange(0, i), s.subrange(i + p.len(), s.len() as int))),
        None => None,
    }
}

proof fn lemma_find_from_bound(s: Seq<char>, p: Seq<char>, i: int)
    ensures
        find_from(s, p, i) matches Some(j) ==> i <= j && occurs_at(s, p, j),
    decreases s.len() + 1 - i,
{
    if !(i < 0 || i + p.len() > s.len()) && !occurs_at(s, p, i) {
        lemma_find_from_bound(s, p, i + 1);
    }
}

/// The text before and the text after the first occurrence of `p` in `s`.
pub fn split_once_text(s: &str, p: &str) -> (r: Option<(String, String)>)
    ensures
        match r {
            Some((a, b)) => split_once_at(s@, p@) == Some((a@, b@)),
            None => split_once_at(s@, p@) is None,
        },
{
    match find_text(s, p) {
        Some(i) => {
            proof {
                lemma_find_from_bound(s@, p@, 0);
            }
            let m = p.unicode_len();
            let n = s.unicode_len();
            let a = s.substring_char(0, i).to_owned();
            let b = s.substring_char(i + m, n).to_owned();
            Some((a, b))
        },
        None => None,
    }
}

/// Whether `p` occurs in `s`.
pub fn contains_text(s: &str, p: &str) -> (r: bool)
    ensures
        r == (find_from(s@, p@, 0) is Some),
{
    find_text(s, p).is_some()
}

/// `s` with every occurrence of the non-empty `p` removed, left to right
/// without overlaps, as std's `str::replace` with an empty replacement
/// gives it.
pub open spec fn removed(s: Seq<char>, p: Seq<char>) -> Seq<char>
    decreases s.len(),
{
    if s.len() == 0 {
        s
    } else if p.len() > 0 && has_prefix(s, p) {
        removed(s.subrange(p.len() as int, s.len() as int), p)
    } else {
        seq![s[0]] + removed(s.drop_first(), p)
    }
}

/// A text with every occurrence of `p` removed.
pub fn remove_text(s: &str, p: &str) -> (r: String)
    requires
        p@.len() > 0,
    ensures
        r@ == removed(s@, p@),
{
    let n = s.unicode_len();
    let m = p.unicode_len();
    let mut out = String::new();
    let mut i: usize = 0;
    assert(out@ =~= Seq::<char>::empty());
    assert(s@.subrange(0, n as int) =~= s@);
    while i < n
        invariant
            n == s@.len(),
            m == p@.len(),
            m > 0,
            i <= n,
            out@ + removed(s@.subrange(i as int, n as int), p@) == removed(s@, p@),
        decreases n - i,
    {
        let ghost t = s@.subrange(i as int, n as int);
        if m <= n - i && occurs_at_exec(s, p, i) {
            proof {
                assert(t.subrange(0, m as int) =~= s@.subrange(i as int, i + m));
                assert(has_prefix(t, p@));
                assert(t.subrange(m as int, t.len() as int) =~= s@.subrange(i + m, n as int));
            }
            i = i + m;
        } else {
            proof {
                if m <= t.len() {
                    assert(t.subrange(0, m as int) =~= s@.subrange(i as int, i + m));
                }
                assert(!has_prefix(t, p@));
                assert(t.drop_first() =~= s@.subrange(i + 1, n as int));
            }
            let piece = s.substring_char(i, i + 1);
            let ghost before = out@;
            out.append(piece);
            proof {
                assert(piece@ =~= seq![t[0]]);
                assert(before + removed(t, p@) =~= out@ + removed(s@.subrange(i + 1, n as int), p@));
            }
            i = i + 1;
        }
    }
    assert(removed(s@.subrange(n as int, n as int), p@) =~= Seq::<char>::empty());
    assert(out@ + Seq::<char>::empty() =~= out@);
    out
}

} // verus!
