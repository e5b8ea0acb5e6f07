//! The decisions of the screenshot importer: item areas, point digits, the
//! distance between perceptual hashes, and the deduction of unrecognized
//! items from their neighbours.
use vstd::prelude::*;
use crate::text::{split_char, split_on};

verus! {

/// Hash distance under which two item pictures are taken for the same item.
pub const HASH_ITEM_THRESHOLD: u32 = 4000;

/// A rectangle of a screenshot: columns `x1..x2` and rows `y1..y2`.
#[derive(Debug, Copy, Clone, PartialEq, Eq, Structural)]
pub struct ItemArea {
    pub x1: u32,
    pub y1: u32,
    pub x2: u32,
    pub y2: u32,
}

/// Whether the area is a non-empty rectangle with corners in `i32` range,
/// as `imageproc`'s rectangles need.
pub open spec fn proper_area(a: ItemArea) -> bool {
    a.x1 < a.x2 && a.y1 < a.y2 && a.x2 <= i32::MAX && a.y2 <= i32::MAX
}

/// The common part of two areas, if they overlap.
pub open spec fn area_overlap(a: ItemArea, b: ItemArea) -> Option<ItemArea> {
    let x1 = if a.x1 >= b.x1 { a.x1 } else { b.x1 };
    let y1 = if a.y1 >= b.y1 { a.y1 } else { b.y1 };
    let x2 = if a.x2 <= b.x2 { a.x2 } else { b.x2 };
    let y2 = if a.y2 <= b.y2 { a.y2 } else { b.y2 };
    if x2 <= x1 || y2 <= y1 {
        None
    } else {
        Some(ItemArea { x1, y1, x2, y2 })
    }
}

impl ItemArea {
    /// The overlap of two areas, as `imageproc::rect::Rect::intersect`
    /// computes it on the matching rectangles.
    pub fn intersect(&self, other: &ItemArea) -> (r: Option<ItemArea>)
        requires
            proper_area(*self),
            proper_area(*other),
        ensures
            r == area_overlap(*self, *other),
            r matches Some(a) ==> proper_area(a),
    {
        let x1 = if self.x1 >= other.x1 { self.x1 } else { other.x1 };
        let y1 = if self.y1 >= other.y1 { self.y1 } else { other.y1 };
        let x2 = if self.x2 <= other.x2 { self.x2 } else { other.x2 };
        let y2 = if self.y2 <= other.y2 { self.y2 } else { other.y2 };
        if x2 <= x1 || y2 <= y1 {
            None
        } else {
            Some(ItemArea { x1, y1, x2, y2 })
        }
    }

    /// The number of pixels in the area.
    pub fn area(&self) -> (r: u32)
        requires
            self.x1 <= self.x2,
            self.y1 <= self.y2,
            (self.x2 - self.x1) * (self.y2 - self.y1) <= u32::MAX,
        ensures
            r == (self.x2 - self.x1) * (self.y2 - self.y1),
    {
        (self.x2 - self.x1) * (self.y2 - self.y1)
    }

    /// The number of pixels in the area.
    pub fn size(&self) -> (r: u32)
        requires
            self.x1 <= self.x2,
            self.y1 <= self.y2,
            (self.x2 - self.x1) * (self.y2 - self.y1) <= u32::MAX,
        ensures
            r == (self.x2 - self.x1) * (self.y2 - self.y1),
    {
        self.area()
    }

    /// The same area with rows and columns exchanged.
    pub fn swap_x_y(self) -> (r: ItemArea)
        ensures
            r == (ItemArea { x1: self.y1, y1: self.x1, x2: self.y2, y2: self.x2 }),
    {
        ItemArea { x1: self.y1, y1: self.x1, x2: self.y2, y2: self.x2 }
    }
}

/// Number of bits set in a byte.
pub open spec fn bits_set(x: u8) -> nat
    decreases x,
{
    if x == 0 {
        0
    } else {
        (x % 2) as nat + bits_set(x / 2)
    }
}

proof fn lemma_bits_set_bound(x: u8)
    ensures
        bits_set(x) <= x,
    decreases x,
{
    if x != 0 {
        lemma_bits_set_bound(x / 2);
    }
}

fn count_bits(x: u8) -> (r: u32)
    ensures
        r == bits_set(x),
{
    let mut v = x;
    let mut n: u32 = 0;
    proof {
        lemma_bits_set_bound(x);
    }
    while v != 0
        invariant
            n + bits_set(v) == bits_set(x),
            bits_set(x) <= 255,
        decreases v,
    {
        n = n + (v % 2) as u32;
        v = v / 2;
    }
    n
}

/// Hamming distance of the first `n` bytes of two hashes.
pub open spec fn hamming_prefix(a: Seq<u8>, b: Seq<u8>, n: int) -> nat
    decreases n,
{
    if n <= 0 {
        0
    } else {
        hamming_prefix(a, b, n - 1) + bits_set(a[n - 1] ^ b[n - 1])
    }
}

/// Hamming distance of two hashes over the bytes that both have.
pub open spec fn hamming(a: Seq<u8>, b: Seq<u8>) -> nat {
    hamming_prefix(a, b, if a.len() <= b.len() { a.len() as int } else { b.len() as int })
}

/// The Hamming distance of two byte strings over the bytes both have, as
/// `img_hash::ImageHash::dist` counts it (capped at `u32::MAX`).
pub fn hash_bits_distance(a: &Vec<u8>, b: &Vec<u8>) -> (r: u32)
    ensures
        r == (if hamming(a@, b@) <= u32::MAX { hamming(a@, b@) } else { u32::MAX as nat }),
{
    let n = if a.len() <= b.len() { a.len() } else { b.len() };
    let mut i: usize = 0;
    let mut acc: u32 = 0;
    while i < n
        invariant
            n <= a@.len(),
            n <= b@.len(),
            n == (if a@.len() <= b@.len() { a@.len() } else { b@.len() }),
            i <= n,
            acc == (if hamming_prefix(a@, b@, i as int) <= u32::MAX {
                hamming_prefix(a@, b@, i as int)
            } else {
                u32::MAX as nat
            }),
        decreases n - i,
    {
        let c = count_bits(a[i] ^ b[i]);
        acc = acc.saturating_add(c);
        i = i + 1;
    }
    acc
}

/// The bytes that the Base64 text `s` encodes, as
/// `img_hash::ImageHash::from_base64` reads them.
pub uninterp spec fn hash_bytes(s: Seq<char>) -> Option<Seq<u8>>;

/// Calls `img_hash::ImageHash::<Box<[u8]>>::from_base64` and hands back the
/// hash bytes (`as_bytes`). The contract names the outcome, a function of
/// the text alone; the Base64 decoding itself is not restated.
#[verifier::external_body]
fn decode_hash(s: &str) -> (r: Option<Vec<u8>>)
    ensures
        match r {
            Some(v) => hash_bytes(s@) == Some(v@),
            None => hash_bytes(s@) is None,
        },
{
    img_hash::ImageHash::<Box<[u8]>>::from_base64(s).ok().map(|h| h.as_bytes().to_vec())
}

/// The distance of two hash parts, `None` when one of them is not a valid
/// hash.
pub open spec fn part_distance(x: Seq<char>, y: Seq<char>) -> Option<nat> {
    match (hash_bytes(x), hash_bytes(y)) {
        (Some(a), Some(b)) => Some(
            if hamming(a, b) <= u32::MAX {
                hamming(a, b)
            } else {
                u32::MAX as nat
            },
        ),
        _ => None,
    }
}

/// A part distance of 2 or less counts as 1.
pub open spec fn distance_factor(d: nat) -> nat {
    if d <= 2 {
        1
    } else {
        d
    }
}

/// The product of the factors of the first `n` part pairs.
pub open spec fn parts_product(p1: Seq<Seq<char>>, p2: Seq<Seq<char>>, n: int) -> nat
    decreases n,
{
    if n <= 0 {
        1
    } else {
        parts_product(p1, p2, n - 1) * distance_factor(part_distance(p1[n - 1], p2[n - 1])->0)
    }
}

/// Whether the two hashes have the same number of parts and every part of
/// both is a valid hash.
pub open spec fn hashes_comparable(h1: Seq<char>, h2: Seq<char>) -> bool {
    parts_comparable(split_on(h1, '|'), split_on(h2, '|'))
}

/// Whether two part lists have the same length and all parts are valid.
pub open spec fn parts_comparable(p1: Seq<Seq<char>>, p2: Seq<Seq<char>>) -> bool {
    &&& p1.len() == p2.len()
    &&& forall|i: int| 0 <= i < p1.len() ==> (#[trigger] part_distance(p1[i], p2[i])) is Some
}

/// The distance of two `|`-separated hash lists: the product of the part
/// distances (each at least 1), capped at `u32::MAX`, or `u32::MAX` when the
/// lists cannot be compared.
pub open spec fn hash_distance(h1: Seq<char>, h2: Seq<char>) -> nat {
    if hashes_comparable(h1, h2) {
        let p = parts_product(split_on(h1, '|'), split_on(h2, '|'), split_on(h1, '|').len() as int);
        if p <= u32::MAX {
            p
        } else {
            u32::MAX as nat
        }
    } else {
        u32::MAX as nat
    }
}

proof fn lemma_product_positive(p1: Seq<Seq<char>>, p2: Seq<Seq<char>>, n: int)
    ensures
        parts_product(p1, p2, n) >= 1,
    decreases n,
{
    if n > 0 {
        lemma_product_positive(p1, p2, n - 1);
        let a = parts_product(p1, p2, n - 1);
        let f = distance_factor(part_distance(p1[n - 1], p2[n - 1])->0);
        assert(a * f >= 1) by (nonlinear_arith)
            requires
                a >= 1,
                f >= 1,
        ;
    }
}

proof fn lemma_saturating_step(p: nat, f: nat)
    requires
        f >= 1,
    ensures
        (if (if p <= u32::MAX { p } else { u32::MAX as nat }) * f <= u32::MAX {
            (if p <= u32::MAX { p } else { u32::MAX as nat }) * f
        } else {
            u32::MAX as nat
        }) == (if p * f <= u32::MAX { p * f } else { u32::MAX as nat }),
{
    if p > u32::MAX {
        assert(p * f >= p) by (nonlinear_arith)
            requires
                f >= 1,
        ;
        assert((u32::MAX as nat) * f >= u32::MAX) by (nonlinear_arith)
            requires
                f >= 1,
        ;
    }
}

/// The distance of two hash lists, as the importer measures the likeness of
/// two item pictures.
pub fn dist_hash(h1: &str, h2: &str) -> (r: u32)
    ensures
        r == hash_distance(h1@, h2@),
{
    let p1 = split_char(h1, '|');
    let p2 = split_char(h2, '|');
    let ghost s1 = split_on(h1@, '|');
    let ghost s2 = split_on(h2@, '|');
    assert(p1@.len() == s1.len());
    assert(p2@.len() == s2.len());
    if p1.len() != p2.len() {
        return u32::MAX;
    }
    let mut acc: u32 = 1;
    let mut i: usize = 0;
    while i < p1.len()
        invariant
            p1@.len() == p2@.len(),
            s1 == crate::text::views(p1@),
            s1 == split_on(h1@, '|'),
            s2 == split_on(h2@, '|'),
            s2 == crate::text::views(p2@),
            i <= p1@.len(),
            forall|j: int| 0 <= j < i ==> (#[trigger] part_distance(s1[j], s2[j])) is Some,
            acc == (if parts_product(s1, s2, i as int) <= u32::MAX {
                parts_product(s1, s2, i as int)
            } else {
                u32::MAX as nat
            }),
        decreases p1@.len() - i,
    {
        assert(s1[i as int] == p1@[i as int]@);
        assert(s2[i as int] == p2@[i as int]@);
        let a = decode_hash(p1[i].as_str());
        let b = decode_hash(p2[i].as_str());
        match (a, b) {
            (Some(a), Some(b)) => {
                let d = hash_bits_distance(&a, &b);
                let f: u32 = if d <= 2 { 1 } else { d };
                proof {
                    lemma_saturating_step(parts_product(s1, s2, i as int), f as nat);
                }
                assert((acc as u64) * (f as u64) <= u64::MAX) by (nonlinear_arith)
                    requires
                        acc <= u32::MAX,
                        f <= u32::MAX,
                ;
                let wide: u64 = (acc as u64) * (f as u64);
                acc = if wide <= u32::MAX as u64 { wide as u32 } else { u32::MAX };
            },
            _ => {
                assert(part_distance(s1[i as int], s2[i as int]) is None);
                assert(!parts_comparable(s1, s2));
                return u32::MAX;
            },
        }
        i = i + 1;
    }
    proof {
        assert(s1.len() == p1@.len());
    }
    acc
}

/// The position among the first `n` known (id, hash) pairs of the first
/// hash closest to `h`, among those closer than the threshold.
pub open spec fn closest_known(h: Seq<char>, known: Seq<(Seq<char>, Seq<char>)>, n: int) -> Option<int>
    decreases n,
{
    if n <= 0 {
        None
    } else {
        let c = closest_known(h, known, n - 1);
        let d = hash_distance(h, known[n - 1].1);
        if d < HASH_ITEM_THRESHOLD {
            match c {
                Some(j) => if d < hash_distance(h, known[j].1) {
                    Some(n - 1)
                } else {
                    Some(j)
                },
                None => Some(n - 1),
            }
        } else {
            c
        }
    }
}

/// The views of (id, hash) pairs.
pub open spec fn known_views(s: Seq<(String, String)>) -> Seq<(Seq<char>, Seq<char>)> {
    s.map_values(|p: (String, String)| (p.0@, p.1@))
}

/// The id of the known hash closest to the hash `h` of an item picture, if
/// one is closer than the threshold; of equally close ones the first.
pub fn closest_item(h: &str, known: &Vec<(String, String)>) -> (r: Option<String>)
    ensures
        match closest_known(h@, known_views(known@), known@.len() as int) {
            Some(j) => r is Some && r->0@ == known@[j].0@,
            None => r is None,
        },
{
    let ghost kv = known_views(known@);
    let mut best: Option<usize> = None;
    let mut best_d: u32 = 0;
    let mut i: usize = 0;
    while i < known.len()
        invariant
            i <= known.len(),
            kv == known_views(known@),
            best == (match closest_known(h@, kv, i as int) {
                Some(j) => Some(j as usize),
                None => None::<usize>,
            }),
            closest_known(h@, kv, i as int) matches Some(j) ==> 0 <= j < i && best_d == hash_distance(
                h@,
                kv[j].1,
            ),
        decreases known.len() - i,
    {
        assert(kv[i as int] == (known@[i as int].0@, known@[i as int].1@));
        let d = dist_hash(h, known[i].1.as_str());
        if d < HASH_ITEM_THRESHOLD {
            match best {
                Some(_) => {
                    if d < best_d {
                        best = Some(i);
                        best_d = d;
                    }
                },
                None => {
                    best = Some(i);
                    best_d = d;
                },
            }
        }
        i = i + 1;
    }
    match best {
        Some(j) => Some(known[j].0.clone()),
        None => None,
    }
}

} // verus!
