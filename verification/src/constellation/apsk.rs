//! Labels of the APSK constellations: on which ring and at which angle each stands.
//!
//! 16-APSK and 32-APSK are those of DVB-S2 (EN 302 307-1, figures 11 and 12);
//! 64-APSK is the 4+12+20+28 layout of DVB-S2X (EN 302 307-2, table 13e). A label
//! is read most significant bit first.

use vstd::prelude::*;

use crate::constellation::ring;
use crate::symbol::Symbol;

verus! {

/// Ring of each label of 16-APSK, counted from the innermost.
pub const RING_16: [u8; 16] = [
    2, 2, 2, 2, 2, 2, 2, 2, 2, 2, 2, 2, 1, 1, 1, 1,
];

/// Numerator of the angle of each label of 16-APSK, over `pi`.
pub const NUM_16: [u8; 16] = [
    1, 7, 3, 5, 1, 23, 11, 13, 5, 19, 7, 17, 1, 7, 3, 5,
];

/// Denominator of the angle of each label of 16-APSK.
pub const DEN_16: [u8; 16] = [
    4, 4, 4, 4, 12, 12, 12, 12, 12, 12, 12, 12, 4, 4, 4, 4,
];

/// Ring of each label of 32-APSK, counted from the innermost.
pub const RING_32: [u8; 32] = [
    2, 2, 2, 2, 2, 2, 2, 2, 3, 3, 3, 3, 3, 3, 3, 3,
    2, 1, 2, 1, 2, 1, 2, 1, 3, 3, 3, 3, 3, 3, 3, 3,
];

/// Numerator of the angle of each label of 32-APSK, over `pi`.
pub const NUM_32: [u8; 32] = [
    1, 5, 7, 19, 3, 7, 5, 17, 1, 3, 7, 12, 3, 4, 9, 11,
    1, 1, 23, 7, 11, 3, 13, 5, 0, 1, 15, 13, 7, 5, 8, 5,
];

/// Denominator of the angle of each label of 32-APSK.
pub const DEN_32: [u8; 32] = [
    4, 12, 4, 12, 4, 12, 4, 12, 8, 8, 4, 8, 4, 8, 8, 8,
    12, 4, 12, 4, 12, 4, 12, 4, 8, 4, 8, 8, 8, 8, 8, 4,
];

/// Ring of each label of 64-APSK, counted from the innermost.
pub const RING_64: [u8; 64] = [
    4, 4, 4, 4, 4, 4, 4, 4, 4, 4, 4, 4, 1, 1, 1, 1,
    4, 4, 4, 4, 4, 4, 4, 4, 3, 3, 3, 3, 2, 2, 2, 2,
    4, 4, 4, 4, 3, 3, 3, 3, 4, 4, 4, 4, 2, 2, 2, 2,
    3, 3, 3, 3, 3, 3, 3, 3, 3, 3, 3, 3, 2, 2, 2, 2,
];

/// Numerator of the angle of each label of 64-APSK, over `pi`.
pub const NUM_64: [u8; 64] = [
    1, 7, 3, 5, 13, 43, 15, 41, 1, 55, 27, 29, 1, 7, 3, 5,
    9, 47, 19, 37, 11, 45, 17, 39, 1, 39, 19, 21, 1, 23, 11, 13,
    5, 51, 23, 33, 9, 31, 11, 29, 3, 53, 25, 31, 5, 19, 7, 17,
    1, 7, 3, 5, 7, 33, 13, 27, 3, 37, 17, 23, 1, 7, 3, 5,
];

/// Denominator of the angle of each label of 64-APSK.
pub const DEN_64: [u8; 64] = [
    4, 4, 4, 4, 28, 28, 28, 28, 28, 28, 28, 28, 4, 4, 4, 4,
    28, 28, 28, 28, 28, 28, 28, 28, 20, 20, 20, 20, 12, 12, 12, 12,
    28, 28, 28, 28, 20, 20, 20, 20, 28, 28, 28, 28, 12, 12, 12, 12,
    4, 4, 4, 4, 20, 20, 20, 20, 20, 20, 20, 20, 4, 4, 4, 4,
];

/// Where one label stands.
pub struct LabelPlace {
    /// Ring, counted from the innermost, which is 1.
    pub ring: u8,
    /// The angle is `num * pi / den`.
    pub num: u8,
    pub den: u8,
}

/// Where a label of 16-APSK stands.
pub open spec fn place_16(label: int) -> LabelPlace {
    LabelPlace { ring: RING_16@[label], num: NUM_16@[label], den: DEN_16@[label] }
}

/// Where a label of 32-APSK stands.
pub open spec fn place_32(label: int) -> LabelPlace {
    LabelPlace { ring: RING_32@[label], num: NUM_32@[label], den: DEN_32@[label] }
}

/// Where a label of 64-APSK stands.
pub open spec fn place_64(label: int) -> LabelPlace {
    LabelPlace { ring: RING_64@[label], num: NUM_64@[label], den: DEN_64@[label] }
}

/// The point at a place, for given ring radii.
pub open spec fn point_at(place: LabelPlace, radii: Seq<int>) -> Symbol {
    ring::scaled(ring::direction_of(place.num as int, place.den as int), radii[place.ring - 1])
}

/// One label's point.
fn place_point(ring: u8, num: u8, den: u8, radii: &[u64]) -> (p: Symbol)
    requires
        ring::known_divisor(den as int),
        1 <= ring <= radii@.len(),
        forall|k: int| 0 <= k < radii@.len() ==> radii@[k] <= 0x80_0000_0000_0000,
    ensures
        p == point_at(
            LabelPlace { ring, num, den },
            as_radii(radii@),
        ),
        p.in_reach(),
{
    let d = ring::direction(num as usize, den as usize);
    let i: usize = ring as usize - 1;
    ring::scale(d, radii[i])
}

/// Radii as integers.
pub open spec fn as_radii(radii: Seq<u64>) -> Seq<int> {
    Seq::new(radii.len(), |i: int| radii[i] as int)
}

/// The tables of 16-APSK are within their bounds.
proof fn lemma_places_16(label: int)
    requires
        0 <= label < 16,
    ensures
        1 <= RING_16@[label] <= 2,
        ring::known_divisor(DEN_16@[label] as int),
{
}

/// The points of 16-APSK for given ring radii.
pub fn points_16(radii: &[u64]) -> (points: Vec<Symbol>)
    requires
        radii@.len() == 2,
        forall|k: int| 0 <= k < radii@.len() ==> radii@[k] <= 0x80_0000_0000_0000,
    ensures
        points@ == Seq::new(16, |label: int| point_at(place_16(label), as_radii(radii@))),
        forall|label: int| 0 <= label < 16 ==> (#[trigger] points@[label]).in_reach(),
{
    let mut points: Vec<Symbol> = Vec::new();
    let mut i: usize = 0;
    while i < 16
        invariant
            i <= 16,
            radii@.len() == 2,
            forall|k: int| 0 <= k < radii@.len() ==> radii@[k] <= 0x80_0000_0000_0000,
            points@.len() == i,
            forall|label: int|
                0 <= label < i ==> #[trigger] points@[label] == point_at(
                    place_16(label),
                    as_radii(radii@),
                ),
            forall|label: int| 0 <= label < i ==> (#[trigger] points@[label]).in_reach(),
        decreases 16 - i,
    {
        proof {
            lemma_places_16(i as int);
        }
        points.push(place_point(RING_16[i], NUM_16[i], DEN_16[i], radii));
        i = i + 1;
    }
    assert(points@ =~= Seq::new(16, |label: int| point_at(place_16(label), as_radii(radii@))));
    points
}

/// The tables of 32-APSK are within their bounds.
proof fn lemma_places_32(label: int)
    requires
        0 <= label < 32,
    ensures
        1 <= RING_32@[label] <= 3,
        ring::known_divisor(DEN_32@[label] as int),
{
}

/// The points of 32-APSK for given ring radii.
pub fn points_32(radii: &[u64]) -> (points: Vec<Symbol>)
    requires
        radii@.len() == 3,
        forall|k: int| 0 <= k < radii@.len() ==> radii@[k] <= 0x80_0000_0000_0000,
    ensures
        points@ == Seq::new(32, |label: int| point_at(place_32(label), as_radii(radii@))),
        forall|label: int| 0 <= label < 32 ==> (#[trigger] points@[label]).in_reach(),
{
    let mut points: Vec<Symbol> = Vec::new();
    let mut i: usize = 0;
    while i < 32
        invariant
            i <= 32,
            radii@.len() == 3,
            forall|k: int| 0 <= k < radii@.len() ==> radii@[k] <= 0x80_0000_0000_0000,
            points@.len() == i,
            forall|label: int|
                0 <= label < i ==> #[trigger] points@[label] == point_at(
                    place_32(label),
                    as_radii(radii@),
                ),
            forall|label: int| 0 <= label < i ==> (#[trigger] points@[label]).in_reach(),
        decreases 32 - i,
    {
        proof {
            lemma_places_32(i as int);
        }
        points.push(place_point(RING_32[i], NUM_32[i], DEN_32[i], radii));
        i = i + 1;
    }
    assert(points@ =~= Seq::new(32, |label: int| point_at(place_32(label), as_radii(radii@))));
    points
}

/// The tables of 64-APSK are within their bounds.
proof fn lemma_places_64(label: int)
    requires
        0 <= label < 64,
    ensures
        1 <= RING_64@[label] <= 4,
        ring::known_divisor(DEN_64@[label] as int),
{
}

/// The points of 64-APSK for given ring radii.
pub fn points_64(radii: &[u64]) -> (points: Vec<Symbol>)
    requires
        radii@.len() == 4,
        forall|k: int| 0 <= k < radii@.len() ==> radii@[k] <= 0x80_0000_0000_0000,
    ensures
        points@ == Seq::new(64, |label: int| point_at(place_64(label), as_radii(radii@))),
        forall|label: int| 0 <= label < 64 ==> (#[trigger] points@[label]).in_reach(),
{
    let mut points: Vec<Symbol> = Vec::new();
    let mut i: usize = 0;
    while i < 64
        invariant
            i <= 64,
            radii@.len() == 4,
            forall|k: int| 0 <= k < radii@.len() ==> radii@[k] <= 0x80_0000_0000_0000,
            points@.len() == i,
            forall|label: int|
                0 <= label < i ==> #[trigger] points@[label] == point_at(
                    place_64(label),
                    as_radii(radii@),
                ),
            forall|label: int| 0 <= label < i ==> (#[trigger] points@[label]).in_reach(),
        decreases 64 - i,
    {
        proof {
            lemma_places_64(i as int);
        }
        points.push(place_point(RING_64[i], NUM_64[i], DEN_64[i], radii));
        i = i + 1;
    }
    assert(points@ =~= Seq::new(64, |label: int| point_at(place_64(label), as_radii(radii@))));
    points
}

/// The angle of a place in steps of which there are `steps` to half a turn.
pub open spec fn turn_of(place: LabelPlace, steps: int) -> int {
    if place.den == steps {
        place.num as int
    } else if steps == 8 {
        2 * place.num
    } else if steps == 12 {
        3 * place.num
    } else if steps == 20 {
        5 * place.num
    } else {
        7 * place.num
    }
}

/// Steps to half a turn on each ring of 16-APSK.
pub open spec fn steps_16(ring: int) -> int {
    if ring == 1 {
        4
    } else {
        12
    }
}

/// The label of 16-APSK on a ring at an angle in the steps of the ring.
pub open spec fn label_at_16(ring: int, turn: int) -> int {
    if ring == 1 {
        seq![
            12int, 14, 15, 13,
        ][turn / 2]
    } else {
        seq![
            4int, 0, 8, 10, 2, 6, 7, 3, 11, 9, 1, 5,
        ][turn / 2]
    }
}

/// Where a label of 16-APSK stands, its ring and angle tell the label.
pub proof fn lemma_place_tells_label_16(label: int)
    requires
        0 <= label < 16,
    ensures
        ({
            let p = place_16(label);
            let steps = steps_16(p.ring as int);
            &&& 1 <= p.ring <= 2
            &&& p.den == 4 || p.den == steps
            &&& p.num < 2 * p.den
            &&& label == label_at_16(p.ring as int, turn_of(p, steps))
        }),
{
}

/// Steps to half a turn on each ring of 32-APSK.
pub open spec fn steps_32(ring: int) -> int {
    if ring == 1 {
        4
    } else if ring == 2 {
        12
    } else {
        8
    }
}

/// The label of 32-APSK on a ring at an angle in the steps of the ring.
pub open spec fn label_at_32(ring: int, turn: int) -> int {
    if ring == 1 {
        seq![
            17int, 21, 23, 19,
        ][turn / 2]
    } else if ring == 2 {
        seq![
            16int, 0, 1, 5, 4, 20, 22, 6, 7, 3, 2, 18,
        ][turn / 2]
    } else {
        seq![
            24int, 8, 25, 9, 13, 29, 12, 28, 30, 14, 31, 15, 11, 27,
            10, 26,
        ][turn]
    }
}

/// Where a label of 32-APSK stands, its ring and angle tell the label.
pub proof fn lemma_place_tells_label_32(label: int)
    requires
        0 <= label < 32,
    ensures
        ({
            let p = place_32(label);
            let steps = steps_32(p.ring as int);
            &&& 1 <= p.ring <= 3
            &&& p.den == 4 || p.den == steps
            &&& p.num < 2 * p.den
            &&& label == label_at_32(p.ring as int, turn_of(p, steps))
        }),
{
}

/// Steps to half a turn on each ring of 64-APSK.
pub open spec fn steps_64(ring: int) -> int {
    if ring == 1 {
        4
    } else if ring == 2 {
        12
    } else if ring == 3 {
        20
    } else {
        28
    }
}

/// The label of 64-APSK on a ring at an angle in the steps of the ring.
pub open spec fn label_at_64(ring: int, turn: int) -> int {
    if ring == 1 {
        seq![
            12int, 14, 15, 13,
        ][turn / 2]
    } else if ring == 2 {
        seq![
            28int, 60, 44, 46, 62, 30, 31, 63, 47, 45, 61, 29,
        ][turn / 2]
    } else if ring == 3 {
        seq![
            24int, 56, 48, 52, 36, 38, 54, 50, 58, 26, 27, 59, 51, 55,
            39, 37, 53, 49, 57, 25,
        ][turn / 2]
    } else {
        seq![
            8int, 40, 32, 0, 16, 20, 4, 6, 22, 18, 2, 34, 42, 10,
            11, 43, 35, 3, 19, 23, 7, 5, 21, 17, 1, 33, 41, 9,
        ][turn / 2]
    }
}

/// Where a label of 64-APSK stands, its ring and angle tell the label.
pub proof fn lemma_place_tells_label_64(label: int)
    requires
        0 <= label < 64,
    ensures
        ({
            let p = place_64(label);
            let steps = steps_64(p.ring as int);
            &&& 1 <= p.ring <= 4
            &&& p.den == 4 || p.den == steps
            &&& p.num < 2 * p.den
            &&& label == label_at_64(p.ring as int, turn_of(p, steps))
        }),
{
}

/// The first four labels of 64-APSK stand on the outermost ring, at the angles of QPSK.
pub proof fn lemma_first_labels_of_64(label: int)
    requires
        0 <= label < 4,
    ensures
        place_64(label).ring == 4,
        place_64(label).den == 4,
        place_64(0).num == 1,
        place_64(1).num == 7,
        place_64(2).num == 3,
        place_64(3).num == 5,
{
}

// ---------------------------------------------------------------------------
// Laws on labels
// ---------------------------------------------------------------------------

/// Two numbers differ in exactly one of their low six bits.
pub open spec fn one_bit_apart(a: int, b: int) -> bool {
    let (low, high) = if a < b {
        (a, b)
    } else {
        (b, a)
    };
    let d = high - low;
    ||| d == 1 && low % 2 == 0
    ||| d == 2 && (low / 2) % 2 == 0
    ||| d == 4 && (low / 4) % 2 == 0
    ||| d == 8 && (low / 8) % 2 == 0
    ||| d == 16 && (low / 16) % 2 == 0
    ||| d == 32 && (low / 32) % 2 == 0
}

/// A place lies in quarter turn `q`, counted from the positive real axis.
pub open spec fn in_quarter(place: LabelPlace, q: int) -> bool {
    let at = 2 * place.num;
    if q == 0 {
        0 <= at < place.den
    } else if q == 1 {
        place.den <= at < 2 * place.den
    } else if q == 2 {
        2 * place.den <= at < 3 * place.den
    } else {
        3 * place.den <= at < 4 * place.den
    }
}

/// The quarter turn that two bits name: the low bit tells the lower half of the plane, the
/// high bit the left one.
pub open spec fn quarter_named(two_bits: int) -> int {
    if two_bits == 0 {
        0
    } else if two_bits == 1 {
        3
    } else if two_bits == 2 {
        1
    } else {
        2
    }
}

/// The low two bits of a label of 16-APSK or 64-APSK tell its quarter, and the next to the
/// lowest two those of 32-APSK.
pub proof fn law_two_bits_tell_the_quarter(label: int)
    ensures
        0 <= label < 16 ==> in_quarter(place_16(label), quarter_named(label % 4)),
        0 <= label < 32 ==> in_quarter(place_32(label), quarter_named((label / 2) % 4)),
        0 <= label < 64 ==> in_quarter(place_64(label), quarter_named(label % 4)),
{
}

/// A place comes next on its ring behind another, `2 * steps` to a turn and two apart.
pub open spec fn comes_next(here: LabelPlace, next: LabelPlace, steps: int) -> bool {
    &&& here.ring == next.ring
    &&& turn_of(next, steps) == turn_of(here, steps) + 2 || turn_of(next, steps) + 2 * steps
        == turn_of(here, steps) + 2
}

/// Neighbours on a ring of 16-APSK have labels that differ in one bit.
pub proof fn law_neighbours_of_16_differ_in_one_bit(i: int, j: int)
    requires
        0 <= i < 16,
        0 <= j < 16,
        comes_next(place_16(i), place_16(j), steps_16(place_16(i).ring as int)),
    ensures
        one_bit_apart(i, j),
{
    lemma_place_tells_label_16(i);
    lemma_place_tells_label_16(j);
}

/// Neighbours on the two inner rings of 32-APSK have labels that differ in one bit.
pub proof fn law_inner_neighbours_of_32_differ_in_one_bit(i: int, j: int)
    requires
        0 <= i < 32,
        0 <= j < 32,
        place_32(i).ring <= 2,
        comes_next(place_32(i), place_32(j), steps_32(place_32(i).ring as int)),
    ensures
        one_bit_apart(i, j),
{
    lemma_place_tells_label_32(i);
    lemma_place_tells_label_32(j);
}

/// Neighbours on a ring of 64-APSK have labels that differ in one bit.
pub proof fn law_neighbours_of_64_differ_in_one_bit(i: int, j: int)
    requires
        0 <= i < 64,
        0 <= j < 64,
        comes_next(place_64(i), place_64(j), steps_64(place_64(i).ring as int)),
    ensures
        one_bit_apart(i, j),
{
    lemma_place_tells_label_64(i);
    lemma_place_tells_label_64(j);
}

/// The four labels of the inner ring are the last of 16-APSK, the odd ones from 17 to 23 of
/// 32-APSK, and 12 to 15 of 64-APSK.
pub proof fn law_inner_ring_has_four_labels(label: int)
    ensures
        0 <= label < 16 ==> (place_16(label).ring == 1 <==> label >= 12),
        0 <= label < 32 ==> (place_32(label).ring == 1 <==> 16 <= label < 24 && label % 2 == 1),
        0 <= label < 64 ==> (place_64(label).ring == 1 <==> 12 <= label < 16),
{
}

} // verus!
