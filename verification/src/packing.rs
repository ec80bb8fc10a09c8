//! Five octets and eight quintets are two readings of the same 40 bits. This
//! module states both readings over one 40-bit number and regroups between them.

use vstd::prelude::*;

verus! {

/// Five octets read as one 40-bit number, the first octet in the highest bits.
pub open spec fn octets_value(octets: Seq<u8>) -> u64
    recommends
        octets.len() == 5,
{
    (octets[0] as u64) << 32
        | (octets[1] as u64) << 24
        | (octets[2] as u64) << 16
        | (octets[3] as u64) << 8
        | (octets[4] as u64)
}

/// Eight quintets read as one 40-bit number, the first quintet in the highest bits.
pub open spec fn quintets_value(quintets: Seq<u8>) -> u64
    recommends
        quintets.len() == 8,
        forall|j: int| 0 <= j < 8 ==> quintets[j] < 32,
{
    (quintets[0] as u64) << 35
        | (quintets[1] as u64) << 30
        | (quintets[2] as u64) << 25
        | (quintets[3] as u64) << 20
        | (quintets[4] as u64) << 15
        | (quintets[5] as u64) << 10
        | (quintets[6] as u64) << 5
        | (quintets[7] as u64)
}

/// The `j`-th of the eight quintets of a 40-bit number, counted from the highest bits.
pub open spec fn quintet_of(group: u64, j: int) -> u8
    recommends
        0 <= j < 8,
{
    ((group >> ((35 - 5 * j) as u64)) & 0x1f) as u8
}

/// The `j`-th of the five octets of a 40-bit number, counted from the highest bits.
pub open spec fn octet_of(group: u64, j: int) -> u8
    recommends
        0 <= j < 5,
{
    ((group >> ((32 - 8 * j) as u64)) & 0xff) as u8
}

/// The item at index `i`, or zero where the sequence has none: a short final
/// group is read as if zeros followed it.
pub open spec fn item_or_zero(items: Seq<u8>, i: int) -> u8 {
    if 0 <= i < items.len() {
        items[i]
    } else {
        0
    }
}

/// The `width` items from index `start` on, with zeros past the end.
pub open spec fn group_at(items: Seq<u8>, start: int, width: nat) -> Seq<u8> {
    Seq::new(width, |j: int| item_or_zero(items, start + j))
}

/// The `k`-th quintet of a sequence of octets: the octets are taken five at a
/// time, and each group of 40 bits is cut into eight quintets.
pub open spec fn quintet(octets: Seq<u8>, k: int) -> u8
    recommends
        0 <= k,
{
    quintet_of(octets_value(group_at(octets, 5 * (k / 8), 5)), k % 8)
}

/// The `k`-th octet of a sequence of quintets: the quintets are taken eight at a
/// time, and each group of 40 bits is cut into five octets.
pub open spec fn octet(quintets: Seq<u8>, k: int) -> u8
    recommends
        0 <= k,
{
    octet_of(quintets_value(group_at(quintets, 8 * (k / 5), 8)), k % 5)
}

/// How many quintets hold a bit of `octets` octets: eight bits each, five to a
/// quintet, rounded up.
pub open spec fn quintet_count(octets: nat) -> nat {
    (8 * octets + 4) / 5
}

/// How many whole octets `quintets` quintets hold: five bits each, eight to an
/// octet, rounded down.
pub open spec fn octet_count(quintets: nat) -> nat {
    5 * quintets / 8
}

/// Cuts five octets into the eight quintets of the 40 bits that they hold.
pub fn split_group(octets: &[u8; 5]) -> (quintets: [u8; 8])
    ensures
        forall|j: int| 0 <= j < 8 ==> quintets@[j] == quintet_of(octets_value(octets@), j),
        forall|j: int| 0 <= j < 8 ==> quintets@[j] < 32,
{
    let b0 = octets[0];
    let b1 = octets[1];
    let b2 = octets[2];
    let b3 = octets[3];
    let b4 = octets[4];
    let q0 = (b0 & 0xF8) >> 3;
    let q1 = ((b0 & 0x07) << 2) | ((b1 & 0xC0) >> 6);
    let q2 = (b1 & 0x3E) >> 1;
    let q3 = ((b1 & 0x01) << 4) | ((b2 & 0xF0) >> 4);
    let q4 = ((b2 & 0x0F) << 1) | (b3 >> 7);
    let q5 = (b3 & 0x7C) >> 2;
    let q6 = ((b3 & 0x03) << 3) | ((b4 & 0xE0) >> 5);
    let q7 = b4 & 0x1F;
    proof {
        let n = octets_value(octets@);
        assert({
            &&& q0 == ((n >> 35) & 0x1f) as u8
            &&& q1 == ((n >> 30) & 0x1f) as u8
            &&& q2 == ((n >> 25) & 0x1f) as u8
            &&& q3 == ((n >> 20) & 0x1f) as u8
            &&& q4 == ((n >> 15) & 0x1f) as u8
            &&& q5 == ((n >> 10) & 0x1f) as u8
            &&& q6 == ((n >> 5) & 0x1f) as u8
            &&& q7 == ((n >> 0) & 0x1f) as u8
            &&& q0 < 32 && q1 < 32 && q2 < 32 && q3 < 32
            &&& q4 < 32 && q5 < 32 && q6 < 32 && q7 < 32
        }) by (bit_vector)
            requires
                n == (b0 as u64) << 32 | (b1 as u64) << 24 | (b2 as u64) << 16 | (b3 as u64) << 8
                | (b4 as u64),
                q0 == (b0 & 0xF8) >> 3,
                q1 == ((b0 & 0x07) << 2) | ((b1 & 0xC0) >> 6),
                q2 == (b1 & 0x3E) >> 1,
                q3 == ((b1 & 0x01) << 4) | ((b2 & 0xF0) >> 4),
                q4 == ((b2 & 0x0F) << 1) | (b3 >> 7),
                q5 == (b3 & 0x7C) >> 2,
                q6 == ((b3 & 0x03) << 3) | ((b4 & 0xE0) >> 5),
                q7 == b4 & 0x1F,
        ;
    }
    [q0, q1, q2, q3, q4, q5, q6, q7]
}

/// Puts eight quintets together into the five octets of the 40 bits that they hold.
pub fn join_group(quintets: &[u8; 8]) -> (octets: [u8; 5])
    requires
        forall|j: int| 0 <= j < 8 ==> quintets@[j] < 32,
    ensures
        forall|j: int| 0 <= j < 5 ==> octets@[j] == octet_of(quintets_value(quintets@), j),
{
    let q0 = quintets[0];
    let q1 = quintets[1];
    let q2 = quintets[2];
    let q3 = quintets[3];
    let q4 = quintets[4];
    let q5 = quintets[5];
    let q6 = quintets[6];
    let q7 = quintets[7];
    let b0 = (q0 << 3) | (q1 >> 2);
    let b1 = (q1 << 6) | (q2 << 1) | (q3 >> 4);
    let b2 = (q3 << 4) | (q4 >> 1);
    let b3 = (q4 << 7) | (q5 << 2) | (q6 >> 3);
    let b4 = (q6 << 5) | q7;
    proof {
        let n = quintets_value(quintets@);
        assert({
            &&& b0 == ((n >> 32) & 0xff) as u8
            &&& b1 == ((n >> 24) & 0xff) as u8
            &&& b2 == ((n >> 16) & 0xff) as u8
            &&& b3 == ((n >> 8) & 0xff) as u8
            &&& b4 == ((n >> 0) & 0xff) as u8
        }) by (bit_vector)
            requires
                q0 < 32 && q1 < 32 && q2 < 32 && q3 < 32,
                q4 < 32 && q5 < 32 && q6 < 32 && q7 < 32,
                n == (q0 as u64) << 35 | (q1 as u64) << 30 | (q2 as u64) << 25 | (q3 as u64) << 20
                    | (q4 as u64) << 15 | (q5 as u64) << 10 | (q6 as u64) << 5 | (q7 as u64),
                b0 == (q0 << 3) | (q1 >> 2),
                b1 == (q1 << 6) | (q2 << 1) | (q3 >> 4),
                b2 == (q3 << 4) | (q4 >> 1),
                b3 == (q4 << 7) | (q5 << 2) | (q6 >> 3),
                b4 == (q6 << 5) | q7,
        ;
    }
    [b0, b1, b2, b3, b4]
}

/// A quintet is a five-bit value.
pub proof fn lemma_quintet_of_bound(group: u64, j: int)
    requires
        0 <= j < 8,
    ensures
        quintet_of(group, j) < 32,
{
    let shift = (35 - 5 * j) as u64;
    assert((((group >> shift) & 0x1f) as u8) < 32) by (bit_vector);
}

/// Cutting five octets into quintets and reading the quintets as one number
/// gives the number of the octets back.
pub proof fn lemma_quintets_of_octets(octets: Seq<u8>)
    requires
        octets.len() == 5,
    ensures
        quintets_value(Seq::new(8, |j: int| quintet_of(octets_value(octets), j))) == octets_value(
            octets,
        ),
{
    let n = octets_value(octets);
    let (b0, b1, b2, b3, b4) = (octets[0], octets[1], octets[2], octets[3], octets[4]);
    let quintets = Seq::new(8, |j: int| quintet_of(n, j));
    let (q0, q1, q2, q3) = (quintets[0], quintets[1], quintets[2], quintets[3]);
    let (q4, q5, q6, q7) = (quintets[4], quintets[5], quintets[6], quintets[7]);
    assert((q0 as u64) << 35 | (q1 as u64) << 30 | (q2 as u64) << 25 | (q3 as u64) << 20
        | (q4 as u64) << 15 | (q5 as u64) << 10 | (q6 as u64) << 5 | (q7 as u64) == n)
        by (bit_vector)
        requires
            n == (b0 as u64) << 32 | (b1 as u64) << 24 | (b2 as u64) << 16 | (b3 as u64) << 8
                | (b4 as u64),
            q0 == ((n >> 35) & 0x1f) as u8,
            q1 == ((n >> 30) & 0x1f) as u8,
            q2 == ((n >> 25) & 0x1f) as u8,
            q3 == ((n >> 20) & 0x1f) as u8,
            q4 == ((n >> 15) & 0x1f) as u8,
            q5 == ((n >> 10) & 0x1f) as u8,
            q6 == ((n >> 5) & 0x1f) as u8,
            q7 == ((n >> 0) & 0x1f) as u8,
    ;
}

/// Reading five octets as one number and cutting the number into octets gives
/// the five octets back.
pub proof fn lemma_octets_of_octets(octets: Seq<u8>, j: int)
    requires
        octets.len() == 5,
        0 <= j < 5,
    ensures
        octet_of(octets_value(octets), j) == octets[j],
{
    let n = octets_value(octets);
    let (b0, b1, b2, b3, b4) = (octets[0], octets[1], octets[2], octets[3], octets[4]);
    assert({
        &&& ((n >> 32) & 0xff) as u8 == b0
        &&& ((n >> 24) & 0xff) as u8 == b1
        &&& ((n >> 16) & 0xff) as u8 == b2
        &&& ((n >> 8) & 0xff) as u8 == b3
        &&& ((n >> 0) & 0xff) as u8 == b4
    }) by (bit_vector)
        requires
            n == (b0 as u64) << 32 | (b1 as u64) << 24 | (b2 as u64) << 16 | (b3 as u64) << 8
                | (b4 as u64),
    ;
}

/// Where only the first `present` of five octets are not zero, every quintet
/// past those that hold one of their bits is zero.
pub proof fn lemma_quintets_past_octets(octets: Seq<u8>, present: nat, j: int)
    requires
        octets.len() == 5,
        present <= 5,
        forall|i: int| present <= i < 5 ==> octets[i] == 0,
        quintet_count(present) <= j < 8,
    ensures
        quintet_of(octets_value(octets), j) == 0,
{
    let n = octets_value(octets);
    let (b0, b1, b2, b3, b4) = (octets[0], octets[1], octets[2], octets[3], octets[4]);
    assert({
        &&& b4 == 0 ==> ((n >> 0) & 0x1f) as u8 == 0
        &&& b3 == 0 && b4 == 0 ==> ((n >> 5) & 0x1f) as u8 == 0 && ((n >> 10) & 0x1f) as u8 == 0
        &&& b2 == 0 && b3 == 0 && b4 == 0 ==> ((n >> 15) & 0x1f) as u8 == 0
        &&& b1 == 0 && b2 == 0 && b3 == 0 && b4 == 0 ==> ((n >> 20) & 0x1f) as u8 == 0 && ((n
            >> 25) & 0x1f) as u8 == 0
        &&& b0 == 0 && b1 == 0 && b2 == 0 && b3 == 0 && b4 == 0 ==> ((n >> 30) & 0x1f) as u8 == 0
            && ((n >> 35) & 0x1f) as u8 == 0
    }) by (bit_vector)
        requires
            n == (b0 as u64) << 32 | (b1 as u64) << 24 | (b2 as u64) << 16 | (b3 as u64) << 8
                | (b4 as u64),
    ;
}

/// The eight quintets of the `g`-th group of octets are the quintets `8 * g` to
/// `8 * g + 7` of the whole sequence.
pub proof fn lemma_quintets_of_group(octets: Seq<u8>, g: int)
    requires
        0 <= g,
    ensures
        forall|j: int|
            0 <= j < 8 ==> #[trigger] quintet(octets, 8 * g + j) == quintet_of(
                octets_value(group_at(octets, 5 * g, 5)),
                j,
            ),
{
    assert forall|j: int| 0 <= j < 8 implies #[trigger] quintet(octets, 8 * g + j) == quintet_of(
        octets_value(group_at(octets, 5 * g, 5)),
        j,
    ) by {
        assert((8 * g + j) / 8 == g);
        assert((8 * g + j) % 8 == j);
    }
}

/// The five octets of the `g`-th group of quintets are the octets `5 * g` to
/// `5 * g + 4` of the whole sequence.
pub proof fn lemma_octets_of_group(quintets: Seq<u8>, g: int)
    requires
        0 <= g,
    ensures
        forall|j: int|
            0 <= j < 5 ==> #[trigger] octet(quintets, 5 * g + j) == octet_of(
                quintets_value(group_at(quintets, 8 * g, 8)),
                j,
            ),
{
    assert forall|j: int| 0 <= j < 5 implies #[trigger] octet(quintets, 5 * g + j) == octet_of(
        quintets_value(group_at(quintets, 8 * g, 8)),
        j,
    ) by {
        assert((5 * g + j) / 5 == g);
        assert((5 * g + j) % 5 == j);
    }
}

/// Every quintet of a sequence of octets is a five-bit value.
pub proof fn lemma_quintet_bound(octets: Seq<u8>, k: int)
    requires
        0 <= k,
    ensures
        quintet(octets, k) < 32,
{
    lemma_quintet_of_bound(octets_value(group_at(octets, 5 * (k / 8), 5)), k % 8);
}

/// Past the quintets that hold a bit of the octets, every quintet is zero.
pub proof fn lemma_quintet_past_end(octets: Seq<u8>, k: int)
    requires
        quintet_count(octets.len()) <= k,
    ensures
        quintet(octets, k) == 0,
{
    let g = k / 8;
    let group = group_at(octets, 5 * g, 5);
    let whole = octets.len() as int / 5;
    let present: nat = if g == whole {
        (octets.len() % 5) as nat
    } else {
        0
    };
    lemma_quintets_past_octets(group, present, k % 8);
}

/// The octets of the quintets of a sequence are the sequence: where `quintets`
/// holds the quintets of `octets`, with or without zeros after them, its `k`-th
/// octet is the `k`-th of `octets`.
pub proof fn lemma_octet_of_quintets(octets: Seq<u8>, quintets: Seq<u8>, k: int)
    requires
        forall|i: int| 0 <= i ==> #[trigger] item_or_zero(quintets, i) == quintet(octets, i),
        0 <= k < octets.len(),
    ensures
        octet(quintets, k) == octets[k],
{
    let g = k / 5;
    let from_octets = group_at(octets, 5 * g, 5);
    let from_quintets = group_at(quintets, 8 * g, 8);
    assert forall|j: int| 0 <= j < 8 implies from_quintets[j] == quintet_of(
        octets_value(from_octets),
        j,
    ) by {
        assert(item_or_zero(quintets, 8 * g + j) == quintet(octets, 8 * g + j));
        assert((8 * g + j) / 8 == g);
        assert((8 * g + j) % 8 == j);
    }
    assert(from_quintets =~= Seq::new(8, |j: int| quintet_of(octets_value(from_octets), j)));
    lemma_quintets_of_octets(from_octets);
    lemma_octets_of_octets(from_octets, k % 5);
}

/// As many quintets as hold the bits of `n` octets hold `n` whole octets, no more.
pub proof fn lemma_octet_count_of_quintet_count(n: nat)
    ensures
        octet_count(quintet_count(n)) == n,
{
}

} // verus!
