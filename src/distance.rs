//! Bit-mismatch distances and the choice of the nearest representative.
use vstd::prelude::*;
use crate::encoding::{encode_seq, is_recognized, symbol_bits};

verus! {

/// Number of positions, over the common prefix, where two bit vectors differ.
pub open spec fn mismatch_count(a: Seq<bool>, b: Seq<bool>) -> nat
    decreases a.len(),
{
    if a.len() == 0 || b.len() == 0 {
        0
    } else {
        (if a[0] != b[0] { 1nat } else { 0nat }) + mismatch_count(
            a.subrange(1, a.len() as int),
            b.subrange(1, b.len() as int),
        )
    }
}

/// Number of positions, over the common prefix, where two symbol sequences differ.
pub open spec fn symbol_differences(s: Seq<u8>, t: Seq<u8>) -> nat
    decreases s.len(),
{
    if s.len() == 0 || t.len() == 0 {
        0
    } else {
        (if s[0] != t[0] { 1nat } else { 0nat }) + symbol_differences(
            s.subrange(1, s.len() as int),
            t.subrange(1, t.len() as int),
        )
    }
}

/// Distance from `q` to each representative, in representative order.
pub open spec fn distances_to(reps: Seq<Seq<bool>>, q: Seq<bool>) -> Seq<nat> {
    Seq::new(reps.len(), |i: int| mismatch_count(reps[i], q))
}

/// Index of the first smallest entry.
pub open spec fn first_min_index(d: Seq<nat>) -> int
    decreases d.len(),
{
    if d.len() <= 1 {
        0
    } else {
        let k = first_min_index(d.drop_last());
        if d.last() < d[k] {
            d.len() - 1
        } else {
            k
        }
    }
}

/// A distance buffer read as natural numbers.
pub open spec fn as_nats(d: Seq<usize>) -> Seq<nat> {
    d.map_values(|x: usize| x as nat)
}

/// The mismatch count does not depend on the order of its arguments.
pub proof fn lemma_mismatch_symmetric(a: Seq<bool>, b: Seq<bool>)
    ensures
        mismatch_count(a, b) == mismatch_count(b, a),
    decreases a.len(),
{
    if a.len() > 0 && b.len() > 0 {
        lemma_mismatch_symmetric(a.subrange(1, a.len() as int), b.subrange(1, b.len() as int));
    }
}

/// Mismatches of concatenations add up when the first parts have equal length.
pub proof fn lemma_mismatch_concat(a1: Seq<bool>, a2: Seq<bool>, b1: Seq<bool>, b2: Seq<bool>)
    requires
        a1.len() == b1.len(),
    ensures
        mismatch_count(a1 + a2, b1 + b2) == mismatch_count(a1, b1) + mismatch_count(a2, b2),
    decreases a1.len(),
{
    if a1.len() == 0 {
        assert(a1 + a2 =~= a2);
        assert(b1 + b2 =~= b2);
    } else {
        let ta = a1.subrange(1, a1.len() as int);
        let tb = b1.subrange(1, b1.len() as int);
        lemma_mismatch_concat(ta, a2, tb, b2);
        assert((a1 + a2).subrange(1, (a1 + a2).len() as int) =~= ta + a2);
        assert((b1 + b2).subrange(1, (b1 + b2).len() as int) =~= tb + b2);
    }
}

/// Two recognized symbols differ in no bit when equal and in two bits otherwise.
pub proof fn lemma_symbol_mismatch(c: u8, d: u8)
    requires
        is_recognized(c),
        is_recognized(d),
    ensures
        mismatch_count(symbol_bits(c), symbol_bits(d)) == (if c == d { 0nat } else { 2nat }),
{
    let x = symbol_bits(c);
    let y = symbol_bits(d);
    let x1 = x.subrange(1, 5);
    let y1 = y.subrange(1, 5);
    let x2 = x1.subrange(1, 4);
    let y2 = y1.subrange(1, 4);
    let x3 = x2.subrange(1, 3);
    let y3 = y2.subrange(1, 3);
    let x4 = x3.subrange(1, 2);
    let y4 = y3.subrange(1, 2);
    let x5 = x4.subrange(1, 1);
    let y5 = y4.subrange(1, 1);
    assert(mismatch_count(x5, y5) == 0);
    assert(mismatch_count(x4, y4) == (if x4[0] != y4[0] { 1nat } else { 0nat }));
    assert(mismatch_count(x3, y3) == (if x3[0] != y3[0] { 1nat } else { 0nat }) + mismatch_count(x4, y4));
    assert(mismatch_count(x2, y2) == (if x2[0] != y2[0] { 1nat } else { 0nat }) + mismatch_count(x3, y3));
    assert(mismatch_count(x1, y1) == (if x1[0] != y1[0] { 1nat } else { 0nat }) + mismatch_count(x2, y2));
    assert(mismatch_count(x, y) == (if x[0] != y[0] { 1nat } else { 0nat }) + mismatch_count(x1, y1));
}

/// For equal-length sequences of recognized symbols, the bit mismatch count of
/// their encodings is exactly twice the number of differing symbol positions.
pub proof fn lemma_mismatch_doubles(s: Seq<u8>, t: Seq<u8>)
    requires
        s.len() == t.len(),
        forall|i: int| 0 <= i < s.len() ==> is_recognized(#[trigger] s[i]),
        forall|i: int| 0 <= i < t.len() ==> is_recognized(#[trigger] t[i]),
    ensures
        mismatch_count(encode_seq(s), encode_seq(t)) == 2 * symbol_differences(s, t),
    decreases s.len(),
{
    if s.len() > 0 {
        let rs = s.subrange(1, s.len() as int);
        let rt = t.subrange(1, t.len() as int);
        assert forall|i: int| 0 <= i < rs.len() implies is_recognized(#[trigger] rs[i]) by {
            assert(rs[i] == s[i + 1]);
        }
        assert forall|i: int| 0 <= i < rt.len() implies is_recognized(#[trigger] rt[i]) by {
            assert(rt[i] == t[i + 1]);
        }
        lemma_mismatch_doubles(rs, rt);
        assert(is_recognized(s[0]));
        assert(is_recognized(t[0]));
        lemma_symbol_mismatch(s[0], t[0]);
        lemma_mismatch_concat(symbol_bits(s[0]), encode_seq(rs), symbol_bits(t[0]), encode_seq(rt));
    }
}

/// Counts the positions, over the common prefix, where `a` and `b` differ.
pub fn bit_mismatches(a: &Vec<bool>, b: &Vec<bool>) -> (r: usize)
    ensures
        r == mismatch_count(a@, b@),
{
    let n = if a.len() < b.len() { a.len() } else { b.len() };
    let mut count: usize = 0;
    let mut i: usize = 0;
    assert(a@.subrange(0, a@.len() as int) =~= a@);
    assert(b@.subrange(0, b@.len() as int) =~= b@);
    while i < n
        invariant
            n <= a@.len(),
            n <= b@.len(),
            n == a@.len() || n == b@.len(),
            i <= n,
            count <= i,
            count + mismatch_count(
                a@.subrange(i as int, a@.len() as int),
                b@.subrange(i as int, b@.len() as int),
            ) == mismatch_count(a@, b@),
        decreases n - i,
    {
        let ghost ra = a@.subrange(i as int, a@.len() as int);
        let ghost rb = b@.subrange(i as int, b@.len() as int);
        assert(ra.subrange(1, ra.len() as int) =~= a@.subrange(i + 1, a@.len() as int));
        assert(rb.subrange(1, rb.len() as int) =~= b@.subrange(i + 1, b@.len() as int));
        if a[i] != b[i] {
            count = count + 1;
        }
        i = i + 1;
    }
    count
}

/// Writes into `distances` the mismatch count from `query` to each representative.
pub fn get_distances(reps: &Vec<Vec<bool>>, query: &Vec<bool>, distances: &mut Vec<usize>)
    requires
        old(distances)@.len() == reps@.len(),
    ensures
        final(distances)@.len() == reps@.len(),
        forall|i: int|
            0 <= i < reps@.len() ==> #[trigger] final(distances)@[i] as nat == mismatch_count(
                reps@[i]@,
                query@,
            ),
{
    let n = reps.len();
    let mut i: usize = 0;
    while i < n
        invariant
            n == reps@.len(),
            distances@.len() == n,
            i <= n,
            forall|j: int|
                0 <= j < i ==> #[trigger] distances@[j] as nat == mismatch_count(reps@[j]@, query@),
        decreases n - i,
    {
        let d = bit_mismatches(&reps[i], query);
        distances[i] = d;
        i = i + 1;
    }
}

/// Index of the first smallest distance.
pub fn nearest(distances: &Vec<usize>) -> (r: usize)
    requires
        distances@.len() > 0,
    ensures
        r == first_min_index(as_nats(distances@)),
{
    let n = distances.len();
    let mut best: usize = 0;
    let mut i: usize = 1;
    assert(as_nats(distances@.subrange(0, 1)).len() == 1);
    while i < n
        invariant
            n == distances@.len(),
            1 <= i <= n,
            best < i,
            best == first_min_index(as_nats(distances@.subrange(0, i as int))),
        decreases n - i,
    {
        let ghost pre = as_nats(distances@.subrange(0, i as int));
        let ghost next = as_nats(distances@.subrange(0, i + 1));
        assert(next.drop_last() =~= pre);
        if distances[i] < distances[best] {
            best = i;
        }
        i = i + 1;
    }
    assert(distances@.subrange(0, n as int) =~= distances@);
    best
}

/// The chosen index holds a smallest distance, and every earlier index holds a
/// strictly larger one: among equally near representatives the earliest wins.
pub proof fn lemma_first_min(d: Seq<nat>)
    requires
        d.len() > 0,
    ensures
        0 <= first_min_index(d) < d.len(),
        forall|j: int| 0 <= j < d.len() ==> d[first_min_index(d)] <= #[trigger] d[j],
        forall|j: int| 0 <= j < first_min_index(d) ==> d[first_min_index(d)] < #[trigger] d[j],
    decreases d.len(),
{
    if d.len() > 1 {
        let p = d.drop_last();
        lemma_first_min(p);
        let k = first_min_index(p);
        assert(p[k] == d[k]);
        assert forall|j: int| 0 <= j < p.len() implies p[j] == d[j] by {}
        assert forall|j: int| 0 <= j < d.len() implies d[first_min_index(d)] <= #[trigger] d[j] by {
            if j < p.len() {
                assert(p[k] <= p[j]);
            }
        }
        assert forall|j: int| 0 <= j < first_min_index(d) implies d[first_min_index(d)] < #[trigger] d[j] by {
            if j < k {
                assert(p[k] < p[j]);
            } else if j < p.len() {
                assert(p[k] <= p[j]);
            }
        }
    }
}

} // verus!
