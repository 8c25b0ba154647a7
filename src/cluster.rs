//! The clustering run: duplicate suppression, assignment to the nearest
//! representative and growth of the representative set.
use vstd::prelude::*;
use crate::encoding::{decode, decode_bits, encode, encode_seq, lemma_encode_len};
use crate::distance::{
    as_nats, distances_to, first_min_index, get_distances, mismatch_count, nearest,
};

verus! {

/// Field separator of an output line.
pub const TAB: u8 = 9;

/// Line terminator of an output line.
pub const NEWLINE: u8 = 10;

/// What a clustering run has built so far: the representatives in creation
/// order and the set of encodings already processed.
pub struct ClusterModel {
    pub reps: Seq<Seq<bool>>,
    pub seen: Set<Seq<bool>>,
}

/// The state of a run before any sequence.
pub open spec fn empty_model() -> ClusterModel {
    ClusterModel { reps: Seq::empty(), seen: Set::empty() }
}

/// Index of the representative that the encoded query `q` joins; the value
/// `reps.len()` means that `q` becomes a new representative. A query joins the
/// first nearest representative when its mismatched-symbol count (half the bit
/// mismatch count, rounded down) is at most `max_div`.
pub open spec fn assignment(reps: Seq<Seq<bool>>, q: Seq<bool>, max_div: nat) -> int {
    if reps.len() == 0 {
        0
    } else {
        let d = distances_to(reps, q);
        let k = first_min_index(d);
        if d[k] / 2 <= max_div {
            k
        } else {
            reps.len() as int
        }
    }
}

/// A sequence whose length differs from that of the first representative.
pub open spec fn length_mismatch(m: ClusterModel, s: Seq<u8>) -> bool {
    m.reps.len() > 0 && encode_seq(s).len() != m.reps[0].len()
}

/// Where a sequence goes: `None` for an already processed encoding, else the
/// index of its representative.
pub open spec fn placement(m: ClusterModel, s: Seq<u8>, max_div: nat) -> Option<int> {
    let q = encode_seq(s);
    if m.seen.contains(q) {
        None
    } else {
        Some(assignment(m.reps, q, max_div))
    }
}

/// The model after a sequence has been processed.
pub open spec fn advance(m: ClusterModel, s: Seq<u8>, max_div: nat) -> ClusterModel {
    let q = encode_seq(s);
    match placement(m, s, max_div) {
        None => m,
        Some(i) => ClusterModel {
            reps: if i == m.reps.len() { m.reps.push(q) } else { m.reps },
            seen: m.seen.insert(q),
        },
    }
}

/// The model after processing all of `seqs`, in order, from an empty one.
pub open spec fn run_model(seqs: Seq<Seq<u8>>, max_div: nat) -> ClusterModel
    decreases seqs.len(),
{
    if seqs.len() == 0 {
        empty_model()
    } else {
        advance(run_model(seqs.drop_last(), max_div), seqs.last(), max_div)
    }
}

/// One output line: the sequence, a tab, its representative, a line break.
pub open spec fn output_line(s: Seq<u8>, rep: Seq<u8>) -> Seq<u8> {
    s + seq![TAB] + rep + seq![NEWLINE]
}

/// The text a run writes: one line per sequence whose encoding was not seen
/// before, pairing it with the decoded representative it was assigned to.
pub open spec fn run_output(seqs: Seq<Seq<u8>>, max_div: nat) -> Seq<u8>
    decreases seqs.len(),
{
    if seqs.len() == 0 {
        seq![]
    } else {
        let prev = run_model(seqs.drop_last(), max_div);
        let next = advance(prev, seqs.last(), max_div);
        match placement(prev, seqs.last(), max_div) {
            None => run_output(seqs.drop_last(), max_div),
            Some(i) => run_output(seqs.drop_last(), max_div) + output_line(
                seqs.last(),
                decode_bits(next.reps[i]),
            ),
        }
    }
}

/// An optional index read as an integer.
pub open spec fn as_ints(p: Option<usize>) -> Option<int> {
    match p {
        Some(i) => Some(i as int),
        None => None,
    }
}

/// The symbols of each input sequence.
pub open spec fn seq_views(v: Seq<Vec<u8>>) -> Seq<Seq<u8>> {
    v.map_values(|x: Vec<u8>| x@)
}

/// The bits of each encoded vector.
pub open spec fn bit_views(v: Seq<Vec<bool>>) -> Seq<Seq<bool>> {
    v.map_values(|x: Vec<bool>| x@)
}

/// Why a run stops.
#[derive(Debug, PartialEq, Eq, Structural)]
pub enum ClusterError {
    /// Record `record` (counted from 0) has `found` symbols where the run's
    /// sequences have `expected`.
    LengthMismatch { record: usize, expected: usize, found: usize },
}

/// The state of one clustering run.
pub struct Clusterer {
    max_divergence: u32,
    processed: usize,
    representatives: Vec<Vec<bool>>,
    distances: Vec<usize>,
    seen: Vec<Vec<bool>>,
}

fn bits_equal(a: &Vec<bool>, b: &Vec<bool>) -> (r: bool)
    ensures
        r == (a@ == b@),
{
    if a.len() != b.len() {
        return false;
    }
    let n = a.len();
    let mut i: usize = 0;
    while i < n
        invariant
            n == a@.len(),
            n == b@.len(),
            i <= n,
            forall|j: int| 0 <= j < i ==> a@[j] == b@[j],
        decreases n - i,
    {
        if a[i] != b[i] {
            return false;
        }
        i = i + 1;
    }
    assert(a@ =~= b@);
    true
}

fn copy_bits(a: &Vec<bool>) -> (r: Vec<bool>)
    ensures
        r@ == a@,
{
    let mut out: Vec<bool> = Vec::new();
    let n = a.len();
    let mut i: usize = 0;
    while i < n
        invariant
            n == a@.len(),
            i <= n,
            out@ == a@.subrange(0, i as int),
        decreases n - i,
    {
        out.push(a[i]);
        assert(out@ =~= a@.subrange(0, i + 1));
        i = i + 1;
    }
    assert(a@.subrange(0, n as int) =~= a@);
    out
}

fn push_all(out: &mut Vec<u8>, src: &Vec<u8>)
    ensures
        final(out)@ == old(out)@ + src@,
{
    let n = src.len();
    let mut i: usize = 0;
    while i < n
        invariant
            n == src@.len(),
            i <= n,
            out@ == old(out)@ + src@.subrange(0, i as int),
        decreases n - i,
    {
        out.push(src[i]);
        assert(out@ =~= old(out)@ + src@.subrange(0, i + 1));
        i = i + 1;
    }
    assert(src@.subrange(0, n as int) =~= src@);
}

/// One output line: `seq`, a tab, `rep`, a line break.
pub fn format_line(seq: &Vec<u8>, rep: &Vec<u8>) -> (r: Vec<u8>)
    ensures
        r@ == output_line(seq@, rep@),
{
    let mut out: Vec<u8> = Vec::new();
    push_all(&mut out, seq);
    out.push(TAB);
    push_all(&mut out, rep);
    out.push(NEWLINE);
    assert(out@ =~= output_line(seq@, rep@));
    out
}

impl Clusterer {
    /// The representatives and processed encodings.
    pub closed spec fn model(&self) -> ClusterModel {
        ClusterModel {
            reps: bit_views(self.representatives@),
            seen: bit_views(self.seen@).to_set(),
        }
    }

    pub closed spec fn max_div(&self) -> nat {
        self.max_divergence as nat
    }

    /// Number of sequences handed to the run so far, duplicates included.
    pub closed spec fn processed_count(&self) -> nat {
        self.processed as nat
    }

    /// The distance buffer runs parallel to the representatives, and no
    /// encoding is recorded twice.
    pub closed spec fn wf(&self) -> bool {
        &&& self.distances@.len() == self.representatives@.len()
        &&& forall|i: int, j: int|
            0 <= i < j < self.seen@.len() ==> self.seen@[i]@ != self.seen@[j]@
    }

    /// An empty run that tolerates up to `max_divergence` mismatched symbols.
    pub fn new(max_divergence: u32) -> (r: Clusterer)
        ensures
            r.wf(),
            r.model() == empty_model(),
            r.max_div() == max_divergence as nat,
            r.processed_count() == 0,
    {
        let r = Clusterer {
            max_divergence,
            processed: 0,
            representatives: Vec::new(),
            distances: Vec::new(),
            seen: Vec::new(),
        };
        assert(r.model().reps =~= Seq::<Seq<bool>>::empty());
        assert(r.model().seen =~= Set::<Seq<bool>>::empty());
        r
    }

    fn seen_contains(&self, q: &Vec<bool>) -> (r: bool)
        ensures
            r == self.model().seen.contains(q@),
    {
        let n = self.seen.len();
        let mut i: usize = 0;
        while i < n
            invariant
                n == self.seen@.len(),
                i <= n,
                forall|j: int| 0 <= j < i ==> self.seen@[j]@ != q@,
            decreases n - i,
        {
            if bits_equal(&self.seen[i], q) {
                assert(bit_views(self.seen@)[i as int] == q@);
                return true;
            }
            i = i + 1;
        }
        assert(!bit_views(self.seen@).contains(q@));
        false
    }

    /// Processes one sequence. A sequence whose length differs from that of
    /// the first representative is refused and leaves the run unchanged. An
    /// encoding seen before gives `None`. Otherwise the result is the index of
    /// the representative the sequence joins, which is a new one at the end
    /// of the list when no representative is close enough.
    pub fn add(&mut self, seq: &Vec<u8>) -> (r: Result<Option<usize>, ClusterError>)
        requires
            old(self).wf(),
            old(self).processed_count() < usize::MAX,
        ensures
            final(self).wf(),
            final(self).max_div() == old(self).max_div(),
            length_mismatch(old(self).model(), seq@) ==> {
                &&& r == Err::<Option<usize>, ClusterError>(
                    ClusterError::LengthMismatch {
                        record: old(self).processed_count() as usize,
                        expected: (old(self).model().reps[0].len() / 5) as usize,
                        found: seq@.len() as usize,
                    },
                )
                &&& final(self).model() == old(self).model()
                &&& final(self).processed_count() == old(self).processed_count()
            },
            !length_mismatch(old(self).model(), seq@) ==> {
                &&& r matches Ok(p) && as_ints(p) == placement(
                    old(self).model(),
                    seq@,
                    old(self).max_div(),
                )
                &&& final(self).model() == advance(old(self).model(), seq@, old(self).max_div())
                &&& final(self).processed_count() == old(self).processed_count() + 1
            },
    {
        let q = encode(seq);
        if self.representatives.len() > 0 && q.len() != self.representatives[0].len() {
            return Err(
                ClusterError::LengthMismatch {
                    record: self.processed,
                    expected: self.representatives[0].len() / 5,
                    found: seq.len(),
                },
            );
        }
        self.processed = self.processed + 1;
        if self.seen_contains(&q) {
            return Ok(None);
        }
        let ghost m = self.model();
        let ghost md = self.max_div();
        let ghost seen_before = self.seen@;
        let seen_copy = copy_bits(&q);
        self.seen.push(seen_copy);
        get_distances(&self.representatives, &q, &mut self.distances);
        let ghost d = distances_to(m.reps, q@);
        assert(as_nats(self.distances@) =~= d);
        let mut assigned: usize = self.representatives.len();
        if self.distances.len() > 0 {
            let k = nearest(&self.distances);
            proof {
                crate::distance::lemma_first_min(as_nats(self.distances@));
            }
            if (self.distances[k] / 2) as u64 <= self.max_divergence as u64 {
                assigned = k;
            }
        }
        if assigned == self.representatives.len() {
            self.representatives.push(q);
            self.distances.push(0);
        }
        proof {
            assert(assignment(m.reps, q@, md) == assigned as int);
            let sv = bit_views(self.seen@);
            let ov = bit_views(seen_before);
            assert(sv =~= ov.push(q@));
            assert forall|x: Seq<bool>| sv.contains(x) <==> (ov.contains(x) || x == q@) by {
                if sv.contains(x) {
                    let i = choose|i: int| 0 <= i < sv.len() && sv[i] == x;
                    if i < ov.len() {
                        assert(ov[i] == x);
                    }
                }
                if ov.contains(x) {
                    let i = choose|i: int| 0 <= i < ov.len() && ov[i] == x;
                    assert(sv[i] == x);
                }
                if x == q@ {
                    assert(sv[sv.len() - 1] == x);
                }
            }
            assert(sv.to_set() =~= m.seen.insert(q@));
            assert(self.model().reps =~= advance(m, seq@, md).reps);
            assert forall|i: int, j: int|
                0 <= i < j < self.seen@.len() implies self.seen@[i]@ != self.seen@[j]@ by {
                if j == self.seen@.len() - 1 {
                    assert(bit_views(old(self).seen@)[i] == self.seen@[i]@);
                }
            }
        }
        Ok(Some(assigned))
    }

    /// Number of representatives created so far.
    pub fn representative_count(&self) -> (r: usize)
        ensures
            r == self.model().reps.len(),
    {
        self.representatives.len()
    }

    /// Number of sequences handed to the run so far, duplicates included.
    pub fn processed(&self) -> (r: usize)
        ensures
            r == self.processed_count(),
    {
        self.processed
    }

    /// The symbols of representative `i`.
    pub fn representative_text(&self, i: usize) -> (r: Vec<u8>)
        requires
            i < self.model().reps.len(),
        ensures
            r@ == decode_bits(self.model().reps[i as int]),
    {
        decode(&self.representatives[i])
    }
}

/// The assigned index is an existing representative or the next new one.
pub proof fn lemma_assignment_bounds(reps: Seq<Seq<bool>>, q: Seq<bool>, max_div: nat)
    ensures
        0 <= assignment(reps, q, max_div) <= reps.len(),
{
    if reps.len() > 0 {
        crate::distance::lemma_first_min(distances_to(reps, q));
    }
}

/// Processing a sequence keeps every existing representative in place and adds
/// at most one at the end.
pub proof fn lemma_advance_extends(m: ClusterModel, s: Seq<u8>, max_div: nat)
    ensures
        advance(m, s, max_div).reps.len() <= m.reps.len() + 1,
        m.reps.len() <= advance(m, s, max_div).reps.len(),
        advance(m, s, max_div).reps.subrange(0, m.reps.len() as int) == m.reps,
        placement(m, s, max_div) matches Some(i) ==> 0 <= i < advance(m, s, max_div).reps.len(),
{
    lemma_assignment_bounds(m.reps, encode_seq(s), max_div);
    assert(advance(m, s, max_div).reps.subrange(0, m.reps.len() as int) =~= m.reps);
}

/// The first sequence of a run always becomes representative 0.
pub proof fn lemma_first_representative(seqs: Seq<Seq<u8>>, max_div: nat)
    requires
        seqs.len() > 0,
    ensures
        run_model(seqs, max_div).reps.len() > 0,
        run_model(seqs, max_div).reps[0] == encode_seq(seqs[0]),
    decreases seqs.len(),
{
    let p = seqs.drop_last();
    if seqs.len() == 1 {
        assert(p =~= Seq::<Seq<u8>>::empty());
        assert(seqs.last() == seqs[0]);
        let m = run_model(p, max_div);
        assert(m == empty_model());
        assert(!m.seen.contains(encode_seq(seqs[0])));
        assert(placement(m, seqs[0], max_div) == Some(0int));
        assert(run_model(seqs, max_div).reps =~= seq![encode_seq(seqs[0])]);
    } else {
        lemma_first_representative(p, max_div);
        let m = run_model(p, max_div);
        lemma_advance_extends(m, seqs.last(), max_div);
        assert(p[0] == seqs[0]);
        let r = run_model(seqs, max_div).reps;
        let l = m.reps.len() as int;
        assert(r.subrange(0, l) == m.reps);
        assert(r.subrange(0, l)[0] == r[0]);
    }
}

/// Encodings of all the sequences of a run.
pub open spec fn encodings(seqs: Seq<Seq<u8>>) -> Set<Seq<bool>> {
    seqs.map_values(|s: Seq<u8>| encode_seq(s)).to_set()
}

/// The processed set of a run is exactly the set of encodings of its input,
/// and it is finite.
pub proof fn lemma_seen_is_inputs(seqs: Seq<Seq<u8>>, max_div: nat)
    ensures
        run_model(seqs, max_div).seen == encodings(seqs),
        run_model(seqs, max_div).seen.finite(),
    decreases seqs.len(),
{
    if seqs.len() == 0 {
        assert(encodings(seqs) =~= Set::<Seq<bool>>::empty());
    } else {
        let p = seqs.drop_last();
        lemma_seen_is_inputs(p, max_div);
        let e = seqs.map_values(|s: Seq<u8>| encode_seq(s));
        let ep = p.map_values(|s: Seq<u8>| encode_seq(s));
        assert(e =~= ep.push(encode_seq(seqs.last())));
        assert forall|x: Seq<bool>| e.contains(x) <==> (ep.contains(x) || x == encode_seq(seqs.last())) by {
            if e.contains(x) {
                let k = choose|k: int| 0 <= k < e.len() && e[k] == x;
                if k < ep.len() {
                    assert(ep[k] == x);
                }
            }
            if ep.contains(x) {
                let k = choose|k: int| 0 <= k < ep.len() && ep[k] == x;
                assert(e[k] == x);
            }
            if x == encode_seq(seqs.last()) {
                assert(e[e.len() - 1] == x);
            }
        }
        assert(encodings(seqs) =~= encodings(p).insert(encode_seq(seqs.last())));
    }
}

/// Feeding a sequence that the run has already seen changes neither the
/// representatives nor the output: it yields no second output line.
pub proof fn lemma_duplicate_suppressed(seqs: Seq<Seq<u8>>, s: Seq<u8>, max_div: nat)
    requires
        seqs.contains(s),
    ensures
        run_model(seqs.push(s), max_div) == run_model(seqs, max_div),
        run_output(seqs.push(s), max_div) == run_output(seqs, max_div),
{
    lemma_seen_is_inputs(seqs, max_div);
    let k = choose|k: int| 0 <= k < seqs.len() && seqs[k] == s;
    let e = seqs.map_values(|t: Seq<u8>| encode_seq(t));
    assert(e[k] == encode_seq(s));
    assert(seqs.push(s).drop_last() =~= seqs);
}

/// The representative count never decreases, existing representatives keep
/// their positions, and the count never exceeds the number of distinct
/// encodings among the inputs.
pub proof fn lemma_representatives_grow(seqs: Seq<Seq<u8>>, s: Seq<u8>, max_div: nat)
    ensures
        run_model(seqs, max_div).reps.len() <= run_model(seqs.push(s), max_div).reps.len(),
        run_model(seqs.push(s), max_div).reps.subrange(0, run_model(seqs, max_div).reps.len() as int)
            == run_model(seqs, max_div).reps,
        run_model(seqs, max_div).reps.len() <= encodings(seqs).len(),
{
    assert(seqs.push(s).drop_last() =~= seqs);
    lemma_advance_extends(run_model(seqs, max_div), s, max_div);
    lemma_reps_within_seen(seqs, max_div);
    lemma_seen_is_inputs(seqs, max_div);
}

proof fn lemma_reps_within_seen(seqs: Seq<Seq<u8>>, max_div: nat)
    ensures
        run_model(seqs, max_div).reps.len() <= run_model(seqs, max_div).seen.len(),
    decreases seqs.len(),
{
    lemma_seen_is_inputs(seqs, max_div);
    if seqs.len() > 0 {
        let p = seqs.drop_last();
        lemma_reps_within_seen(p, max_div);
        lemma_seen_is_inputs(p, max_div);
        lemma_advance_extends(run_model(p, max_div), seqs.last(), max_div);
    }
}

/// Among representatives that are equally near to the query and nearest of
/// all, a later one is never chosen over an earlier one; when the query is
/// close enough it joins one no later than the earliest of them.
pub proof fn lemma_tie_break(reps: Seq<Seq<bool>>, q: Seq<bool>, max_div: nat, i: int, j: int)
    requires
        0 <= i < j < reps.len(),
        mismatch_count(reps[i], q) == mismatch_count(reps[j], q),
        forall|k: int| 0 <= k < reps.len() ==> mismatch_count(reps[i], q) <= mismatch_count(#[trigger] reps[k], q),
    ensures
        assignment(reps, q, max_div) != j,
        mismatch_count(reps[i], q) / 2 <= max_div ==> assignment(reps, q, max_div) <= i,
{
    let d = distances_to(reps, q);
    crate::distance::lemma_first_min(d);
    let k = first_min_index(d);
    assert(d[k] <= d[i]);
    assert(d[i] <= d[k]);
    assert(d[j] == d[i]);
}

/// Two runs over the same input with the same threshold write the same text
/// and build the same representatives.
pub proof fn lemma_deterministic(a: Seq<Seq<u8>>, b: Seq<Seq<u8>>, max_div: nat)
    requires
        a == b,
    ensures
        run_output(a, max_div) == run_output(b, max_div),
        run_model(a, max_div) == run_model(b, max_div),
{
}

/// Clusters `seqs` in order, tolerating up to `max_divergence` mismatched
/// symbols between a sequence and its representative. The result is the text
/// of the run: for each sequence whose encoding was not seen before, the
/// sequence, a tab, its representative and a line break. All sequences must
/// have the length of the first; the first one that does not stops the run.
pub fn cluster(seqs: &Vec<Vec<u8>>, max_divergence: u32) -> (r: Result<Vec<u8>, ClusterError>)
    ensures
        r is Ok <==> forall|i: int|
            0 <= i < seqs@.len() ==> (#[trigger] seqs@[i])@.len() == seqs@[0]@.len(),
        r matches Ok(out) ==> out@ == run_output(seq_views(seqs@), max_divergence as nat),
        r matches Err(ClusterError::LengthMismatch { record, expected, found }) ==> {
            &&& record < seqs@.len()
            &&& seqs@[record as int]@.len() != seqs@[0]@.len()
            &&& forall|j: int| 0 <= j < record ==> (#[trigger] seqs@[j])@.len() == seqs@[0]@.len()
            &&& expected == seqs@[0]@.len()
            &&& found == seqs@[record as int]@.len()
        },
{
    let ghost md = max_divergence as nat;
    let ghost views = seq_views(seqs@);
    let mut c = Clusterer::new(max_divergence);
    let mut out: Vec<u8> = Vec::new();
    let n = seqs.len();
    let mut i: usize = 0;
    assert(views.subrange(0, 0) =~= Seq::<Seq<u8>>::empty());
    while i < n
        invariant
            n == seqs@.len(),
            views == seq_views(seqs@),
            md == max_divergence as nat,
            i <= n,
            c.wf(),
            c.max_div() == md,
            c.processed_count() == i,
            c.model() == run_model(views.subrange(0, i as int), md),
            out@ == run_output(views.subrange(0, i as int), md),
            forall|j: int| 0 <= j < i ==> (#[trigger] seqs@[j])@.len() == seqs@[0]@.len(),
            i > 0 ==> c.model().reps.len() > 0 && c.model().reps[0] == encode_seq(seqs@[0]@),
        decreases n - i,
    {
        let ghost prefix = views.subrange(0, i as int);
        let ghost next = views.subrange(0, i + 1);
        assert(next.drop_last() =~= prefix);
        assert(next.last() == seqs@[i as int]@);
        proof {
            lemma_encode_len(seqs@[i as int]@);
            lemma_encode_len(seqs@[0]@);
            lemma_advance_extends(c.model(), seqs@[i as int]@, md);
            if i > 0 {
                assert(prefix[0] == seqs@[0]@);
            }
        }
        let ghost before = c.model();
        match c.add(&seqs[i]) {
            Err(e) => {
                let first_len = seqs[0].len();
                let this_len = seqs[i].len();
                proof {
                    assert(first_len == seqs@[0]@.len() && this_len == seqs@[i as int]@.len());
                    let x = seqs@[0]@.len() as int;
                    assert(before.reps[0].len() == 5 * x);
                    assert((5 * x) / 5 == x) by (nonlinear_arith);
                    assert(seqs@[i as int]@.len() != seqs@[0]@.len());
                    assert(length_mismatch(before, seqs@[i as int]@));
                }
                return Err(e);
            },
            Ok(None) => {},
            Ok(Some(k)) => {
                let rep = c.representative_text(k);
                let line = format_line(&seqs[i], &rep);
                push_all(&mut out, &line);
            },
        }
        proof {
            if i == 0 {
                lemma_first_representative(next, md);
                assert(next[0] == seqs@[0]@);
            } else {
                assert(c.model().reps.subrange(0, before.reps.len() as int)[0] == c.model().reps[0]);
            }
        }
        i = i + 1;
    }
    assert(views.subrange(0, n as int) =~= views);
    Ok(out)
}

} // verus!
