//! The split encoder: a write sink that partitions one input byte stream
//! into segments whose sizes are drawn pseudo-randomly from a configured
//! half-open byte range, each segment named by the destination prefix
//! followed by an incrementing alphabetic label.
//!
//! The encoder decides; the caller performs the I/O. Every call of
//! [`FileSplitEncoder::write`] returns a [`WriteEffect`] telling the caller
//! what to do, in order: create the destination directory (first call
//! only), open a new output resource under the given name, append the
//! accepted front of the buffer to the active resource, and close the
//! resource once the segment has reached its drawn capacity. A write
//! accepts at most the remaining capacity of the active segment, so a
//! caller crosses segment boundaries by resubmitting the unwritten
//! remainder, one call at a time.

use vstd::prelude::*;
use rand::Rng;
use rand::SeedableRng;
use crate::alpha_path::{
    AlphaPathSegment, label_wf, label_succ, label_succ_iter, min_label,
    lemma_label_sequence_distinct,
};

verus! {

#[verifier::external_type_specification]
#[verifier::external_body]
pub struct ExSmallRng(rand::rngs::SmallRng);

/// Relies on rand's `SmallRng::seed_from_u64`: builds a small, fast PRNG
/// from the given seed. Nothing is assumed of the values it will yield.
#[verifier::external_body]
fn rng_from_seed(seed: u64) -> rand::rngs::SmallRng {
    rand::rngs::SmallRng::seed_from_u64(seed)
}

/// Relies on rand's `Rng::gen_range` over `lo..hi`: the draw is uniform in
/// the half-open range and panics only when the range is empty, which the
/// precondition rules out.
#[verifier::external_body]
fn rng_gen_range(rng: &mut rand::rngs::SmallRng, lo: u64, hi: u64) -> (r: u64)
    requires
        lo < hi,
    ensures
        lo <= r < hi,
{
    rng.gen_range(lo..hi)
}

/// The concatenation of a sequence of byte runs, in order.
pub open spec fn concat_all(segs: Seq<Seq<u8>>) -> Seq<u8>
    decreases segs.len(),
{
    if segs.len() == 0 {
        Seq::empty()
    } else {
        concat_all(segs.drop_last()) + segs.last()
    }
}

proof fn lemma_concat_push(segs: Seq<Seq<u8>>, x: Seq<u8>)
    ensures
        concat_all(segs.push(x)) == concat_all(segs) + x,
{
    assert(segs.push(x).drop_last() =~= segs);
    assert(segs.push(x).last() == x);
}

/// What the caller must do after one write call, in order: create the
/// destination directory, open a new output resource, append the accepted
/// bytes to the active resource, close it.
pub struct WriteEffect {
    /// This was the encoder's very first write: create the destination
    /// directory, ancestors included, before anything else.
    pub first_call: bool,
    /// No resource was active: open a new one under this name before
    /// appending.
    pub opened: Option<Vec<u8>>,
    /// How many bytes from the front of the buffer the encoder accepted;
    /// append exactly those to the active resource.
    pub accepted: usize,
    /// The segment reached its drawn capacity: close the active resource
    /// after appending.
    pub closed: bool,
}

/// A file split encoder that transforms one input stream into a series of
/// output segments.
pub struct FileSplitEncoder {
    /// Half-open range of segment sizes: the PRNG only outputs within it.
    pub lo: u64,
    pub hi: u64,
    /// The path prefixed to the start of every segment name.
    pub prefix: Vec<u8>,
    /// The label of the segment currently (or next) written to; advanced
    /// once a segment has been filled.
    pub suffix: AlphaPathSegment,
    /// The PRNG deciding how big each segment is. Created on the first
    /// write, seeded from the first byte of that write's buffer, and kept
    /// for the encoder's whole lifetime.
    pub rng: Option<rand::rngs::SmallRng>,
    /// Bytes that the active segment still takes before it is at capacity.
    /// Present exactly while a segment is open.
    pub remaining: Option<u64>,
    /// The label the encoder was created with.
    pub init_label: Ghost<Seq<u8>>,
    /// The bytes of every closed segment, in label order.
    pub seg_data: Ghost<Seq<Seq<u8>>>,
    /// The capacity drawn for each closed segment.
    pub seg_caps: Ghost<Seq<u64>>,
    /// The bytes of the open segment so far.
    pub cur_data: Ghost<Seq<u8>>,
    /// The capacity drawn for the open segment.
    pub cur_cap: Ghost<u64>,
}

impl FileSplitEncoder {
    /// The PRNG exists: some write call has been received.
    pub open spec fn started(&self) -> bool {
        self.rng is Some
    }

    /// An output resource is active and capacity remains recorded for it.
    pub open spec fn segment_open(&self) -> bool {
        self.remaining is Some
    }

    /// The label of the `i`-th segment, counted from the initial label.
    pub open spec fn segment_label(&self, i: nat) -> Seq<u8> {
        label_succ_iter(self.init_label@, i)
    }

    /// Every byte the encoder has accepted so far, in order.
    pub open spec fn accepted_bytes(&self) -> Seq<u8> {
        concat_all(self.seg_data@) + self.cur_data@
    }

    /// The encoder's invariant: the size range is non-empty; the current
    /// label is the initial label incremented once per closed segment;
    /// every closed segment was filled exactly to its drawn capacity,
    /// which lies in the configured range; an open segment's recorded
    /// remaining capacity complements the bytes it already holds; nothing
    /// has been produced before the first write creates the PRNG.
    pub open spec fn wf(&self) -> bool {
        &&& self.lo < self.hi
        &&& label_wf(self.init_label@)
        &&& self.suffix@ == self.segment_label(self.seg_data@.len())
        &&& self.suffix.wf()
        &&& self.seg_caps@.len() == self.seg_data@.len()
        &&& forall|i: int|
            0 <= i < self.seg_data@.len() ==> self.lo <= #[trigger] self.seg_caps@[i] < self.hi
                && self.seg_data@[i].len() == self.seg_caps@[i]
        &&& match self.remaining {
            Some(r) => self.rng is Some && self.lo <= self.cur_cap@ < self.hi
                && self.cur_data@.len() + r == self.cur_cap@ && r >= 1,
            None => self.cur_data@.len() == 0,
        }
        &&& (self.rng is None ==> self.seg_data@.len() == 0 && self.remaining is None)
    }

    /// Creates a new encoder writing segments of sizes drawn from the
    /// half-open `range`, named `prefix` plus a label starting at the
    /// minimum symbol repeated `factor` times.
    pub fn new(prefix: Vec<u8>, range: (u64, u64), factor: usize) -> (r: Self)
        requires
            range.0 < range.1,
            factor >= 1,
        ensures
            r.wf(),
            r.lo == range.0,
            r.hi == range.1,
            r.prefix@ == prefix@,
            r.init_label@ == min_label(factor as nat),
            r.suffix@ == min_label(factor as nat),
            !r.started(),
            !r.segment_open(),
            r.seg_data@.len() == 0,
            r.accepted_bytes() == Seq::<u8>::empty(),
    {
        let suffix = AlphaPathSegment::from_factor(factor);
        proof {
            assert(suffix@ =~= min_label(factor as nat));
        }
        let r = FileSplitEncoder {
            lo: range.0,
            hi: range.1,
            prefix,
            suffix,
            rng: None,
            remaining: None,
            init_label: Ghost(suffix@),
            seg_data: Ghost(Seq::empty()),
            seg_caps: Ghost(Seq::empty()),
            cur_data: Ghost(Seq::empty()),
            cur_cap: Ghost(0),
        };
        proof {
            assert(r.accepted_bytes() =~= Seq::<u8>::empty());
        }
        r
    }

    /// The name of the segment the encoder writes to next: the destination
    /// prefix followed by the current label.
    fn path(&self) -> (r: Vec<u8>)
        ensures
            r@ == self.prefix@ + self.suffix@,
    {
        let mut path = self.prefix.clone();
        let mut j: usize = 0;
        while j < self.suffix.0.len()
            invariant
                j <= self.suffix.0.len(),
                path@ =~= self.prefix@ + self.suffix@.take(j as int),
            decreases self.suffix.0.len() - j,
        {
            path.push(self.suffix.0[j]);
            j = j + 1;
        }
        proof {
            assert(path@ =~= self.prefix@ + self.suffix@);
        }
        path
    }

    /// Advances the label to the next segment name.
    fn increment(&mut self)
        requires
            old(self).suffix.wf(),
        ensures
            final(self).suffix@ == label_succ(old(self).suffix@),
            final(self).suffix.wf(),
            final(self).lo == old(self).lo,
            final(self).hi == old(self).hi,
            final(self).prefix == old(self).prefix,
            final(self).rng == old(self).rng,
            final(self).remaining == old(self).remaining,
            final(self).init_label == old(self).init_label,
            final(self).seg_data == old(self).seg_data,
            final(self).seg_caps == old(self).seg_caps,
            final(self).cur_data == old(self).cur_data,
            final(self).cur_cap == old(self).cur_cap,
    {
        self.suffix.increment_mut();
    }

    /// One step of the partial-write protocol. Accepts at most
    /// `min(buf.len(), remaining capacity)` bytes from the front of `buf`,
    /// and tells the caller how to mirror the step onto the outside world.
    ///
    /// On the encoder's very first call the PRNG is created, seeded from
    /// the first byte of this call's buffer, and never reseeded: the whole
    /// sequence of segment capacities depends only on that byte and the
    /// configured range. When no segment is open, one is opened under the
    /// current name and its capacity drawn. When the accepted bytes fill
    /// the segment exactly — the only reachable way to reach capacity —
    /// the segment closes and the label advances; otherwise the segment
    /// stays open and the remainder shrinks by the accepted count.
    pub fn write(&mut self, buf: &[u8]) -> (eff: WriteEffect)
        requires
            old(self).wf(),
            buf@.len() >= 1,
        ensures
            final(self).wf(),
            final(self).lo == old(self).lo,
            final(self).hi == old(self).hi,
            final(self).prefix@ == old(self).prefix@,
            final(self).init_label@ == old(self).init_label@,
            final(self).started(),
            eff.first_call == !old(self).started(),
            (eff.opened is Some <==> !old(self).segment_open()),
            eff.opened is Some ==> eff.opened->0@ == old(self).prefix@ + old(self).suffix@,
            eff.accepted <= buf@.len(),
            final(self).accepted_bytes() == old(self).accepted_bytes() + buf@.subrange(
                0,
                eff.accepted as int,
            ),
            old(self).segment_open() ==> eff.accepted == vstd::math::min(
                buf@.len() as int,
                old(self).remaining->0 as int,
            ) && (eff.closed <==> buf@.len() >= old(self).remaining->0),
            !old(self).segment_open() ==> (exists|c: u64|
                #![auto]
                old(self).lo <= c < old(self).hi && eff.accepted == vstd::math::min(
                    buf@.len() as int,
                    c as int,
                ) && (eff.closed <==> buf@.len() >= c)),
            eff.closed ==> final(self).seg_data@ == old(self).seg_data@.push(
                old(self).cur_data@ + buf@.subrange(0, eff.accepted as int),
            ) && !final(self).segment_open() && final(self).suffix@ == label_succ(
                old(self).suffix@,
            ),
            !eff.closed ==> final(self).seg_data@ == old(self).seg_data@
                && final(self).segment_open()
                && final(self).cur_data@ == old(self).cur_data@ + buf@.subrange(
                0,
                eff.accepted as int,
            ) && final(self).suffix@ == old(self).suffix@,
    {
        let mut first_call = false;
        if self.rng.is_none() {
            self.rng = Some(rng_from_seed(buf[0] as u64));
            first_call = true;
        }
        let mut opened: Option<Vec<u8>> = None;
        let r_entry: u64;
        match self.remaining {
            Some(r) => {
                r_entry = r;
            },
            None => {
                opened = Some(self.path());
                let c = match &mut self.rng {
                    Some(rng) => rng_gen_range(rng, self.lo, self.hi),
                    None => unreached(),
                };
                r_entry = c;
                self.remaining = Some(c);
                self.cur_cap = Ghost(c);
            },
        }
        let ghost cap_total: u64 = self.cur_cap@;
        let max: usize;
        if (buf.len() as u64) <= r_entry {
            max = buf.len();
        } else {
            max = r_entry as usize;
        }
        let written = max;
        let ghost chunk = buf@.subrange(0, written as int);
        self.cur_data = Ghost(self.cur_data@ + chunk);
        let closed: bool;
        if (written as u64) < r_entry {
            self.remaining = Some(r_entry - written as u64);
            closed = false;
        } else {
            self.remaining = None;
            proof {
                lemma_concat_push(self.seg_data@, self.cur_data@);
            }
            self.seg_data = Ghost(self.seg_data@.push(self.cur_data@));
            self.seg_caps = Ghost(self.seg_caps@.push(cap_total));
            self.cur_data = Ghost(Seq::empty());
            self.increment();
            closed = true;
        }
        proof {
            if !old(self).segment_open() {
                assert(old(self).lo <= r_entry < old(self).hi && written == vstd::math::min(
                    buf@.len() as int,
                    r_entry as int,
                ) && (closed <==> buf@.len() >= r_entry));
            }
            assert(final(self).accepted_bytes() =~= old(self).accepted_bytes() + chunk);
            if closed {
                assert(final(self).suffix@ == label_succ_iter(
                    old(self).init_label@,
                    old(self).seg_data@.len() + 1,
                ));
            }
        }
        WriteEffect { first_call, opened, accepted: written, closed }
    }

    /// Drives one whole buffer through repeated partial writes until every
    /// byte is accepted, crossing as many segment boundaries as needed.
    /// The returned effects, applied in order — each consuming its
    /// `accepted` count from the front of what is left of `buf` — mirror
    /// the step onto the outside world. Needs a positive lower size bound:
    /// every call then accepts at least one byte, so the loop finishes.
    pub fn write_all(&mut self, buf: &[u8]) -> (effs: Vec<WriteEffect>)
        requires
            old(self).wf(),
            old(self).lo >= 1,
            buf@.len() >= 1,
        ensures
            final(self).wf(),
            final(self).lo == old(self).lo,
            final(self).hi == old(self).hi,
            final(self).prefix@ == old(self).prefix@,
            final(self).init_label@ == old(self).init_label@,
            final(self).started(),
            final(self).accepted_bytes() == old(self).accepted_bytes() + buf@,
            total_accepted(effs@) == buf@.len(),
    {
        let mut offset: usize = 0;
        let mut effs: Vec<WriteEffect> = Vec::new();
        while offset < buf.len()
            invariant
                self.wf(),
                self.lo >= 1,
                offset <= buf.len(),
                self.lo == old(self).lo,
                self.hi == old(self).hi,
                self.prefix@ == old(self).prefix@,
                self.init_label@ == old(self).init_label@,
                offset > 0 ==> self.started(),
                self.accepted_bytes() == old(self).accepted_bytes() + buf@.subrange(
                    0,
                    offset as int,
                ),
                total_accepted(effs@) == offset,
            decreases buf.len() - offset,
        {
            let rest = vstd::slice::slice_subrange(buf, offset, buf.len());
            let ghost pre = *self;
            let eff = self.write(rest);
            proof {
                if pre.segment_open() {
                    assert(eff.accepted >= 1);
                } else {
                    let c = choose|c: u64|
                        #![auto]
                        pre.lo <= c < pre.hi && eff.accepted == vstd::math::min(
                            rest@.len() as int,
                            c as int,
                        ) && (eff.closed <==> rest@.len() >= c);
                    assert(eff.accepted >= 1);
                }
                assert(buf@.subrange(0, offset as int) + rest@.subrange(
                    0,
                    eff.accepted as int,
                ) =~= buf@.subrange(0, offset + eff.accepted));
                assert(effs@.push(eff).drop_last() =~= effs@);
            }
            offset = offset + eff.accepted;
            effs.push(eff);
        }
        proof {
            assert(buf@.subrange(0, buf@.len() as int) =~= buf@);
        }
        effs
    }
}

/// The total byte count a run of write effects accepted.
pub open spec fn total_accepted(effs: Seq<WriteEffect>) -> int
    decreases effs.len(),
{
    if effs.len() == 0 {
        0
    } else {
        total_accepted(effs.drop_last()) + effs.last().accepted
    }
}

/// LAW. Stream fidelity. In every reachable encoder state, the bytes
/// accepted so far are exactly the closed segments' contents in label
/// order followed by the open segment's bytes; every closed segment's
/// size lies in the configured range `[lo, hi)`; and the open segment —
/// the one that ends whenever the input does — holds at most its drawn
/// capacity, with no lower bound enforced on it.
pub proof fn lemma_encoder_fidelity(enc: &FileSplitEncoder)
    requires
        enc.wf(),
    ensures
        concat_all(enc.seg_data@) + enc.cur_data@ == enc.accepted_bytes(),
        forall|i: int|
            0 <= i < enc.seg_data@.len() ==> enc.lo <= #[trigger] enc.seg_data@[i].len() < enc.hi,
        enc.segment_open() ==> enc.cur_data@.len() <= enc.cur_cap@ && enc.lo <= enc.cur_cap@
            < enc.hi,
        !enc.segment_open() ==> enc.cur_data@.len() == 0,
{
    assert forall|i: int|
        0 <= i < enc.seg_data@.len() implies enc.lo <= #[trigger] enc.seg_data@[i].len()
        < enc.hi by {
        assert(enc.seg_data@[i].len() == enc.seg_caps@[i]);
    }
}

proof fn lemma_append_keeps_distinct(p: Seq<u8>, a: Seq<u8>, b: Seq<u8>)
    requires
        a != b,
    ensures
        p + a != p + b,
{
    if p + a == p + b {
        assert(a =~= (p + a).subrange(p.len() as int, (p + a).len() as int));
        assert(b =~= (p + b).subrange(p.len() as int, (p + b).len() as int));
    }
}

/// LAW. Segment names have no gaps or repeats: counting from the initial
/// label the encoder was created with, two different segment indices
/// always carry different labels, and so different full names under the
/// shared destination prefix.
pub proof fn lemma_segment_names_distinct(enc: &FileSplitEncoder, i: nat, j: nat)
    requires
        enc.wf(),
        i != j,
    ensures
        enc.segment_label(i) != enc.segment_label(j),
        enc.prefix@ + enc.segment_label(i) != enc.prefix@ + enc.segment_label(j),
{
    lemma_label_sequence_distinct(enc.init_label@, i, j);
    lemma_append_keeps_distinct(enc.prefix@, enc.segment_label(i), enc.segment_label(j));
}

} // verus!
