//! Reliable-stream reassembly: pure, deterministic logic with no I/O.

use std::collections::BTreeMap;

use bytes::Bytes;
use vstd::prelude::*;

use crate::payload;

verus! {

/// What a reassembler knows: the next sequence number it needs, and the segments that came early.
pub struct Reassembly {
    /// Every segment below this one has been delivered.
    pub next: nat,
    /// The segments that are waiting for a gap to fill.
    pub buffered: Map<u32, Seq<u8>>,
}

/// The first sequence number at or after `from` that no segment in `segments` has.
pub open spec fn gap(segments: Map<u32, Seq<u8>>, from: nat) -> nat
    decreases u32::MAX + 1 - from,
{
    if from <= u32::MAX && segments.contains_key(from as u32) {
        gap(segments, from + 1)
    } else {
        from
    }
}

/// The segments `from..to`, one after the other.
pub open spec fn joined(segments: Map<u32, Seq<u8>>, from: nat, to: nat) -> Seq<u8>
    decreases to,
{
    if to <= from {
        Seq::empty()
    } else {
        joined(segments, from, (to - 1) as nat) + segments[(to - 1) as u32]
    }
}

/// The chunks of a stream, one after the other.
pub open spec fn flat(chunks: Seq<Seq<u8>>) -> Seq<u8>
    decreases chunks.len(),
{
    if chunks.len() == 0 {
        Seq::empty()
    } else {
        flat(chunks.drop_last()) + chunks.last()
    }
}

impl Reassembly {
    /// A reassembler that has seen nothing.
    pub open spec fn fresh() -> Self {
        Reassembly { next: 0, buffered: Map::empty() }
    }

    /// Nothing that was delivered is still buffered, and nothing deliverable is held back.
    pub open spec fn wf(self) -> bool {
        forall|seq: u32| #[trigger] self.buffered.contains_key(seq) ==> self.next < seq
    }

    /// Whether segment `seq` has been received, delivered or not.
    pub open spec fn holds(self, seq: u32) -> bool {
        seq < self.next || self.buffered.contains_key(seq)
    }

    /// Whether what was received belongs to the stream of `chunks`.
    pub open spec fn agrees(self, chunks: Seq<Seq<u8>>) -> bool {
        &&& self.wf()
        &&& self.next <= chunks.len()
        &&& forall|seq: u32| #[trigger]
            self.buffered.contains_key(seq) ==> seq < chunks.len() && self.buffered[seq]
                == chunks[seq as int]
    }

    /// The segments on hand once segment `seq` has arrived: the first copy of a segment wins.
    pub open spec fn on_hand(self, seq: u32, bytes: Seq<u8>) -> Map<u32, Seq<u8>> {
        if self.buffered.contains_key(seq) {
            self.buffered
        } else {
            self.buffered.insert(seq, bytes)
        }
    }

    /// What is known once segment `seq` has arrived. A segment that was delivered before changes
    /// nothing; any other closes what gap it can.
    pub open spec fn accepted(self, seq: u32, bytes: Seq<u8>) -> Self {
        if seq < self.next {
            self
        } else {
            let segments = self.on_hand(seq, bytes);
            let next = gap(segments, self.next);
            Reassembly {
                next,
                buffered: segments.restrict(Set::new(|other: u32| next <= other)),
            }
        }
    }

    /// The bytes that segment `seq` makes deliverable: every segment from the one that was needed next
    /// up to the first gap.
    pub open spec fn delivered(self, seq: u32, bytes: Seq<u8>) -> Seq<u8> {
        if seq < self.next {
            Seq::empty()
        } else {
            let segments = self.on_hand(seq, bytes);
            joined(segments, self.next, gap(segments, self.next))
        }
    }
}

/// `gap` is the first missing sequence number: everything before it is there, and it is not.
pub proof fn lemma_gap(segments: Map<u32, Seq<u8>>, from: nat)
    requires
        from <= u32::MAX + 1,
    ensures
        from <= gap(segments, from) <= u32::MAX + 1,
        forall|seq: u32|
            from <= seq < gap(segments, from) ==> #[trigger] segments.contains_key(seq),
        gap(segments, from) <= u32::MAX ==> !segments.contains_key(gap(segments, from) as u32),
    decreases u32::MAX + 1 - from,
{
    if from <= u32::MAX && segments.contains_key(from as u32) {
        lemma_gap(segments, from + 1);
        assert forall|seq: u32| from <= seq < gap(segments, from) implies
            #[trigger] segments.contains_key(seq) by {
            if seq != from {
                assert(from + 1 <= seq);
            }
        }
    }
}

/// The gap is where it is found: a run of segments that ends at a missing one ends at the gap.
pub proof fn lemma_gap_is(segments: Map<u32, Seq<u8>>, from: nat, end: nat)
    requires
        from <= end <= u32::MAX + 1,
        forall|seq: u32| from <= seq < end ==> #[trigger] segments.contains_key(seq),
        end <= u32::MAX ==> !segments.contains_key(end as u32),
    ensures
        gap(segments, from) == end,
    decreases end - from,
{
    if from < end {
        assert(segments.contains_key(from as u32));
        lemma_gap_is(segments, from + 1, end);
    }
}

/// Appending a chunk appends its bytes.
pub proof fn lemma_flat_take(chunks: Seq<Seq<u8>>, to: int)
    requires
        0 < to <= chunks.len(),
    ensures
        flat(chunks.take(to)) == flat(chunks.take(to - 1)) + chunks[to - 1],
{
    assert(chunks.take(to).drop_last() =~= chunks.take(to - 1));
}

/// Fewer chunks make a prefix of the bytes.
pub proof fn lemma_flat_prefix(chunks: Seq<Seq<u8>>, to: int)
    requires
        0 <= to <= chunks.len(),
    ensures
        flat(chunks.take(to)).is_prefix_of(flat(chunks)),
    decreases chunks.len() - to,
{
    if to < chunks.len() {
        lemma_flat_take(chunks, to + 1);
        lemma_flat_prefix(chunks, to + 1);
        let shorter = flat(chunks.take(to));
        let longer = flat(chunks.take(to + 1));
        assert(shorter =~= longer.take(shorter.len() as int));
        assert(shorter =~= flat(chunks).take(shorter.len() as int));
    } else {
        assert(chunks.take(to) =~= chunks);
    }
}

/// Segments that agree with the chunks of a stream join to the chunks they stand for.
proof fn lemma_joined(chunks: Seq<Seq<u8>>, segments: Map<u32, Seq<u8>>, from: nat, to: nat)
    requires
        from <= to <= chunks.len() <= u32::MAX,
        forall|seq: u32| from <= seq < to ==> #[trigger] segments[seq] == chunks[seq as int],
    ensures
        flat(chunks.take(from as int)) + joined(segments, from, to) == flat(chunks.take(to as int)),
    decreases to,
{
    if from < to {
        lemma_joined(chunks, segments, from, (to - 1) as nat);
        lemma_flat_take(chunks, to as int);
        assert(segments[(to - 1) as u32] == chunks[to - 1]);
        assert(flat(chunks.take(from as int)) + joined(segments, from, to) =~= flat(
            chunks.take(from as int),
        ) + joined(segments, from, (to - 1) as nat) + segments[(to - 1) as u32]);
    } else {
        assert(flat(chunks.take(from as int)) + joined(segments, from, to) =~= flat(
            chunks.take(to as int),
        ));
    }
}

/// A segment of a stream is reassembled where it belongs: what is delivered continues exactly where the
/// last delivery ended, nothing that was received is forgotten, and nothing deliverable is held back.
pub proof fn lemma_accept(rx: Reassembly, chunks: Seq<Seq<u8>>, seq: u32)
    requires
        rx.agrees(chunks),
        seq < chunks.len() <= u32::MAX,
    ensures
        rx.accepted(seq, chunks[seq as int]).agrees(chunks),
        rx.next <= rx.accepted(seq, chunks[seq as int]).next,
        rx.next == seq ==> seq < rx.accepted(seq, chunks[seq as int]).next,
        flat(chunks.take(rx.next as int)) + rx.delivered(seq, chunks[seq as int]) == flat(
            chunks.take(rx.accepted(seq, chunks[seq as int]).next as int),
        ),
        forall|other: u32| #[trigger]
            rx.accepted(seq, chunks[seq as int]).holds(other) <==> rx.holds(other) || other == seq,
{
    let bytes = chunks[seq as int];
    let after = rx.accepted(seq, bytes);
    if seq < rx.next {
        assert(flat(chunks.take(rx.next as int)) + rx.delivered(seq, bytes) =~= flat(
            chunks.take(rx.next as int),
        ));
    } else {
        let segments = rx.on_hand(seq, bytes);
        let end = gap(segments, rx.next);
        lemma_gap(segments, rx.next);
        assert(forall|k: u32| #[trigger]
            segments.contains_key(k) ==> k < chunks.len() && segments[k] == chunks[k as int]);
        assert(end <= chunks.len()) by {
            if end > chunks.len() {
                assert(segments.contains_key(chunks.len() as u32));
            }
        }
        assert forall|k: u32| rx.next <= k < end implies #[trigger] segments[k]
            == chunks[k as int] by {
            assert(segments.contains_key(k));
        }
        lemma_joined(chunks, segments, rx.next, end);
        assert forall|k: u32| #[trigger] after.buffered.contains_key(k) implies k < chunks.len()
            && after.buffered[k] == chunks[k as int] && after.next < k by {
            assert(segments.contains_key(k));
            assert(k != end);
        }
        assert forall|k: u32| #[trigger] after.holds(k) <==> rx.holds(k) || k == seq by {
            if rx.next <= k < end {
                assert(segments.contains_key(k));
            }
            if end <= k {
                assert(after.buffered.contains_key(k) == segments.contains_key(k));
            }
        }
        if seq == rx.next {
            assert(segments.contains_key(seq));
        }
    }
}

// ---------------------------------------------------------------------------------------------------
// Laws
// ---------------------------------------------------------------------------------------------------
/// What a fresh reassembler knows after the segments `arrivals` of the stream of `chunks` came in, in
/// that order, and all that it delivered on the way.
pub open spec fn reassembled(chunks: Seq<Seq<u8>>, arrivals: Seq<u32>) -> (Reassembly, Seq<u8>)
    decreases arrivals.len(),
{
    if arrivals.len() == 0 {
        (Reassembly::fresh(), Seq::empty())
    } else {
        let (rx, delivered) = reassembled(chunks, arrivals.drop_last());
        let seq = arrivals.last();
        let bytes = chunks[seq as int];
        (rx.accepted(seq, bytes), delivered + rx.delivered(seq, bytes))
    }
}

/// Reassembly does not depend on how segments travel: whatever order they arrive in, and however often,
/// exactly the chunks before the first one that never arrived have been delivered, once each and in
/// order, and that first one is the ack.
pub proof fn law_reassembly_ignores_order_and_repetition(chunks: Seq<Seq<u8>>, arrivals: Seq<u32>)
    requires
        chunks.len() <= u32::MAX,
        forall|i: int| 0 <= i < arrivals.len() ==> #[trigger] arrivals[i] < chunks.len(),
    ensures
        ({
            let (rx, delivered) = reassembled(chunks, arrivals);
            &&& rx.agrees(chunks)
            &&& delivered == flat(chunks.take(rx.next as int))
            &&& forall|seq: u32| seq < rx.next ==> #[trigger] arrivals.contains(seq)
            &&& !arrivals.contains(rx.next as u32)
            &&& forall|seq: u32| #[trigger] rx.holds(seq) <==> arrivals.contains(seq)
        }),
    decreases arrivals.len(),
{
    let (rx, delivered) = reassembled(chunks, arrivals);
    if arrivals.len() == 0 {
        assert(chunks.take(0) =~= Seq::empty());
    } else {
        let earlier = arrivals.drop_last();
        let seq = arrivals.last();
        assert(forall|i: int| 0 <= i < earlier.len() ==> earlier[i] == arrivals[i]);
        law_reassembly_ignores_order_and_repetition(chunks, earlier);
        let (before, _) = reassembled(chunks, earlier);
        lemma_accept(before, chunks, seq);
        assert forall|other: u32| #[trigger] rx.holds(other) <==> arrivals.contains(other) by {
            if earlier.contains(other) {
                let i = choose|i: int| 0 <= i < earlier.len() && earlier[i] == other;
                assert(arrivals[i] == other);
            }
            if arrivals.contains(other) && other != seq {
                let i = choose|i: int| 0 <= i < arrivals.len() && arrivals[i] == other;
                assert(earlier[i] == other);
            }
            assert(arrivals[arrivals.len() - 1] == seq);
        }
        assert forall|other: u32| other < rx.next implies #[trigger] arrivals.contains(other) by {
            assert(rx.holds(other));
        }
        assert(!rx.holds(rx.next as u32));
    }
}

/// A duplicate changes nothing: a segment that was received before, delivered or not, is dropped,
/// whatever it carries.
pub proof fn law_a_held_segment_changes_nothing(rx: Reassembly, seq: u32, bytes: Seq<u8>)
    requires
        rx.wf(),
        rx.next <= u32::MAX,
        rx.holds(seq),
    ensures
        rx.accepted(seq, bytes) == rx,
        rx.delivered(seq, bytes) == Seq::<u8>::empty(),
{
    if seq >= rx.next {
        assert(rx.on_hand(seq, bytes) =~= rx.buffered);
        assert(gap(rx.buffered, rx.next) == rx.next);
        assert(rx.accepted(seq, bytes).buffered =~= rx.buffered);
    }
}

/// What was received stays received: accepting a segment adds that segment to the ones held, and takes
/// none away.
pub proof fn law_received_stays_received(rx: Reassembly, seq: u32, bytes: Seq<u8>)
    requires
        rx.wf(),
        rx.next <= u32::MAX,
    ensures
        rx.accepted(seq, bytes).wf(),
        forall|other: u32| #[trigger]
            rx.accepted(seq, bytes).holds(other) <==> rx.holds(other) || other == seq,
{
    if seq >= rx.next {
        let segments = rx.on_hand(seq, bytes);
        let after = rx.accepted(seq, bytes);
        lemma_gap(segments, rx.next);
        assert forall|other: u32| #[trigger] after.buffered.contains_key(other) implies after.next
            < other by {
            assert(segments.contains_key(other));
            assert(other != after.next);
        }
        assert forall|other: u32| #[trigger] after.holds(other) <==> rx.holds(other) || other
            == seq by {
            if rx.next <= other < after.next {
                assert(segments.contains_key(other));
            }
        }
    }
}

/// Joining segments is putting them one after the other.
proof fn lemma_joined_is_flat(segments: Map<u32, Seq<u8>>, from: nat, to: nat)
    requires
        from <= to,
    ensures
        joined(segments, from, to) == flat(
            Seq::new((to - from) as nat, |i: int| segments[(from + i) as u32]),
        ),
    decreases to,
{
    let pieces = Seq::new((to - from) as nat, |i: int| segments[(from + i) as u32]);
    if from < to {
        let fewer = (to - 1) as nat;
        lemma_joined_is_flat(segments, from, fewer);
        assert(pieces.drop_last() =~= Seq::new(
            (fewer - from) as nat,
            |i: int| segments[(from + i) as u32],
        ));
    }
}

/// A segment makes deliverable exactly what it completes: the segments from the one that was needed next
/// up to the first that is still missing, each once, in order, with the bytes of its first copy. What
/// stays buffered keeps its bytes, and the segment needed next has not been received.
pub proof fn law_a_segment_delivers_what_it_completes(rx: Reassembly, seq: u32, bytes: Seq<u8>)
    requires
        rx.wf(),
        rx.next <= u32::MAX,
    ensures
        ({
            let after = rx.accepted(seq, bytes);
            let first_copy = |other: u32|
                if other == seq && !rx.holds(seq) {
                    bytes
                } else {
                    rx.buffered[other]
                };
            &&& rx.next <= after.next <= u32::MAX + 1
            &&& rx.delivered(seq, bytes) == flat(
                Seq::new((after.next - rx.next) as nat, |i: int| first_copy((rx.next + i) as u32)),
            )
            &&& forall|other: u32| other < after.next ==> rx.holds(other) || other == seq
            &&& after.next <= u32::MAX ==> !rx.holds(after.next as u32) && after.next != seq
            &&& forall|other: u32| #[trigger]
                after.buffered.contains_key(other) ==> after.buffered[other] == first_copy(other)
        }),
{
    let after = rx.accepted(seq, bytes);
    let first_copy = |other: u32|
        if other == seq && !rx.holds(seq) {
            bytes
        } else {
            rx.buffered[other]
        };
    let pieces = Seq::new((after.next - rx.next) as nat, |i: int| first_copy((rx.next + i) as u32));
    law_received_stays_received(rx, seq, bytes);
    assert forall|other: u32| other < after.next implies rx.holds(other) || other == seq by {
        assert(after.holds(other));
    }
    if after.next <= u32::MAX {
        assert(!after.holds(after.next as u32));
    }
    if seq >= rx.next {
        let segments = rx.on_hand(seq, bytes);
        lemma_gap(segments, rx.next);
        lemma_joined_is_flat(segments, rx.next, after.next);
        assert(pieces =~= Seq::new(
            (after.next - rx.next) as nat,
            |i: int| segments[(rx.next + i) as u32],
        ));
    } else {
        assert(pieces =~= Seq::empty());
    }
}

/// A retransmit changes nothing: a segment that arrives again delivers nothing, whatever it carries.
pub proof fn law_duplicates_are_dropped(rx: Reassembly, seq: u32, first: Seq<u8>, again: Seq<u8>)
    requires
        rx.wf(),
        rx.next <= u32::MAX,
    ensures
        rx.accepted(seq, first).accepted(seq, again) == rx.accepted(seq, first),
        rx.accepted(seq, first).delivered(seq, again) == Seq::<u8>::empty(),
{
    let after = rx.accepted(seq, first);
    law_received_stays_received(rx, seq, first);
    assert(after.holds(seq));
    if after.next <= u32::MAX {
        law_a_held_segment_changes_nothing(after, seq, again);
    }
}

/// The cumulative ack never goes back.
pub proof fn law_the_ack_only_grows(rx: Reassembly, seq: u32, bytes: Seq<u8>)
    requires
        rx.wf(),
        rx.next <= u32::MAX,
    ensures
        rx.next <= rx.accepted(seq, bytes).next,
{
    lemma_gap(rx.on_hand(seq, bytes), rx.next);
}

/// Reassembles a reliable stream from per-frame `Data` segments: delivers bytes in order, drops
/// duplicates, and buffers out-of-order segments until the gap fills.
#[derive(Debug)]
pub struct StreamRx {
    next: u32,
    buffered: BTreeMap<u32, Bytes>,
}

impl View for StreamRx {
    type V = Reassembly;

    closed spec fn view(&self) -> Reassembly {
        Reassembly {
            next: self.next as nat,
            buffered: self.buffered@.map_values(|bytes: Bytes| payload::contents(bytes)),
        }
    }
}

impl Default for StreamRx {
    fn default() -> (rx: Self)
        ensures
            rx@ == Reassembly::fresh(),
            rx@.wf(),
    {
        let rx = StreamRx { next: 0, buffered: BTreeMap::new() };
        assert(rx@.buffered =~= Map::empty());
        rx
    }
}

impl StreamRx {
    /// A fresh reassembler expecting sequence 0.
    pub fn new() -> (rx: Self)
        ensures
            rx@ == Reassembly::fresh(),
            rx@.wf(),
    {
        Self::default()
    }

    /// The ack that accepting segment `seq` would lead to, or `None` if it would be past the last
    /// sequence number. The payload of the segment plays no part in it.
    pub fn ack_after(&self, seq: u32) -> (next: Option<u32>)
        requires
            self@.wf(),
        ensures
            forall|bytes: Seq<u8>|
                match next {
                    Some(next) => (#[trigger] self@.accepted(seq, bytes)).next == next,
                    None => self@.accepted(seq, bytes).next > u32::MAX,
                },
    {
        if seq < self.next {
            return Some(self.next);
        }
        let ghost segments = self@.on_hand(seq, Seq::empty());
        let mut at: u32 = self.next;
        while at == seq || self.buffered.contains_key(&at)
            invariant
                self.next <= at,
                self.next <= seq,
                segments == self@.on_hand(seq, Seq::<u8>::empty()),
                forall|k: u32| self.next <= k < at ==> #[trigger] segments.contains_key(k),
            decreases u32::MAX - at,
        {
            assert(segments.contains_key(at));
            if at == u32::MAX {
                proof {
                    lemma_gap_is(segments, self.next as nat, u32::MAX as nat + 1);
                    self.lemma_gap_ignores_payload(seq);
                }
                return None;
            }
            at = at + 1;
        }
        proof {
            lemma_gap_is(segments, self.next as nat, at as nat);
            self.lemma_gap_ignores_payload(seq);
        }
        Some(at)
    }

    proof fn lemma_gap_ignores_payload(&self, seq: u32)
        requires
            self.next <= seq,
        ensures
            forall|bytes: Seq<u8>|
                (#[trigger] self@.accepted(seq, bytes)).next == gap(
                    self@.on_hand(seq, Seq::empty()),
                    self@.next,
                ),
    {
        assert forall|bytes: Seq<u8>|
            (#[trigger] self@.accepted(seq, bytes)).next == gap(
                self@.on_hand(seq, Seq::empty()),
                self@.next,
            ) by {
            let with_payload = self@.on_hand(seq, bytes);
            let without = self@.on_hand(seq, Seq::empty());
            assert(with_payload.dom() =~= without.dom());
            lemma_gap(without, self@.next);
            lemma_gap_is(with_payload, self@.next, gap(without, self@.next));
        }
    }

    /// Accept a segment, returning the bytes that are now deliverable in order (possibly empty).
    pub fn accept(&mut self, seq: u32, bytes: Bytes) -> (delivered: Vec<u8>)
        requires
            old(self)@.wf(),
            old(self)@.accepted(seq, payload::contents(bytes)).next <= u32::MAX,
        ensures
            final(self)@ == old(self)@.accepted(seq, payload::contents(bytes)),
            final(self)@.wf(),
            delivered@ == old(self)@.delivered(seq, payload::contents(bytes)),
    {
        if seq < self.next {
            return Vec::new();  // already delivered; a retransmit
        }
        let ghost before = self@;
        let ghost segments = self@.on_hand(seq, payload::contents(bytes));
        let ghost end = gap(segments, self.next as nat);
        if !self.buffered.contains_key(&seq) {
            self.buffered.insert(seq, bytes);
        }
        assert(self@.buffered =~= segments);
        proof {
            lemma_gap(segments, before.next);
        }
        let mut delivered: Vec<u8> = Vec::new();
        assert(delivered@ =~= joined(segments, before.next, before.next));
        assert(segments =~= segments.restrict(Set::new(|other: u32| before.next <= other)));
        loop
            invariant
                before.next <= self.next <= end <= u32::MAX,
                end == gap(segments, before.next),
                forall|k: u32| before.next <= k < end ==> #[trigger] segments.contains_key(k),
                !segments.contains_key(end as u32),
                self@.buffered == segments.restrict(Set::new(|other: u32| self.next <= other)),
                delivered@ == joined(segments, before.next, self.next as nat),
            ensures
                self.next == end,
                self@.buffered == segments.restrict(Set::new(|other: u32| end <= other)),
                delivered@ == joined(segments, before.next, end),
            decreases end - self.next,
        {
            let ghost waiting = self@.buffered;
            let ghost handles = self.buffered@;
            let next: u32 = self.next;
            match self.buffered.remove(&next) {
                Some(segment) => {
                    assert(waiting.contains_key(next));
                    assert(segments.contains_key(next));
                    assert(waiting[next] == payload::contents(segment));
                    assert(segments[next] == waiting[next]);
                    let ghost sofar = delivered@;
                    delivered.extend_from_slice(payload::as_slice(&segment));
                    assert(delivered@ =~= sofar + segments[next]);
                    self.next = next + 1;
                    assert(self.buffered@ == handles.remove(next));
                    assert(self@.buffered =~= waiting.remove(next));
                    assert(self@.buffered =~= segments.restrict(
                        Set::new(|other: u32| self.next <= other),
                    ));
                },
                None => {
                    assert(!waiting.contains_key(next));
                    assert(!segments.contains_key(next));
                    assert(self@.buffered =~= waiting);
                    break;
                },
            }
        }
        delivered
    }

    /// The next sequence number still needed: the cumulative ack to send back.
    pub fn ack(&self) -> (next: u32)
        ensures
            next == self@.next,
    {
        self.next
    }
}

} // verus!
