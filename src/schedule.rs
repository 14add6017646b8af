//! Scheduling the segments of one download: which to fetch next, how many
//! are in flight, and what each answer means for the file.

use vstd::prelude::*;
use crate::download::CONCURRENCY;
use crate::error::{DownloadFailure, Error};
use crate::segment::{
    assemble, lemma_assembly_any_order, seg_end, seg_start, segment_count, segments, Segment,
};

verus! {

/// Where a segment stands.
#[derive(Debug, Clone, Copy, PartialEq, Eq, Structural)]
pub enum SegmentState {
    /// Not asked for yet, or to be asked for again.
    Waiting,
    /// Asked for; the answer has not come.
    Running,
    /// Answered and written.
    Written,
}

/// A transfer, as values.
pub struct TransferView {
    pub segments: Seq<Segment>,
    pub states: Seq<SegmentState>,
    pub retried: Seq<bool>,
}

/// How many entries of `s` are `st`.
pub open spec fn count_of(s: Seq<SegmentState>, st: SegmentState) -> nat
    decreases s.len(),
{
    if s.len() == 0 {
        0
    } else {
        count_of(s.drop_last(), st) + if s.last() == st {
            1nat
        } else {
            0nat
        }
    }
}

/// The first index at or after `i` where `s` is `st`, or `s.len()`.
pub open spec fn first_in_state(s: Seq<SegmentState>, st: SegmentState, i: int) -> int
    decreases s.len() - i,
{
    if i < 0 || i >= s.len() {
        s.len() as int
    } else if s[i] == st {
        i
    } else {
        first_in_state(s, st, i + 1)
    }
}

proof fn lemma_first_in_state(s: Seq<SegmentState>, st: SegmentState, i: int)
    requires
        0 <= i <= s.len(),
    ensures
        i <= first_in_state(s, st, i) <= s.len(),
        first_in_state(s, st, i) < s.len() ==> s[first_in_state(s, st, i)] == st,
    decreases s.len() - i,
{
    if i < s.len() && s[i] != st {
        lemma_first_in_state(s, st, i + 1);
    }
}

proof fn lemma_count_update(s: Seq<SegmentState>, i: int, x: SegmentState, st: SegmentState)
    requires
        0 <= i < s.len(),
    ensures
        count_of(s.update(i, x), st) + (if s[i] == st {
            1nat
        } else {
            0nat
        }) == count_of(s, st) + (if x == st {
            1nat
        } else {
            0nat
        }),
    decreases s.len(),
{
    let t = s.update(i, x);
    if i == s.len() - 1 {
        assert(t.drop_last() =~= s.drop_last());
    } else {
        assert(t.drop_last() =~= s.drop_last().update(i, x));
        lemma_count_update(s.drop_last(), i, x, st);
    }
}

proof fn lemma_count_bound(s: Seq<SegmentState>, st: SegmentState)
    ensures
        count_of(s, st) <= s.len(),
        count_of(s, st) == s.len() <==> forall|i: int| 0 <= i < s.len() ==> #[trigger] s[i] == st,
    decreases s.len(),
{
    if s.len() > 0 {
        lemma_count_bound(s.drop_last(), st);
        if count_of(s, st) == s.len() {
            assert forall|i: int| 0 <= i < s.len() implies #[trigger] s[i] == st by {
                if i < s.len() - 1 {
                    assert(s.drop_last()[i] == s[i]);
                }
            }
        }
        if forall|i: int| 0 <= i < s.len() ==> #[trigger] s[i] == st {
            assert forall|i: int| 0 <= i < s.drop_last().len() implies #[trigger] s.drop_last()[i]
                == st by {
                assert(s[i] == st);
            }
        }
    }
}

/// The segments of one download and where each stands.
pub struct Transfer {
    segments: Vec<Segment>,
    states: Vec<SegmentState>,
    retried: Vec<bool>,
    running: usize,
    written: usize,
    /// The resource's length.
    length: Ghost<nat>,
    /// The segments whose answers were accepted, in the order they were.
    order: Ghost<Seq<nat>>,
}

impl View for Transfer {
    type V = TransferView;

    closed spec fn view(&self) -> TransferView {
        TransferView { segments: self.segments@, states: self.states@, retried: self.retried@ }
    }
}

impl Transfer {
    /// The transfer's invariant: one state and one retry mark per segment,
    /// and no more than `CONCURRENCY` segments in flight.
    pub open spec fn wf(&self) -> bool {
        &&& self.counters_match()
        &&& self@.states.len() == self@.segments.len()
        &&& self@.retried.len() == self@.segments.len()
        &&& count_of(self@.states, SegmentState::Running) <= CONCURRENCY
        &&& self.tracks_writes()
    }

    /// The resource's length.
    pub closed spec fn length(&self) -> nat {
        self.length@
    }

    /// The segments whose answers were accepted, in the order they were: the
    /// order in which the writer stores them.
    pub closed spec fn written_order(&self) -> Seq<nat> {
        self.order@
    }

    /// The segments are those of the resource's length, and every written
    /// segment stands in the order of writes.
    pub closed spec fn tracks_writes(&self) -> bool {
        &&& self.segments@.len() == segment_count(self.length@)
        &&& forall|i: int|
            0 <= i < self.segments@.len() ==> (#[trigger] self.segments@[i]).start as nat
                == seg_start(i as nat) && self.segments@[i].end as nat == seg_end(
                self.length@,
                i as nat,
            )
        &&& forall|k: int| 0 <= k < self.order@.len() ==> #[trigger] self.order@[k] < self.segments@.len()
        &&& forall|i: int|
            0 <= i < self.states@.len() && #[trigger] self.states@[i] == SegmentState::Written
                ==> self.order@.contains(i as nat)
    }

    /// Once every segment is written, storing the accepted answers in the
    /// order they were accepted, each at its segment's first byte, rebuilds
    /// the resource exactly, whatever that order was.
    pub proof fn lemma_complete_rebuilds(&self, src: Seq<u8>)
        requires
            self.wf(),
            forall|i: int| 0 <= i < self@.states.len() ==> #[trigger] self@.states[i]
                == SegmentState::Written,
            src.len() == self.length(),
        ensures
            assemble(src, self.written_order()) == src,
    {
        assert forall|i: nat| i < segment_count(src.len()) implies #[trigger] self.order@.contains(i) by {
            assert(self.states@[i as int] == SegmentState::Written);
        }
        lemma_assembly_any_order(src, self.order@);
    }

    /// The cached counts agree with the states.
    pub closed spec fn counters_match(&self) -> bool {
        &&& self.running as nat == count_of(self.states@, SegmentState::Running)
        &&& self.written as nat == count_of(self.states@, SegmentState::Written)
    }

    /// The transfer of a resource of `content_length` bytes, with every
    /// segment waiting.
    pub fn new(content_length: usize) -> (r: Transfer)
        ensures
            r.wf(),
            r@.segments.len() == segment_count(content_length as nat),
            forall|i: int|
                0 <= i < r@.segments.len() ==> (#[trigger] r@.segments[i]).start as nat == seg_start(
                    i as nat,
                ) && r@.segments[i].end as nat == seg_end(content_length as nat, i as nat),
            forall|i: int| 0 <= i < r@.states.len() ==> #[trigger] r@.states[i] == SegmentState::Waiting,
            forall|i: int| 0 <= i < r@.retried.len() ==> !#[trigger] r@.retried[i],
            count_of(r@.states, SegmentState::Running) == 0,
            count_of(r@.states, SegmentState::Written) == 0,
            r.length() == content_length as nat,
            r.written_order() == Seq::<nat>::empty(),
    {
        let segs = segments(content_length);
        let mut states: Vec<SegmentState> = Vec::new();
        let mut retried: Vec<bool> = Vec::new();
        let mut i: usize = 0;
        while i < segs.len()
            invariant
                0 <= i <= segs@.len(),
                states@.len() == i,
                retried@.len() == i,
                forall|k: int| 0 <= k < i ==> #[trigger] states@[k] == SegmentState::Waiting,
                forall|k: int| 0 <= k < i ==> !#[trigger] retried@[k],
                count_of(states@, SegmentState::Running) == 0,
                count_of(states@, SegmentState::Written) == 0,
            decreases segs@.len() - i,
        {
            let ghost prev = states@;
            states.push(SegmentState::Waiting);
            retried.push(false);
            assert(states@.drop_last() =~= prev);
            i = i + 1;
        }
        Transfer {
            segments: segs,
            states,
            retried,
            running: 0,
            written: 0,
            length: Ghost(content_length as nat),
            order: Ghost(Seq::empty()),
        }
    }

    /// Every state of a transfer keeps at most `CONCURRENCY` segments in
    /// flight.
    pub proof fn lemma_concurrency_bound(&self)
        requires
            self.wf(),
        ensures
            count_of(self@.states, SegmentState::Running) <= CONCURRENCY,
    {
    }

    /// How many segments are in flight.
    pub fn in_flight(&self) -> (r: usize)
        requires
            self.wf(),
        ensures
            r as nat == count_of(self@.states, SegmentState::Running),
    {
        self.running
    }

    /// How many segments the resource is cut into.
    pub fn segment_count(&self) -> (r: usize)
        ensures
            r == self@.segments.len(),
    {
        self.segments.len()
    }

    /// Whether segment `index` is in flight.
    pub fn is_running(&self, index: usize) -> (r: bool)
        requires
            self.wf(),
        ensures
            r == (index < self@.states.len() && self@.states[index as int] == SegmentState::Running),
    {
        index < self.states.len() && self.states[index] == SegmentState::Running
    }

    /// Whether every segment has been answered and written.
    pub fn is_complete(&self) -> (r: bool)
        requires
            self.wf(),
        ensures
            r == forall|i: int| 0 <= i < self@.states.len() ==> #[trigger] self@.states[i]
                == SegmentState::Written,
    {
        proof {
            lemma_count_bound(self.states@, SegmentState::Written);
        }
        self.written == self.states.len()
    }

    /// The next segment to ask for, marked as in flight: the first waiting
    /// one, if fewer than `CONCURRENCY` are in flight.
    pub fn next_segment(&mut self) -> (r: Option<(usize, Segment)>)
        requires
            old(self).wf(),
        ensures
            final(self).wf(),
            final(self)@.segments == old(self)@.segments,
            final(self)@.retried == old(self)@.retried,
            final(self).length() == old(self).length(),
            final(self).written_order() == old(self).written_order(),
            ({
                let w = first_in_state(old(self)@.states, SegmentState::Waiting, 0);
                if count_of(old(self)@.states, SegmentState::Running) < CONCURRENCY && w < old(
                    self,
                )@.states.len() {
                    r == Some((w as usize, old(self)@.segments[w])) && final(self)@.states == old(
                        self,
                    )@.states.update(w, SegmentState::Running) && count_of(
                        final(self)@.states,
                        SegmentState::Running,
                    ) == count_of(old(self)@.states, SegmentState::Running) + 1
                } else {
                    r is None && final(self)@.states == old(self)@.states
                }
            }),
    {
        if self.running >= CONCURRENCY {
            return None;
        }
        let mut i: usize = 0;
        while i < self.states.len()
            invariant
                0 <= i <= self.states@.len(),
                self.wf(),
                self.running < CONCURRENCY,
                self.states@ == old(self).states@,
                self.segments@ == old(self).segments@,
                self.retried@ == old(self).retried@,
                self.running == old(self).running,
                self.written == old(self).written,
                self.length == old(self).length,
                self.order == old(self).order,
                first_in_state(self.states@, SegmentState::Waiting, 0) == first_in_state(
                    self.states@,
                    SegmentState::Waiting,
                    i as int,
                ),
            decreases self.states@.len() - i,
        {
            if self.states[i] == SegmentState::Waiting {
                proof {
                    lemma_count_update(self.states@, i as int, SegmentState::Running, SegmentState::Running);
                    lemma_count_update(self.states@, i as int, SegmentState::Running, SegmentState::Written);
                }
                self.states.set(i, SegmentState::Running);
                self.running = self.running + 1;
                return Some((i, self.segments[i]));
            }
            i = i + 1;
        }
        None
    }

    /// Takes the status of the answer for segment `index`. A 206 answer is
    /// written at the segment's first byte, which is returned; any other
    /// status puts the segment back in line once, and fails the download the
    /// second time.
    pub fn complete(&mut self, index: usize, status: usize) -> (r: Result<Option<usize>, Error>)
        requires
            old(self).wf(),
            index < old(self)@.states.len(),
            old(self)@.states[index as int] == SegmentState::Running,
        ensures
            final(self).wf(),
            final(self)@.segments == old(self)@.segments,
            final(self).length() == old(self).length(),
            status == 206 ==> final(self).written_order() == old(self).written_order().push(
                index as nat,
            ),
            status != 206 ==> final(self).written_order() == old(self).written_order(),
            r is Ok ==> count_of(final(self)@.states, SegmentState::Running) + 1 == count_of(
                old(self)@.states,
                SegmentState::Running,
            ),
            status == 206 ==> r == Ok::<Option<usize>, Error>(
                Some(old(self)@.segments[index as int].start),
            ) && final(self)@.states == old(self)@.states.update(
                index as int,
                SegmentState::Written,
            ) && final(self)@.retried == old(self)@.retried,
            status != 206 && !old(self)@.retried[index as int] ==> r == Ok::<Option<usize>, Error>(
                None,
            ) && final(self)@.states == old(self)@.states.update(
                index as int,
                SegmentState::Waiting,
            ) && final(self)@.retried == old(self)@.retried.update(index as int, true),
            status != 206 && old(self)@.retried[index as int] ==> r == Err::<Option<usize>, Error>(
                Error::DownloadError(DownloadFailure::SegmentRejected(status)),
            ) && final(self)@ == old(self)@,
    {
        proof {
            lemma_count_bound(self.states@, SegmentState::Written);
            lemma_count_bound(self.states@, SegmentState::Running);
        }
        let n = self.states.len();
        if status == 206 {
            proof {
                lemma_count_update(self.states@, index as int, SegmentState::Written, SegmentState::Running);
                lemma_count_update(self.states@, index as int, SegmentState::Written, SegmentState::Written);
                lemma_count_bound(self.states@.update(index as int, SegmentState::Written), SegmentState::Written);
            }
            self.states.set(index, SegmentState::Written);
            self.order = Ghost(self.order@.push(index as nat));
            assert(self.order@[self.order@.len() - 1] == index as nat);
            assert forall|i: int|
                0 <= i < self.states@.len() && #[trigger] self.states@[i] == SegmentState::Written
                    implies self.order@.contains(i as nat) by {
                if i == index as int {
                    assert(self.order@[self.order@.len() - 1] == i as nat);
                } else {
                    assert(old(self).states@[i] == SegmentState::Written);
                    assert(old(self).order@.contains(i as nat));
                    let k = choose|k: int| 0 <= k < old(self).order@.len() && old(self).order@[k] == i as nat;
                    assert(self.order@[k] == i as nat);
                }
            }
            assert forall|k: int| 0 <= k < self.order@.len() implies #[trigger] self.order@[k]
                < self.segments@.len() by {
                if k < old(self).order@.len() {
                    assert(self.order@[k] == old(self).order@[k]);
                }
            }
            self.running = self.running - 1;
            self.written = self.written + 1;
            Ok(Some(self.segments[index].start))
        } else if !self.retried[index] {
            proof {
                lemma_count_update(self.states@, index as int, SegmentState::Waiting, SegmentState::Running);
                lemma_count_update(self.states@, index as int, SegmentState::Waiting, SegmentState::Written);
            }
            self.states.set(index, SegmentState::Waiting);
            self.retried.set(index, true);
            assert forall|i: int|
                0 <= i < self.states@.len() && #[trigger] self.states@[i] == SegmentState::Written
                    implies self.order@.contains(i as nat) by {
                assert(old(self).states@[i] == SegmentState::Written);
            }
            self.running = self.running - 1;
            Ok(None)
        } else {
            Err(Error::DownloadError(DownloadFailure::SegmentRejected(status)))
        }
    }
}

} // verus!
