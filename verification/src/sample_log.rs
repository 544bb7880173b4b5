//! The sample log: an append-only, time-ordered collection of slider samples
//! gathered during one recording session, together with the session phase
//! machine that governs when appends are legal.

use vstd::prelude::*;

verus! {

/// One recorded sample: the elapsed time since session start, in
/// milliseconds, and the slider value at that moment.
#[derive(Clone, Copy, PartialEq, Eq, Structural, Debug)]
pub struct Sample {
    pub elapsed_ms: i64,
    pub value: i16,
}

/// A point in time, counted in milliseconds since the Unix epoch (UTC).
#[derive(Clone, Copy, PartialEq, Eq, Structural, Debug)]
pub struct Timestamp {
    pub millis: i64,
}

/// The last millisecond the recording file name encoding can represent
/// (the end of year 9999).
pub const MAX_TIMESTAMP_MILLIS: i64 = 253_402_300_800_000;

impl Timestamp {
    /// A timestamp the library can work with: not before the epoch and
    /// representable with a four-digit year.
    pub open spec fn wf(self) -> bool {
        0 <= self.millis < MAX_TIMESTAMP_MILLIS
    }

    /// The signed distance in milliseconds from `start` to `self`.
    pub fn elapsed_since(&self, start: &Timestamp) -> (r: i64)
        requires
            self.wf(),
            start.wf(),
        ensures
            r == self.millis - start.millis,
    {
        self.millis - start.millis
    }
}

/// The phase of one recording session. A session begins `Idle`, moves to
/// `Recording` on the start event, to `Review` when the session is ended
/// (save, upload and restart are offered there), and back to `Idle` on
/// restart.
#[derive(Clone, Copy, PartialEq, Eq, Structural, Debug)]
pub enum SessionPhase {
    Idle,
    Recording,
    Review,
}

/// The in-memory log of one recording session. Samples are held in event
/// arrival order; the log is emptied when a session starts and when it is
/// cleared on restart. Appends are only legal while the session is in the
/// `Recording` phase.
pub struct SampleLog {
    samples: Vec<Sample>,
    phase: SessionPhase,
    start_time: Timestamp,
}

impl SampleLog {
    /// The recorded samples, in the order they were appended.
    pub closed spec fn view(&self) -> Seq<Sample> {
        self.samples@
    }

    /// The current phase of the session.
    pub closed spec fn phase(&self) -> SessionPhase {
        self.phase
    }

    /// The start time recorded by the most recent `start` call.
    pub closed spec fn start_time(&self) -> Timestamp {
        self.start_time
    }

    /// A fresh log: idle and empty, with the start time at the epoch until
    /// a session begins.
    pub fn new() -> (r: SampleLog)
        ensures
            r@ == Seq::<Sample>::empty(),
            r.phase() == SessionPhase::Idle,
            r.start_time() == (Timestamp { millis: 0 }),
    {
        SampleLog { samples: Vec::new(), phase: SessionPhase::Idle, start_time: Timestamp { millis: 0 } }
    }

    /// Begin a session: record the start time, drop any prior samples and
    /// enter the `Recording` phase.
    pub fn start(&mut self, now: Timestamp)
        ensures
            final(self)@ == Seq::<Sample>::empty(),
            final(self).phase() == SessionPhase::Recording,
            final(self).start_time() == now,
    {
        self.samples.clear();
        self.phase = SessionPhase::Recording;
        self.start_time = now;
    }

    /// Append one sample at the end of the log. Legal only while recording;
    /// the samples already held are kept, in order, with the new one after
    /// them — no reordering, no loss, no duplication.
    pub fn append(&mut self, elapsed_ms: i64, value: i16)
        requires
            old(self).phase() == SessionPhase::Recording,
        ensures
            final(self)@ == old(self)@.push(Sample { elapsed_ms, value }),
            final(self).phase() == old(self).phase(),
            final(self).start_time() == old(self).start_time(),
    {
        self.samples.push(Sample { elapsed_ms, value });
    }

    /// End the session: the log becomes read-only for review. The samples
    /// are kept unchanged.
    pub fn end_session(&mut self)
        requires
            old(self).phase() == SessionPhase::Recording,
        ensures
            final(self)@ == old(self)@,
            final(self).phase() == SessionPhase::Review,
            final(self).start_time() == old(self).start_time(),
    {
        self.phase = SessionPhase::Review;
    }

    /// Empty the log and return to `Idle`, whatever the prior content or
    /// phase. Used on restart.
    pub fn clear(&mut self)
        ensures
            final(self)@ == Seq::<Sample>::empty(),
            final(self).phase() == SessionPhase::Idle,
    {
        self.samples.clear();
        self.phase = SessionPhase::Idle;
    }

    /// An ordered copy of all samples held so far, for export: exactly the
    /// appended samples, in call order.
    pub fn snapshot(&self) -> (r: Vec<Sample>)
        ensures
            r@ == self@,
    {
        let mut out: Vec<Sample> = Vec::new();
        let mut i: usize = 0;
        while i < self.samples.len()
            invariant
                0 <= i <= self.samples.len(),
                out@ == self.samples@.take(i as int),
            decreases self.samples.len() - i,
        {
            out.push(self.samples[i]);
            proof {
                assert(self.samples@.take(i + 1 as int) == self.samples@.take(i as int).push(
                    self.samples@[i as int],
                ));
            }
            i = i + 1;
        }
        proof {
            assert(self.samples@.take(self.samples@.len() as int) == self.samples@);
        }
        out
    }

    /// How many samples are held.
    pub fn len(&self) -> (r: usize)
        ensures
            r == self@.len(),
    {
        self.samples.len()
    }

    /// The phase, for callers that must check before acting.
    pub fn current_phase(&self) -> (r: SessionPhase)
        ensures
            r == self.phase(),
    {
        self.phase
    }

    /// The start time of the current or last session.
    pub fn session_start(&self) -> (r: Timestamp)
        ensures
            r == self.start_time(),
    {
        self.start_time
    }
}

/// The result of appending a whole sequence of samples one by one, in order.
pub open spec fn appended(prior: Seq<Sample>, added: Seq<Sample>) -> Seq<Sample>
    decreases added.len(),
{
    if added.len() == 0 {
        prior
    } else {
        appended(prior.push(added[0]), added.skip(1))
    }
}

/// Append order law: appending the samples of `added` one at a time, each by
/// one `append` call (which pushes exactly one sample at the end), leaves the
/// log holding `prior + added` — every appended sample present, in call
/// order, none lost, none duplicated. `snapshot` returns that sequence
/// unchanged.
pub proof fn lemma_append_order(prior: Seq<Sample>, added: Seq<Sample>)
    ensures
        appended(prior, added) == prior + added,
    decreases added.len(),
{
    if added.len() == 0 {
        assert(prior + added =~= prior);
    } else {
        lemma_append_order(prior.push(added[0]), added.skip(1));
        assert(prior.push(added[0]) + added.skip(1) =~= prior + added);
    }
}

} // verus!
