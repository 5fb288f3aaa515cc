//! A monitoring session: the connection and the pipeline behind it.
//!
//! The session knows where the connection stands and owns the pipeline that
//! the connection feeds. It ties two rules to the connection. A connection
//! that has just come about starts a new stream, so what was pending from an
//! earlier one is forgotten and the first record is dropped again; the
//! series collected so far stays. And a tick takes data in only while the
//! connection delivers.

use crate::connection::{chunk_of, next, received, step, Action, Event, Phase};
use crate::framing::lemma_after_nothing;
use crate::framing::SplitterState;
use crate::pipeline::{samples_in, IngestReport, Pipeline, PipelineState};
use crate::record::SampleText;
use vstd::prelude::*;

verus! {

/// What a session holds between two events.
pub struct SessionState {
    /// Where the connection stands.
    pub phase: Phase,
    /// What the pipeline holds.
    pub pipeline: PipelineState,
}

/// The step from `phase` on `event` brings a connection about.
pub open spec fn connects(phase: Phase, event: Event) -> bool {
    !phase.delivers() && next(phase, event).0.delivers()
}

impl SessionState {
    /// The state before the first connection.
    pub open spec fn fresh(limit: nat) -> SessionState {
        SessionState { phase: Phase::Closed, pipeline: PipelineState::fresh(limit) }
    }

    /// The state once `event` has been handled.
    pub open spec fn on(self, event: Event) -> SessionState {
        SessionState {
            phase: next(self.phase, event).0,
            pipeline: PipelineState {
                splitter: if connects(self.phase, event) {
                    SplitterState::fresh(self.pipeline.splitter.limit)
                } else {
                    self.pipeline.splitter
                },
                series: self.pipeline.series,
            },
        }
    }

    /// The state once a tick has taken in what a read into `buffer`
    /// delivered: the chunk goes through the pipeline while the connection
    /// delivers, and nothing happens while it does not.
    pub open spec fn ticked(self, buffer: Seq<u8>, outcome: Option<usize>) -> SessionState {
        if self.phase.delivers() {
            SessionState {
                phase: self.phase,
                pipeline: self.pipeline.after(chunk_of(buffer, outcome)),
            }
        } else {
            self
        }
    }
}

/// No event touches the series, and only the step that brings a connection
/// about touches the splitter. That step is the one that ends the
/// configuring of the port with success. A tick changes nothing unless the
/// connection delivers, and a read that gave up or failed changes nothing
/// either way as long as the splitter holds a well-formed state.
pub proof fn lemma_session_rules(
    state: SessionState,
    event: Event,
    buffer: Seq<u8>,
    outcome: Option<usize>,
)
    ensures
        state.on(event).pipeline.series == state.pipeline.series,
        connects(state.phase, event) <==> state.phase == Phase::Configuring && event
            == Event::Configured,
        !connects(state.phase, event) ==> state.on(event).pipeline == state.pipeline,
        !state.phase.delivers() ==> state.ticked(buffer, outcome) == state,
        state.ticked(buffer, outcome).phase == state.phase,
        state.pipeline.splitter.wf() && outcome is None ==> state.ticked(buffer, outcome)
            == state,
{
    if state.pipeline.splitter.wf() && outcome is None {
        assert(buffer.take(0) =~= Seq::<u8>::empty());
        lemma_after_nothing(state.pipeline.splitter);
        assert(state.pipeline.series + samples_in(Seq::<Seq<u8>>::empty())
            =~= state.pipeline.series);
    }
}

/// The connection and the pipeline behind it.
pub struct Session {
    phase: Phase,
    pipeline: Pipeline,
}

impl View for Session {
    type V = SessionState;

    closed spec fn view(&self) -> SessionState {
        SessionState { phase: self.phase, pipeline: self.pipeline@ }
    }
}

impl Session {
    /// A session before its first connection, with an empty series. Records
    /// longer than `limit` bytes will be dropped.
    pub fn new(limit: usize) -> (session: Session)
        ensures
            session@ == SessionState::fresh(limit as nat),
    {
        Session { phase: Phase::Closed, pipeline: Pipeline::new(limit) }
    }

    /// Where the connection stands.
    pub fn phase(&self) -> (phase: Phase)
        ensures
            phase == self@.phase,
    {
        self.phase
    }

    /// Tells whether the connection delivers data.
    pub fn is_open(&self) -> (open: bool)
        ensures
            open == self@.phase.delivers(),
    {
        self.phase == Phase::Open
    }

    /// The pipeline.
    pub fn pipeline(&self) -> (pipeline: &Pipeline)
        ensures
            pipeline@ == self@.pipeline,
    {
        &self.pipeline
    }

    /// Takes note of what has happened to the connection and says what the
    /// caller is to do with the port. Where the event brings the connection
    /// about, a new stream begins.
    pub fn handle(&mut self, event: Event) -> (action: Action)
        ensures
            final(self)@ == old(self)@.on(event),
            action == next(old(self)@.phase, event).1,
    {
        let was_open = self.phase == Phase::Open;
        let (phase, action) = step(self.phase, event);
        self.phase = phase;
        if !was_open && phase == Phase::Open {
            self.pipeline.begin_session();
        }
        action
    }

    /// Takes in what a read into `buffer` has delivered, if the connection
    /// delivers. `outcome` is the number of bytes that the read reports, or
    /// `None` where it gave up or failed.
    pub fn tick(&mut self, buffer: &[u8], outcome: Option<usize>) -> (report: IngestReport)
        ensures
            final(self)@ == old(self)@.ticked(buffer@, outcome),
            old(self)@.phase.delivers() ==> report.accepted == samples_in(
                old(self)@.pipeline.splitter.records(chunk_of(buffer@, outcome)),
            ).len(),
            old(self)@.phase.delivers() ==> report.accepted + report.rejected
                == old(self)@.pipeline.splitter.records(chunk_of(buffer@, outcome)).len(),
            !old(self)@.phase.delivers() ==> report == (IngestReport { accepted: 0, rejected: 0 }),
    {
        if self.phase == Phase::Open {
            self.pipeline.ingest(received(buffer, outcome))
        } else {
            IngestReport { accepted: 0, rejected: 0 }
        }
    }

    /// Forgets every sample. The connection and the stream go on.
    pub fn clear(&mut self)
        ensures
            final(self)@.phase == old(self)@.phase,
            final(self)@.pipeline.splitter == old(self)@.pipeline.splitter,
            final(self)@.pipeline.series == Seq::<SampleText>::empty(),
    {
        self.pipeline.clear();
    }
}

} // verus!
