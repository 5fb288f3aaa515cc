//! The whole path from chunk to series.
//!
//! A pipeline owns the splitter of the current session and the series. Each
//! chunk read from the port is cut into records, each record is read as a
//! sample, and the samples found are appended to the series in the order of
//! the stream. A record that holds no sample is counted and otherwise
//! ignored: it neither stops the chunk nor touches what the series holds.

use crate::export::{export, table_text, ExportError};
use crate::framing::{
    delimiter_free, fits, inner_segments, lemma_after_concat, lemma_after_nothing,
    lemma_chunking_is_immaterial, lemma_overlong_record_is_dropped,
    lemma_segments_of_delimiter_free, lemma_session_accounts_for_every_byte, FrameSplitter,
    SplitterState, DELIMITER,
};
use crate::record::{parse, sample_of, Sample, SampleText};
use crate::series::{sample_texts, SeriesBuffer};
use vstd::prelude::*;

verus! {

/// The samples that `records` hold, in the order of the records. Records
/// that hold none are passed over.
pub open spec fn samples_in(records: Seq<Seq<u8>>) -> Seq<SampleText>
    decreases records.len(),
{
    if records.len() == 0 {
        Seq::<SampleText>::empty()
    } else {
        let earlier = samples_in(records.drop_last());
        match sample_of(records.last()) {
            Some(sample) => earlier.push(sample),
            None => earlier,
        }
    }
}

/// The samples of two runs of records are those of the first run followed by
/// those of the second.
pub proof fn lemma_samples_in_concat(first: Seq<Seq<u8>>, second: Seq<Seq<u8>>)
    ensures
        samples_in(first + second) == samples_in(first) + samples_in(second),
    decreases second.len(),
{
    if second.len() == 0 {
        assert(first + second =~= first);
        assert(samples_in(first) + samples_in(second) =~= samples_in(first));
    } else {
        lemma_samples_in_concat(first, second.drop_last());
        assert((first + second).drop_last() =~= first + second.drop_last());
        assert((first + second).last() == second.last());
        match sample_of(second.last()) {
            Some(sample) => {
                assert((samples_in(first) + samples_in(second.drop_last())).push(sample)
                    =~= samples_in(first) + samples_in(second.drop_last()).push(sample));
            },
            None => {},
        }
    }
}

/// A record that holds no sample leaves no trace: the samples found are
/// those of the records before it followed by those of the records behind
/// it.
pub proof fn lemma_rejected_record_is_passed_over(
    before: Seq<Seq<u8>>,
    record: Seq<u8>,
    behind: Seq<Seq<u8>>,
)
    requires
        sample_of(record) is None,
    ensures
        samples_in(before.push(record) + behind) == samples_in(before) + samples_in(behind),
{
    lemma_samples_in_concat(before.push(record), behind);
    assert(before.push(record).drop_last() =~= before);
}

/// Reads every record as a sample and returns the samples found, in the
/// order of the records.
pub fn parse_all(records: &Vec<Vec<u8>>) -> (samples: Vec<Sample>)
    ensures
        sample_texts(samples@) == samples_in(records.deep_view()),
{
    let mut samples: Vec<Sample> = Vec::new();
    let mut i: usize = 0;
    let ghost all = records.deep_view();
    assert(all.take(0) =~= Seq::<Seq<u8>>::empty());
    assert(sample_texts(samples@) =~= Seq::<SampleText>::empty());
    while i < records.len()
        invariant
            i <= records.len(),
            all == records.deep_view(),
            sample_texts(samples@) == samples_in(all.take(i as int)),
        decreases records.len() - i,
    {
        let ghost before = sample_texts(samples@);
        proof {
            assert(all.take(i + 1).drop_last() =~= all.take(i as int));
            assert(all.take(i + 1).last() == all[i as int]);
            assert(records[i as int].deep_view() =~= records[i as int]@);
        }
        match parse(records[i].as_slice()) {
            Some(sample) => {
                samples.push(sample);
                assert(sample_texts(samples@) =~= before.push(sample@));
            },
            None => {},
        }
        i += 1;
    }
    assert(all.take(i as int) =~= all);
    samples
}

/// What the pipeline holds between two chunks.
pub struct PipelineState {
    /// The splitter of the current session.
    pub splitter: SplitterState,
    /// The samples accepted so far, in arrival order.
    pub series: Seq<SampleText>,
}

impl PipelineState {
    /// The state at the start of the first session: nothing received, no
    /// sample held.
    pub open spec fn fresh(limit: nat) -> PipelineState {
        PipelineState {
            splitter: SplitterState::fresh(limit),
            series: Seq::<SampleText>::empty(),
        }
    }

    /// The state once `chunk` has been taken in.
    pub open spec fn after(self, chunk: Seq<u8>) -> PipelineState {
        PipelineState {
            splitter: self.splitter.after(chunk),
            series: self.series + samples_in(self.splitter.records(chunk)),
        }
    }

    /// The state once every chunk of `chunks` has been taken in, one after
    /// another.
    pub open spec fn after_all(self, chunks: Seq<Seq<u8>>) -> PipelineState
        decreases chunks.len(),
    {
        if chunks.len() == 0 {
            self
        } else {
            self.after_all(chunks.drop_last()).after(chunks.last())
        }
    }
}

/// How a chunk is cut does not matter to the series either: taking in two
/// chunks one after the other leaves the state that taking in both at once
/// leaves.
pub proof fn lemma_ingest_chunking_is_immaterial(
    state: PipelineState,
    first: Seq<u8>,
    second: Seq<u8>,
)
    ensures
        state.after(first + second) == state.after(first).after(second),
{
    lemma_after_concat(state.splitter, first, second);
    lemma_samples_in_concat(
        state.splitter.records(first),
        state.splitter.after(first).records(second),
    );
    assert(state.series + (samples_in(state.splitter.records(first)) + samples_in(
        state.splitter.after(first).records(second),
    )) =~= (state.series + samples_in(state.splitter.records(first))) + samples_in(
        state.splitter.after(first).records(second),
    ));
}

/// The series only grows while chunks are taken in: what it held stays in
/// place, unchanged, and new samples come behind it.
pub proof fn lemma_series_only_grows(state: PipelineState, chunks: Seq<Seq<u8>>)
    ensures
        state.series.is_prefix_of(state.after_all(chunks).series),
    decreases chunks.len(),
{
    if chunks.len() > 0 {
        lemma_series_only_grows(state, chunks.drop_last());
    }
}

/// Ingestion resumes after a record that was too long. While the overlong
/// record arrives, nothing is kept of it and the series stays as it was.
/// Once its delimiter, a further record and that record's delimiter have
/// arrived, the splitter holds nothing, and the series has grown by the
/// sample of the further record, if it fits the limit and holds one, and by
/// nothing else.
pub proof fn lemma_ingestion_resumes_after_overlong_record(
    state: PipelineState,
    overlong: Seq<u8>,
    record: Seq<u8>,
)
    requires
        state.splitter.wf(),
        delimiter_free(overlong),
        state.splitter.discarding || state.splitter.pending.len() + overlong.len()
            > state.splitter.limit,
        delimiter_free(record),
    ensures
        ({
            let dropping = state.after(overlong);
            let resumed = dropping.after(seq![DELIMITER] + record + seq![DELIMITER]);
            &&& dropping.series == state.series
            &&& dropping.splitter.discarding
            &&& dropping.splitter.pending.len() == 0
            &&& resumed.splitter == SplitterState::between_records(state.splitter.limit)
            &&& resumed.series == state.series + (if record.len() <= state.splitter.limit {
                samples_in(seq![record])
            } else {
                Seq::<SampleText>::empty()
            })
            &&& samples_in(seq![record]) == (match sample_of(record) {
                Some(sample) => seq![sample],
                None => Seq::<SampleText>::empty(),
            })
        }),
{
    let limit = state.splitter.limit;
    let between = SplitterState::between_records(limit);
    let dropping = state.after(overlong);
    let rest = record.push(DELIMITER);
    let chunk = seq![DELIMITER] + record + seq![DELIMITER];
    // The overlong record completes nothing and is not kept.
    lemma_overlong_record_is_dropped(state.splitter, overlong, rest);
    lemma_segments_of_delimiter_free(state.splitter.pending + overlong);
    assert(state.splitter.completed(overlong) =~= Seq::<Seq<u8>>::empty());
    assert(state.splitter.records(overlong) =~= Seq::<Seq<u8>>::empty()) by {
        reveal(Seq::filter);
    }
    assert(state.series + samples_in(Seq::<Seq<u8>>::empty()) =~= state.series);
    // Its delimiter and what follows are cut as from between two records.
    assert(overlong + chunk =~= overlong.push(DELIMITER) + rest);
    lemma_after_concat(state.splitter, overlong, chunk);
    assert(state.splitter.records(overlong) + dropping.splitter.records(chunk)
        =~= dropping.splitter.records(chunk));
    // The further record is the one record that its delimiter completes.
    assert(between.pending + rest =~= rest);
    assert(rest.drop_last() =~= record);
    lemma_segments_of_delimiter_free(record);
    assert(between.completed(rest) =~= seq![record]);
    assert(between.tail(rest) =~= Seq::<u8>::empty());
    assert(seq![record].drop_last() =~= Seq::<Seq<u8>>::empty());
    assert(between.records(rest) =~= (if record.len() <= limit {
        seq![record]
    } else {
        Seq::<Seq<u8>>::empty()
    })) by {
        reveal_with_fuel(Seq::filter, 2);
    }
    assert(samples_in(seq![record]) =~= (match sample_of(record) {
        Some(sample) => seq![sample],
        None => Seq::<SampleText>::empty(),
    }));
    assert(dropping.series + Seq::<SampleText>::empty() =~= dropping.series);
}

/// Over a session the series depends on the stream alone. However the
/// stream is cut into chunks, the series holds the samples of the segments
/// of the stream between the first and the last that respect the limit, in
/// stream order, and nothing else.
pub proof fn lemma_session_series(chunks: Seq<Seq<u8>>, limit: nat)
    ensures
        PipelineState::fresh(limit).after_all(chunks) == PipelineState::fresh(limit).after(
            chunks.flatten(),
        ),
        PipelineState::fresh(limit).after_all(chunks).series == samples_in(
            inner_segments(chunks.flatten()).filter(fits(limit)),
        ),
    decreases chunks.len(),
{
    let start = PipelineState::fresh(limit);
    if chunks.len() == 0 {
        assert(chunks.flatten() =~= Seq::<u8>::empty());
        lemma_after_nothing(start.splitter);
        assert(start.series + samples_in(Seq::<Seq<u8>>::empty()) =~= start.series);
    } else {
        let earlier = chunks.drop_last();
        lemma_session_series(earlier, limit);
        assert(chunks =~= earlier.push(chunks.last()));
        earlier.lemma_flatten_push(chunks.last());
        lemma_ingest_chunking_is_immaterial(start, earlier.flatten(), chunks.last());
    }
    lemma_session_accounts_for_every_byte(chunks, limit);
    lemma_chunking_is_immaterial(start.splitter, chunks);
    assert(start.series + samples_in(start.splitter.records(chunks.flatten())) =~= samples_in(
        start.splitter.records(chunks.flatten()),
    ));
}

/// What became of the records that a chunk completed.
#[derive(Debug, Clone, Copy, PartialEq, Eq, Structural)]
pub struct IngestReport {
    /// The number of records that held a sample, now appended to the
    /// series.
    pub accepted: usize,
    /// The number of records that held none.
    pub rejected: usize,
}

/// The path from chunk to series.
pub struct Pipeline {
    splitter: FrameSplitter,
    series: SeriesBuffer,
}

impl View for Pipeline {
    type V = PipelineState;

    closed spec fn view(&self) -> PipelineState {
        PipelineState { splitter: self.splitter@, series: self.series@ }
    }
}

impl Pipeline {
    /// A pipeline at the start of a session, with an empty series. Records
    /// longer than `limit` bytes will be dropped.
    pub fn new(limit: usize) -> (pipeline: Pipeline)
        ensures
            pipeline@.splitter == SplitterState::fresh(limit as nat),
            pipeline@.series == Seq::<SampleText>::empty(),
    {
        Pipeline { splitter: FrameSplitter::new(limit), series: SeriesBuffer::new() }
    }

    /// Starts a new session on a fresh connection: what was pending is
    /// forgotten and the first record to come is dropped again. The series
    /// stays.
    pub fn begin_session(&mut self)
        ensures
            final(self)@.splitter == SplitterState::fresh(old(self)@.splitter.limit),
            final(self)@.series == old(self)@.series,
    {
        self.splitter.reset();
    }

    /// Takes in the next chunk of the stream: the samples of the records
    /// that it completes are appended to the series, in stream order.
    pub fn ingest(&mut self, chunk: &[u8]) -> (report: IngestReport)
        ensures
            final(self)@ == old(self)@.after(chunk@),
            report.accepted == samples_in(old(self)@.splitter.records(chunk@)).len(),
            report.accepted + report.rejected == old(self)@.splitter.records(chunk@).len(),
    {
        let records = self.splitter.feed(chunk);
        let samples = parse_all(&records);
        let accepted = samples.len();
        proof {
            lemma_samples_in_len(records.deep_view());
            assert(sample_texts(samples@).len() == samples@.len());
        }
        let rejected = records.len() - accepted;
        self.series.append_all(samples);
        IngestReport { accepted, rejected }
    }

    /// The series.
    pub fn series(&self) -> (series: &SeriesBuffer)
        ensures
            series@ == self@.series,
    {
        &self.series
    }

    /// The splitter of the current session.
    pub fn splitter(&self) -> (splitter: &FrameSplitter)
        ensures
            splitter@ == self@.splitter,
    {
        &self.splitter
    }

    /// A copy of the samples accepted so far, in arrival order.
    pub fn snapshot(&self) -> (copy: Vec<Sample>)
        ensures
            sample_texts(copy@) == self@.series,
    {
        self.series.snapshot()
    }

    /// The series as a table, one row per sample in arrival order. This
    /// always succeeds, and the series is not touched.
    pub fn export(&self) -> (result: Result<Vec<u8>, ExportError>)
        ensures
            result matches Ok(bytes) && bytes@ == table_text(self@.series),
    {
        let copy = self.series.snapshot();
        export(copy.as_slice())
    }

    /// Forgets every sample. The session goes on.
    pub fn clear(&mut self)
        ensures
            final(self)@.splitter == old(self)@.splitter,
            final(self)@.series == Seq::<SampleText>::empty(),
    {
        self.series.clear();
    }
}

/// There are no more samples than records.
proof fn lemma_samples_in_len(records: Seq<Seq<u8>>)
    ensures
        samples_in(records).len() <= records.len(),
    decreases records.len(),
{
    if records.len() > 0 {
        lemma_samples_in_len(records.drop_last());
    }
}

} // verus!
