//! Framing of a raw byte stream into newline-delimited records.
//!
//! The stream arrives in chunks of arbitrary size. A record is the run of
//! bytes between two delimiters. What follows the last delimiter is held back
//! until its delimiter arrives. Two rules decide which complete records are
//! handed on:
//!
//! * the first record of a session is dropped: a device is usually joined in
//!   the middle of a line, or starts with a header line;
//! * a record longer than the splitter's limit is dropped, and nothing of it
//!   is kept in memory beyond the limit.
//!
//! The header rule applies once per session, not once per chunk, so the
//! records produced depend on the bytes of the stream alone and never on how
//! the stream was cut into chunks.

use vstd::prelude::*;

verus! {

/// The byte that ends a record: a line feed.
pub const DELIMITER: u8 = 10;

/// A limit that suits lines of two numbers with room to spare.
pub const RECORD_LIMIT: usize = 1024;

/// `data` cut at every delimiter. The delimiters themselves are left out.
/// There is always one segment more than there are delimiters: the last
/// segment is what follows the last delimiter, and may be empty.
pub open spec fn segments(data: Seq<u8>) -> Seq<Seq<u8>>
    decreases data.len(),
{
    if data.len() == 0 {
        seq![Seq::<u8>::empty()]
    } else {
        let before = segments(data.drop_last());
        if data.last() == DELIMITER {
            before.push(Seq::<u8>::empty())
        } else {
            before.drop_last().push(before.last().push(data.last()))
        }
    }
}

/// The segments put together again, with one delimiter between neighbours.
pub open spec fn joined(parts: Seq<Seq<u8>>) -> Seq<u8>
    decreases parts.len(),
{
    if parts.len() == 0 {
        Seq::<u8>::empty()
    } else if parts.len() == 1 {
        parts[0]
    } else {
        joined(parts.drop_last()) + seq![DELIMITER] + parts.last()
    }
}

/// The test that a byte belongs to a record.
pub open spec fn payload() -> spec_fn(u8) -> bool {
    |byte: u8| byte != DELIMITER
}

/// `data` without its delimiters.
pub open spec fn without_delimiters(data: Seq<u8>) -> Seq<u8> {
    data.filter(payload())
}

/// No byte of `data` is a delimiter.
pub open spec fn delimiter_free(data: Seq<u8>) -> bool {
    forall|i: int| 0 <= i < data.len() ==> data[i] != DELIMITER
}

/// The test that a record is short enough to be handed on.
pub open spec fn fits(limit: nat) -> spec_fn(Seq<u8>) -> bool {
    |record: Seq<u8>| record.len() <= limit
}

/// There is at least one segment, and none of them holds a delimiter.
pub proof fn lemma_segments_shape(data: Seq<u8>)
    ensures
        segments(data).len() >= 1,
        forall|i: int| 0 <= i < segments(data).len() ==> delimiter_free(#[trigger] segments(data)[i]),
    decreases data.len(),
{
    if data.len() > 0 {
        lemma_segments_shape(data.drop_last());
    }
}

/// Cutting loses nothing: the segments joined by delimiters are the data.
pub proof fn lemma_segments_rejoin(data: Seq<u8>)
    ensures
        joined(segments(data)) == data,
    decreases data.len(),
{
    lemma_segments_shape(data);
    if data.len() == 0 {
    } else {
        let rest = data.drop_last();
        let before = segments(rest);
        lemma_segments_shape(rest);
        lemma_segments_rejoin(rest);
        if data.last() == DELIMITER {
            let now = before.push(Seq::<u8>::empty());
            assert(now.drop_last() == before);
            assert(joined(now) == joined(before) + seq![DELIMITER] + Seq::<u8>::empty());
            assert(rest + seq![DELIMITER] + Seq::<u8>::empty() =~= data);
        } else {
            let grown = before.last().push(data.last());
            let now = before.drop_last().push(grown);
            assert(now.drop_last() == before.drop_last());
            if before.len() == 1 {
                assert(joined(before) == before[0]);
                assert(joined(now) == grown);
                assert(grown =~= data);
            } else {
                assert(joined(before) == joined(before.drop_last()) + seq![DELIMITER]
                    + before.last());
                assert(joined(now) == joined(before.drop_last()) + seq![DELIMITER] + grown);
                assert(joined(before.drop_last()) + seq![DELIMITER] + grown =~= rest.push(
                    data.last(),
                ));
                assert(rest.push(data.last()) =~= data);
            }
        }
    }
}

/// Cutting neither loses nor doubles a byte: the segments one after another
/// are the data without its delimiters.
pub proof fn lemma_segments_flatten(data: Seq<u8>)
    ensures
        segments(data).flatten() == without_delimiters(data),
    decreases data.len(),
{
    broadcast use Seq::lemma_flatten_push;

    if data.len() == 0 {
        assert(segments(data).flatten() =~= Seq::<u8>::empty()) by {
            segments(data).lemma_flatten_singleton();
        }
        assert(without_delimiters(data) =~= Seq::<u8>::empty()) by {
            reveal(Seq::filter);
        }
    } else {
        let rest = data.drop_last();
        let before = segments(rest);
        lemma_segments_shape(rest);
        lemma_segments_flatten(rest);
        assert(rest.push(data.last()) =~= data);
        rest.lemma_filter_push(data.last(), payload());
        if data.last() == DELIMITER {
            assert(before.push(Seq::<u8>::empty()).flatten() =~= before.flatten());
        } else {
            assert(before =~= before.drop_last().push(before.last()));
            assert(before.drop_last().push(before.last().push(data.last())).flatten()
                =~= before.flatten().push(data.last()));
        }
    }
}

/// Data without a delimiter is a single segment: itself.
pub proof fn lemma_segments_of_delimiter_free(data: Seq<u8>)
    requires
        delimiter_free(data),
    ensures
        segments(data) == seq![data],
    decreases data.len(),
{
    if data.len() == 0 {
        assert(data == Seq::<u8>::empty());
    } else {
        lemma_segments_of_delimiter_free(data.drop_last());
        let before = segments(data.drop_last());
        assert(before.last().push(data.last()) =~= data);
        assert(before.drop_last().push(data) =~= seq![data]);
    }
}

/// What a splitter carries from one chunk to the next.
pub struct SplitterState {
    /// The bytes received since the last delimiter, unless they are being
    /// discarded.
    pub pending: Seq<u8>,
    /// No delimiter has been seen yet in this session.
    pub awaiting_first: bool,
    /// The record in progress has outgrown the limit; its bytes are dropped
    /// until the next delimiter.
    pub discarding: bool,
    /// The longest record that is handed on.
    pub limit: nat,
}

impl SplitterState {
    /// The state at the start of a session.
    pub open spec fn fresh(limit: nat) -> SplitterState {
        SplitterState {
            pending: Seq::<u8>::empty(),
            awaiting_first: true,
            discarding: false,
            limit,
        }
    }

    /// The pending bytes hold no delimiter and respect the limit, and nothing
    /// is pending while a record is being discarded.
    pub open spec fn wf(self) -> bool {
        &&& delimiter_free(self.pending)
        &&& self.pending.len() <= self.limit
        &&& self.discarding ==> self.pending.len() == 0
    }

    /// The records that `chunk` completes, the first of them begun by the
    /// pending bytes.
    pub open spec fn completed(self, chunk: Seq<u8>) -> Seq<Seq<u8>> {
        segments(self.pending + chunk).drop_last()
    }

    /// What follows the last delimiter once `chunk` has arrived.
    pub open spec fn tail(self, chunk: Seq<u8>) -> Seq<u8> {
        segments(self.pending + chunk).last()
    }

    /// The next record to be completed is dropped whatever it holds: it is
    /// the first of the session, or the end of a record that was too long.
    pub open spec fn drops_next(self) -> bool {
        self.awaiting_first || self.discarding
    }

    /// The completed records that are judged by their length.
    pub open spec fn candidates(self, chunk: Seq<u8>) -> Seq<Seq<u8>> {
        let done = self.completed(chunk);
        if self.drops_next() && done.len() > 0 {
            done.drop_first()
        } else {
            done
        }
    }

    /// The records handed on when `chunk` arrives, in stream order.
    pub open spec fn records(self, chunk: Seq<u8>) -> Seq<Seq<u8>> {
        self.candidates(chunk).filter(fits(self.limit))
    }

    /// The record in progress after `chunk` is too long to be kept.
    pub open spec fn overflows(self, chunk: Seq<u8>) -> bool {
        self.tail(chunk).len() > self.limit || (self.discarding && self.completed(chunk).len()
            == 0)
    }

    /// The state once `chunk` has arrived.
    pub open spec fn after(self, chunk: Seq<u8>) -> SplitterState {
        SplitterState {
            pending: if self.overflows(chunk) {
                Seq::<u8>::empty()
            } else {
                self.tail(chunk)
            },
            awaiting_first: self.awaiting_first && self.completed(chunk).len() == 0,
            discarding: self.overflows(chunk),
            limit: self.limit,
        }
    }

    /// The state once every chunk of `chunks` has arrived, one after another.
    pub open spec fn after_all(self, chunks: Seq<Seq<u8>>) -> SplitterState
        decreases chunks.len(),
    {
        if chunks.len() == 0 {
            self
        } else {
            self.after_all(chunks.drop_last()).after(chunks.last())
        }
    }

    /// The records handed on while the chunks of `chunks` arrive one after
    /// another, in the order in which they are handed on.
    pub open spec fn records_all(self, chunks: Seq<Seq<u8>>) -> Seq<Seq<u8>>
        decreases chunks.len(),
    {
        if chunks.len() == 0 {
            Seq::<Seq<u8>>::empty()
        } else {
            self.records_all(chunks.drop_last()) + self.after_all(chunks.drop_last()).records(
                chunks.last(),
            )
        }
    }

    /// The state between two records, with nothing pending, after the first
    /// record of the session.
    pub open spec fn between_records(limit: nat) -> SplitterState {
        SplitterState {
            pending: Seq::<u8>::empty(),
            awaiting_first: false,
            discarding: false,
            limit,
        }
    }

    /// The state once a single byte has arrived.
    pub open spec fn step(self, byte: u8) -> SplitterState {
        if byte == DELIMITER {
            SplitterState::between_records(self.limit)
        } else if self.discarding {
            self
        } else if self.pending.len() >= self.limit {
            SplitterState {
                pending: Seq::<u8>::empty(),
                awaiting_first: self.awaiting_first,
                discarding: true,
                limit: self.limit,
            }
        } else {
            SplitterState {
                pending: self.pending.push(byte),
                awaiting_first: self.awaiting_first,
                discarding: false,
                limit: self.limit,
            }
        }
    }

    /// The records handed on when a single byte arrives: the pending bytes if
    /// the byte is a delimiter that ends a record worth keeping, else none.
    pub open spec fn step_records(self, byte: u8) -> Seq<Seq<u8>> {
        if byte == DELIMITER && !self.drops_next() {
            seq![self.pending]
        } else {
            Seq::<Seq<u8>>::empty()
        }
    }
}

/// Whatever came before, the state after a chunk is well formed.
pub proof fn lemma_after_wf(state: SplitterState, chunk: Seq<u8>)
    ensures
        state.after(chunk).wf(),
        state.after(chunk).limit == state.limit,
{
    lemma_segments_shape(state.pending + chunk);
}

/// A chunk that grows by one byte has the effect of the shorter chunk
/// followed by the step for that byte.
pub proof fn lemma_after_push(state: SplitterState, chunk: Seq<u8>, byte: u8)
    ensures
        state.after(chunk.push(byte)) == state.after(chunk).step(byte),
        state.records(chunk.push(byte)) == state.records(chunk) + state.after(chunk).step_records(
            byte,
        ),
{
    let data = state.pending + chunk;
    let more = state.pending + chunk.push(byte);
    assert(more.drop_last() =~= data);
    assert(more.last() == byte);
    lemma_segments_shape(data);
    let segs = segments(data);
    let done = state.completed(chunk);
    let tail = state.tail(chunk);
    let mid = state.after(chunk);
    if byte == DELIMITER {
        assert(segments(more) == segs.push(Seq::<u8>::empty()));
        assert(state.completed(chunk.push(byte)) =~= segs);
        assert(segs =~= done.push(tail));
        if state.drops_next() && done.len() == 0 {
            assert(state.candidates(chunk.push(byte)) =~= Seq::<Seq<u8>>::empty());
            assert(state.candidates(chunk) =~= Seq::<Seq<u8>>::empty());
            assert(state.records(chunk.push(byte)) =~= state.records(chunk)) by {
                reveal(Seq::filter);
            }
            assert(state.records(chunk) + mid.step_records(byte) =~= state.records(chunk));
        } else {
            assert(state.candidates(chunk.push(byte)) =~= state.candidates(chunk).push(tail));
            state.candidates(chunk).lemma_filter_push(tail, fits(state.limit));
            if tail.len() <= state.limit {
                assert(state.records(chunk).push(tail) =~= state.records(chunk)
                    + mid.step_records(byte));
            } else {
                assert(state.records(chunk) + mid.step_records(byte) =~= state.records(chunk));
            }
        }
        assert(state.after(chunk.push(byte)) == mid.step(byte));
    } else {
        assert(segments(more) == segs.drop_last().push(tail.push(byte)));
        assert(state.completed(chunk.push(byte)) =~= done);
        assert(state.tail(chunk.push(byte)) == tail.push(byte));
        assert(state.records(chunk) + mid.step_records(byte) =~= state.records(chunk));
        assert(state.after(chunk.push(byte)) == mid.step(byte));
    }
}

/// A well-formed state is left unchanged by an empty chunk, which completes
/// nothing.
pub proof fn lemma_after_nothing(state: SplitterState)
    requires
        state.wf(),
    ensures
        state.after(Seq::<u8>::empty()) == state,
        state.records(Seq::<u8>::empty()) == Seq::<Seq<u8>>::empty(),
{
    assert(state.pending + Seq::<u8>::empty() =~= state.pending);
    lemma_segments_of_delimiter_free(state.pending);
    assert(state.completed(Seq::<u8>::empty()) =~= Seq::<Seq<u8>>::empty());
    assert(state.records(Seq::<u8>::empty()) =~= Seq::<Seq<u8>>::empty()) by {
        reveal(Seq::filter);
    }
    assert(state.after(Seq::<u8>::empty()).pending =~= state.pending);
}

/// Cutting a chunk in two changes nothing: the records of the whole are the
/// records of the first part followed by those of the second, and the state
/// at the end is the same.
pub proof fn lemma_after_concat(state: SplitterState, first: Seq<u8>, second: Seq<u8>)
    ensures
        state.after(first + second) == state.after(first).after(second),
        state.records(first + second) == state.records(first) + state.after(first).records(
            second,
        ),
    decreases second.len(),
{
    let mid = state.after(first);
    lemma_after_wf(state, first);
    if second.len() == 0 {
        assert(first + second =~= first);
        assert(second =~= Seq::<u8>::empty());
        lemma_after_nothing(mid);
        assert(state.records(first) + mid.records(second) =~= state.records(first));
    } else {
        let shorter = second.drop_last();
        let byte = second.last();
        lemma_after_concat(state, first, shorter);
        assert(first + second =~= (first + shorter).push(byte));
        assert(second =~= shorter.push(byte));
        lemma_after_push(state, first + shorter, byte);
        lemma_after_push(mid, shorter, byte);
        assert(state.records(first) + (mid.records(shorter) + mid.after(shorter).step_records(
            byte,
        )) =~= (state.records(first) + mid.records(shorter)) + mid.after(shorter).step_records(
            byte,
        ));
    }
}

/// How a stream is cut into chunks does not matter: feeding the chunks one
/// after another hands on the records of the whole stream, in the same order,
/// and ends in the same state.
pub proof fn lemma_chunking_is_immaterial(state: SplitterState, chunks: Seq<Seq<u8>>)
    requires
        state.wf(),
    ensures
        state.after_all(chunks) == state.after(chunks.flatten()),
        state.records_all(chunks) == state.records(chunks.flatten()),
    decreases chunks.len(),
{
    if chunks.len() == 0 {
        assert(chunks.flatten() =~= Seq::<u8>::empty());
        lemma_after_nothing(state);
    } else {
        let earlier = chunks.drop_last();
        lemma_chunking_is_immaterial(state, earlier);
        assert(chunks =~= earlier.push(chunks.last()));
        earlier.lemma_flatten_push(chunks.last());
        lemma_after_concat(state, earlier.flatten(), chunks.last());
    }
}

/// The segments of a stream between its first segment and its last: the
/// records of a session that are judged by their length.
pub open spec fn inner_segments(stream: Seq<u8>) -> Seq<Seq<u8>> {
    let segs = segments(stream);
    if segs.len() >= 2 {
        segs.subrange(1, segs.len() - 1)
    } else {
        Seq::<Seq<u8>>::empty()
    }
}

/// Every segment of the stream is short enough to be handed on.
pub open spec fn all_fit(stream: Seq<u8>, limit: nat) -> bool {
    forall|i: int| 0 <= i < segments(stream).len() ==> (#[trigger] segments(stream)[i]).len() <= limit
}

/// No byte is lost or doubled over a session, however the stream is cut into
/// chunks. The records handed on are the segments of the stream between the
/// first and the last that respect the limit, in stream order. The last
/// segment is what is held back. The segments joined by delimiters are the
/// stream. Where no segment is too long, the first segment, the bytes of the
/// records and the bytes held back, one after another, are the stream without
/// its delimiters.
pub proof fn lemma_session_accounts_for_every_byte(chunks: Seq<Seq<u8>>, limit: nat)
    ensures
        ({
            let start = SplitterState::fresh(limit);
            let stream = chunks.flatten();
            let segs = segments(stream);
            let records = start.records_all(chunks);
            let end = start.after_all(chunks);
            &&& joined(segs) == stream
            &&& segs.flatten() == without_delimiters(stream)
            &&& records == inner_segments(stream).filter(fits(limit))
            &&& end.awaiting_first == (segs.len() == 1)
            &&& end.discarding == (segs.last().len() > limit)
            &&& !end.discarding ==> end.pending == segs.last()
            &&& all_fit(stream, limit) && segs.len() >= 2 ==> segs.first() + records.flatten()
                + end.pending == without_delimiters(stream)
        }),
{
    let start = SplitterState::fresh(limit);
    let stream = chunks.flatten();
    let segs = segments(stream);
    let records = start.records_all(chunks);
    let end = start.after_all(chunks);
    lemma_chunking_is_immaterial(start, chunks);
    lemma_segments_rejoin(stream);
    lemma_segments_flatten(stream);
    lemma_segments_shape(stream);
    assert(start.pending + stream =~= stream);
    let done = segs.drop_last();
    if segs.len() >= 2 {
        assert(done.drop_first() =~= segs.subrange(1, segs.len() - 1));
    } else {
        assert(done =~= Seq::<Seq<u8>>::empty());
    }
    assert(start.candidates(stream) =~= inner_segments(stream));
    if all_fit(stream, limit) && segs.len() >= 2 {
        let inner = inner_segments(stream);
        assert(inner.filter(fits(limit)) == inner) by {
            lemma_filter_keeps_all(inner, limit);
        }
        assert(segs =~= seq![segs.first()] + inner + seq![segs.last()]);
        vstd::seq_lib::lemma_flatten_concat(seq![segs.first()] + inner, seq![segs.last()]);
        vstd::seq_lib::lemma_flatten_concat(seq![segs.first()], inner);
        seq![segs.first()].lemma_flatten_singleton();
        seq![segs.last()].lemma_flatten_singleton();
    }
}

/// Records that all respect the limit are all handed on.
proof fn lemma_filter_keeps_all(records: Seq<Seq<u8>>, limit: nat)
    requires
        forall|i: int| 0 <= i < records.len() ==> (#[trigger] records[i]).len() <= limit,
    ensures
        records.filter(fits(limit)) == records,
    decreases records.len(),
{
    reveal(Seq::filter);
    if records.len() > 0 {
        lemma_filter_keeps_all(records.drop_last(), limit);
        assert(records.drop_last().push(records.last()) =~= records);
    }
}

/// A record that outgrows the limit before its delimiter arrives is dropped
/// whole. While it arrives nothing of it is kept. Its delimiter leaves the
/// splitter between two records with nothing pending, so whatever follows is
/// cut as if the overlong record had never been sent.
pub proof fn lemma_overlong_record_is_dropped(state: SplitterState, body: Seq<u8>, rest: Seq<u8>)
    requires
        state.wf(),
        delimiter_free(body),
        state.discarding || state.pending.len() + body.len() > state.limit,
    ensures
        state.after(body).discarding,
        state.after(body).pending.len() == 0,
        state.records(body.push(DELIMITER)) == Seq::<Seq<u8>>::empty(),
        state.after(body.push(DELIMITER)) == SplitterState::between_records(state.limit),
        state.records(body.push(DELIMITER) + rest) == SplitterState::between_records(
            state.limit,
        ).records(rest),
        state.after(body.push(DELIMITER) + rest) == SplitterState::between_records(
            state.limit,
        ).after(rest),
{
    lemma_segments_of_delimiter_free(state.pending + body);
    assert(state.completed(body) =~= Seq::<Seq<u8>>::empty());
    assert(state.records(body) =~= Seq::<Seq<u8>>::empty()) by {
        reveal(Seq::filter);
    }
    lemma_after_push(state, body, DELIMITER);
    assert(state.records(body) + state.after(body).step_records(DELIMITER) =~= Seq::<
        Seq<u8>,
    >::empty());
    lemma_after_concat(state, body.push(DELIMITER), rest);
    assert(state.records(body.push(DELIMITER)) + SplitterState::between_records(
        state.limit,
    ).records(rest) =~= SplitterState::between_records(state.limit).records(rest));
}

/// Cuts a stream of chunks into records.
pub struct FrameSplitter {
    pending: Vec<u8>,
    awaiting_first: bool,
    discarding: bool,
    limit: usize,
}

impl View for FrameSplitter {
    type V = SplitterState;

    closed spec fn view(&self) -> SplitterState {
        SplitterState {
            pending: self.pending@,
            awaiting_first: self.awaiting_first,
            discarding: self.discarding,
            limit: self.limit as nat,
        }
    }
}

impl FrameSplitter {
    #[verifier::type_invariant]
    spec fn well_formed(self) -> bool {
        self@.wf()
    }

    /// A splitter at the start of a session. Records longer than `limit`
    /// bytes will be dropped.
    pub fn new(limit: usize) -> (splitter: FrameSplitter)
        ensures
            splitter@ == SplitterState::fresh(limit as nat),
            splitter@.wf(),
    {
        FrameSplitter { pending: Vec::new(), awaiting_first: true, discarding: false, limit }
    }

    /// Starts a new session: what was pending is forgotten, and the first
    /// record to come is dropped again.
    pub fn reset(&mut self)
        ensures
            final(self)@ == SplitterState::fresh(old(self)@.limit),
            final(self)@.wf(),
    {
        self.pending = Vec::new();
        self.discarding = false;
        self.awaiting_first = true;
    }

    /// The longest record that is handed on.
    pub fn limit(&self) -> (limit: usize)
        ensures
            limit == self@.limit,
    {
        self.limit
    }

    /// The bytes held back until their delimiter arrives.
    pub fn pending(&self) -> (pending: &[u8])
        ensures
            pending@ == self@.pending,
            pending@.len() <= self@.limit,
            delimiter_free(pending@),
    {
        proof {
            use_type_invariant(self);
        }
        self.pending.as_slice()
    }

    /// No delimiter has arrived yet in this session.
    pub fn is_awaiting_first(&self) -> (awaiting: bool)
        ensures
            awaiting == self@.awaiting_first,
    {
        self.awaiting_first
    }

    /// The record in progress has outgrown the limit and is being dropped.
    pub fn is_discarding(&self) -> (discarding: bool)
        ensures
            discarding == self@.discarding,
    {
        self.discarding
    }

    /// Takes the next chunk of the stream and returns the records that it
    /// completes, in stream order. The first record of the session and every
    /// record longer than the limit are left out. What follows the last
    /// delimiter is held back for the next call.
    pub fn feed(&mut self, chunk: &[u8]) -> (records: Vec<Vec<u8>>)
        ensures
            final(self)@ == old(self)@.after(chunk@),
            records.deep_view() == old(self)@.records(chunk@),
            final(self)@.wf(),
    {
        proof {
            use_type_invariant(&*self);
        }
        let ghost start = self@;
        let limit = self.limit;
        let mut awaiting_first = self.awaiting_first;
        let mut discarding = self.discarding;
        let mut pending: Vec<u8> = Vec::new();
        core::mem::swap(&mut pending, &mut self.pending);
        let mut records: Vec<Vec<u8>> = Vec::new();
        let mut i: usize = 0;
        proof {
            lemma_after_nothing(start);
            assert(chunk@.take(0) =~= Seq::<u8>::empty());
            assert(records.deep_view() =~= Seq::<Seq<u8>>::empty());
        }
        while i < chunk.len()
            invariant
                i <= chunk.len(),
                limit == start.limit,
                (SplitterState {
                    pending: pending@,
                    awaiting_first,
                    discarding,
                    limit: limit as nat,
                }) == start.after(chunk@.take(i as int)),
                records.deep_view() == start.records(chunk@.take(i as int)),
            decreases chunk.len() - i,
        {
            let byte = chunk[i];
            proof {
                lemma_after_wf(start, chunk@.take(i as int));
                lemma_after_push(start, chunk@.take(i as int), byte);
                assert(chunk@.take(i + 1) =~= chunk@.take(i as int).push(byte));
            }
            let ghost before = records.deep_view();
            if byte == DELIMITER {
                if awaiting_first || discarding {
                    pending.clear();
                } else {
                    let mut record: Vec<u8> = Vec::new();
                    core::mem::swap(&mut record, &mut pending);
                    assert(record.deep_view() =~= record@);
                    records.push(record);
                    assert(records.deep_view() =~= before.push(record@));
                    assert(before.push(record@) =~= before + seq![record@]);
                }
                awaiting_first = false;
                discarding = false;
            } else if !discarding {
                if pending.len() >= limit {
                    pending.clear();
                    discarding = true;
                } else {
                    pending.push(byte);
                }
            }
            assert(records.deep_view() =~= start.records(chunk@.take(i + 1)));
            i += 1;
        }
        proof {
            assert(chunk@.take(i as int) =~= chunk@);
            lemma_after_wf(start, chunk@);
        }
        self.discarding = discarding;
        self.awaiting_first = awaiting_first;
        self.pending = pending;
        records
    }
}

} // verus!
