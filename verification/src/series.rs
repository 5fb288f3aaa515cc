//! The series of accepted samples.
//!
//! Samples are kept in the order in which they arrived. The buffer only
//! grows until it is cleared for a new session: no sample is changed,
//! reordered or removed, and none is turned away, whatever its position.
//! Readers get a copy and never the buffer itself.

use crate::record::{Sample, SampleText};
use vstd::prelude::*;

verus! {

/// The samples as texts, in the same order.
pub open spec fn sample_texts(samples: Seq<Sample>) -> Seq<SampleText> {
    samples.map_values(|sample: Sample| sample@)
}

/// The series after the samples of `more` have been appended one by one,
/// each as `SeriesBuffer::append` does it.
pub open spec fn after_appending(series: Seq<SampleText>, more: Seq<SampleText>) -> Seq<
    SampleText,
>
    decreases more.len(),
{
    if more.len() == 0 {
        series
    } else {
        after_appending(series, more.drop_last()).push(more.last())
    }
}

/// Appending samples one by one puts them behind what the series held, in
/// the order in which they were appended. No sample is left out, whether its
/// position repeats an earlier one or lies before it.
pub proof fn lemma_appending_keeps_order(series: Seq<SampleText>, more: Seq<SampleText>)
    ensures
        after_appending(series, more) == series + more,
        after_appending(Seq::<SampleText>::empty(), more) == more,
    decreases more.len(),
{
    if more.len() == 0 {
        assert(series + more =~= series);
    } else {
        lemma_appending_keeps_order(series, more.drop_last());
        lemma_appending_keeps_order(Seq::<SampleText>::empty(), more.drop_last());
        assert((series + more.drop_last()).push(more.last()) =~= series + more);
        assert(more.drop_last().push(more.last()) =~= more);
    }
}

/// An ordered store of samples that only grows.
pub struct SeriesBuffer {
    samples: Vec<Sample>,
}

impl View for SeriesBuffer {
    type V = Seq<SampleText>;

    closed spec fn view(&self) -> Seq<SampleText> {
        sample_texts(self.samples@)
    }
}

impl SeriesBuffer {
    /// An empty buffer.
    pub fn new() -> (buffer: SeriesBuffer)
        ensures
            buffer@ == Seq::<SampleText>::empty(),
    {
        let buffer = SeriesBuffer { samples: Vec::new() };
        assert(buffer@ =~= Seq::<SampleText>::empty());
        buffer
    }

    /// Puts `sample` behind the samples already held.
    pub fn append(&mut self, sample: Sample)
        ensures
            final(self)@ == old(self)@.push(sample@),
    {
        self.samples.push(sample);
        assert(self@ =~= old(self)@.push(sample@));
    }

    /// Puts the samples of `more` behind the samples already held, in their
    /// order.
    pub fn append_all(&mut self, more: Vec<Sample>)
        ensures
            final(self)@ == old(self)@ + sample_texts(more@),
    {
        let mut more = more;
        let ghost added = more@;
        self.samples.append(&mut more);
        assert(self@ =~= old(self)@ + sample_texts(added));
    }

    /// The number of samples held.
    pub fn len(&self) -> (len: usize)
        ensures
            len == self@.len(),
    {
        self.samples.len()
    }

    /// Tells whether no sample is held.
    pub fn is_empty(&self) -> (empty: bool)
        ensures
            empty == (self@.len() == 0),
    {
        self.samples.len() == 0
    }

    /// The sample at place `index` in arrival order, if there are that many.
    pub fn get(&self, index: usize) -> (sample: Option<&Sample>)
        ensures
            sample is Some <==> index < self@.len(),
            sample matches Some(found) ==> found@ == self@[index as int],
    {
        if index < self.samples.len() {
            Some(&self.samples[index])
        } else {
            None
        }
    }

    /// A copy of the samples held, in arrival order. Later appends do not
    /// reach the copy.
    pub fn snapshot(&self) -> (copy: Vec<Sample>)
        ensures
            sample_texts(copy@) == self@,
    {
        let mut copy: Vec<Sample> = Vec::new();
        let mut i: usize = 0;
        while i < self.samples.len()
            invariant
                i <= self.samples.len(),
                copy.len() == i,
                forall|j: int| 0 <= j < i ==> (#[trigger] copy@[j])@ == self.samples@[j]@,
            decreases self.samples.len() - i,
        {
            copy.push(self.samples[i].clone());
            i += 1;
        }
        assert(sample_texts(copy@) =~= self@);
        copy
    }

    /// Forgets every sample, for a new session.
    pub fn clear(&mut self)
        ensures
            final(self)@ == Seq::<SampleText>::empty(),
    {
        self.samples.clear();
        assert(self@ =~= Seq::<SampleText>::empty());
    }
}

} // verus!
