//! Writing a series out as a table.
//!
//! The table is comma-separated text with one row per sample, in the order
//! of the series: the position, a comma, the value, a line feed. There is no
//! header row. Each number is written as the record carried it.
//!
//! The rows are produced by the `csv` crate's writer on a buffer in memory,
//! where writing cannot fail. Putting the bytes where they belong is left to
//! the caller, and that can.

use crate::number::{is_number, is_number_byte, lemma_number_bytes};
use crate::record::{Sample, SampleText};
use crate::series::sample_texts;
use vstd::prelude::*;

verus! {

/// The byte between the two columns of a row: a comma.
pub const COLUMN_SEPARATOR: u8 = 44;

/// The byte that ends a row: a line feed.
pub const ROW_END: u8 = 10;

/// The double quote.
pub const QUOTE: u8 = 34;

/// The carriage return.
pub const CARRIAGE_RETURN: u8 = 13;

/// A byte that the table writer does not copy as it is: it would put the
/// field in quotes. These are the comma, the double quote, the carriage
/// return and the line feed.
pub open spec fn is_special(byte: u8) -> bool {
    byte == COLUMN_SEPARATOR || byte == QUOTE || byte == CARRIAGE_RETURN || byte == ROW_END
}

/// A field without special bytes.
pub open spec fn is_plain(field: Seq<u8>) -> bool {
    forall|i: int| 0 <= i < field.len() ==> !is_special(#[trigger] field[i])
}

/// The row of two plain fields.
pub open spec fn row_text(first: Seq<u8>, second: Seq<u8>) -> Seq<u8> {
    first + seq![COLUMN_SEPARATOR] + second + seq![ROW_END]
}

/// The table of a series: the rows of its samples, one after another.
pub open spec fn table_text(samples: Seq<SampleText>) -> Seq<u8>
    decreases samples.len(),
{
    if samples.len() == 0 {
        Seq::<u8>::empty()
    } else {
        table_text(samples.drop_last()) + row_text(samples.last().position, samples.last().value)
    }
}

/// A number holds no special byte.
pub proof fn lemma_number_is_plain(text: Seq<u8>)
    requires
        is_number(text),
    ensures
        is_plain(text),
{
    lemma_number_bytes(text);
    assert forall|i: int| 0 <= i < text.len() implies !is_special(#[trigger] text[i]) by {
        assert(is_number_byte(text[i]));
    }
}

/// Why a series could not be written out.
#[derive(Debug, Clone, Copy, PartialEq, Eq, Structural)]
pub enum ExportError {
    /// The table could not be written to its destination.
    IoFailure,
}

/// A table writer of the `csv` crate on a buffer in memory. Nothing is known
/// of it but what `written` and `at_row_start` say.
#[verifier::external_body]
pub struct TableWriter {
    inner: csv::Writer<Vec<u8>>,
}

/// The error of the `csv` crate, carried through unread.
#[verifier::external_type_specification]
#[verifier::external_body]
pub struct ExTableError(csv::Error);

/// The bytes that a table writer on a buffer has written so far, whether it
/// has handed them to the buffer yet or not.
pub uninterp spec fn written(table: TableWriter) -> Seq<u8>;

/// The table writer stands at the start of a row: every row it has begun is
/// finished, and every finished row has two fields.
pub uninterp spec fn at_row_start(table: TableWriter) -> bool;

/// A table writer on an empty buffer.
///
/// Trusted: this is `csv::Writer::from_writer` on a new `Vec`. The writer has
/// the crate's default settings: a comma between fields, a line feed after
/// each record, quotes only where a field needs them. It has written nothing.
#[verifier::external_body]
fn open_table() -> (table: TableWriter)
    ensures
        written(table) == Seq::<u8>::empty(),
        at_row_start(table),
{
    TableWriter { inner: csv::Writer::from_writer(Vec::new()) }
}

/// Writes one row of two plain fields.
///
/// Trusted: this is `csv::Writer::write_record` with the two fields. At the
/// start of a row it has written the first field, a comma, the second field
/// and a line feed, each field byte for byte since neither holds a byte that
/// calls for quotes, and stands at the start of the next row. It succeeds:
/// the writer fails only where its buffer in memory does, which grows as
/// needed, or where a row has another number of fields than the rows before
/// it, which all have two.
#[verifier::external_body]
fn write_row(table: &mut TableWriter, first: &[u8], second: &[u8]) -> (outcome: Result<
    (),
    csv::Error,
>)
    requires
        at_row_start(*old(table)),
        is_plain(first@),
        is_plain(second@),
    ensures
        outcome is Ok,
        outcome is Ok ==> written(*final(table)) == written(*old(table)) + row_text(
            first@,
            second@,
        ),
        outcome is Ok ==> at_row_start(*final(table)),
{
    table.inner.write_record([first, second])
}

/// Ends the table and hands out its bytes.
///
/// Trusted: this is `csv::Writer::into_inner`, which hands what is still
/// held back to the buffer and returns the buffer. It succeeds, since the
/// buffer in memory takes whatever it is handed, and the buffer then holds
/// what the writer has written, and nothing else.
#[verifier::external_body]
fn close_table(table: TableWriter) -> (bytes: Option<Vec<u8>>)
    ensures
        bytes is Some,
        bytes matches Some(all) ==> all@ == written(table),
{
    table.inner.into_inner().ok()
}

impl ExportError {
    /// The error that stands for a failure of the table writer.
    fn from_writer(error: csv::Error) -> (mapped: ExportError)
        ensures
            mapped == ExportError::IoFailure,
    {
        ExportError::IoFailure
    }
}

/// What an export returns once the table writer has handed out its bytes, or
/// has failed to.
pub fn finished(bytes: Option<Vec<u8>>) -> (result: Result<Vec<u8>, ExportError>)
    ensures
        match bytes {
            Some(all) => result == Ok::<Vec<u8>, ExportError>(all),
            None => result == Err::<Vec<u8>, ExportError>(ExportError::IoFailure),
        },
{
    match bytes {
        Some(all) => Ok(all),
        None => Err(ExportError::IoFailure),
    }
}

/// The table of `samples` as bytes: one row per sample, in order, without a
/// header row. This always succeeds: the table is made in memory. The errors
/// of the table writer are still handled, as `IoFailure`, should it ever
/// report one.
pub fn export(samples: &[Sample]) -> (result: Result<Vec<u8>, ExportError>)
    ensures
        result matches Ok(bytes) && bytes@ == table_text(sample_texts(samples@)),
{
    let mut table = open_table();
    let mut i: usize = 0;
    assert(sample_texts(samples@).take(0) =~= Seq::<SampleText>::empty());
    while i < samples.len()
        invariant
            i <= samples.len(),
            at_row_start(table),
            written(table) == table_text(sample_texts(samples@).take(i as int)),
        decreases samples.len() - i,
    {
        let position = samples[i].position().as_bytes();
        let value = samples[i].value().as_bytes();
        proof {
            lemma_number_is_plain(position@);
            lemma_number_is_plain(value@);
            let texts = sample_texts(samples@);
            assert(texts.take(i + 1).drop_last() =~= texts.take(i as int));
            assert(texts.take(i + 1).last() == samples@[i as int]@);
        }
        match write_row(&mut table, position, value) {
            Ok(()) => {},
            Err(error) => {
                return Err(ExportError::from_writer(error));
            },
        }
        i += 1;
    }
    assert(sample_texts(samples@).take(i as int) =~= sample_texts(samples@));
    finished(close_table(table))
}

} // verus!
