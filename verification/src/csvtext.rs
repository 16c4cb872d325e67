use crate::compression::from_utf8;
use vstd::prelude::*;
use vstd::utf8::{decode_utf8, valid_utf8};

verus! {

/// A `csv::Writer` with the usual settings that writes to memory, and
/// has written whole records only.
#[verifier::external_body]
pub struct CsvWriter {
    writer: csv::Writer<Vec<u8>>,
}

/// The bytes that a writer has been given so far, as CSV.
pub uninterp spec fn written(writer: CsvWriter) -> Seq<u8>;

/// The number of fields that a writer asks of each record: that of the
/// first record it has written, and none before it has written one.
pub uninterp spec fn asked_width(writer: CsvWriter) -> Option<nat>;

/// The CSV form of one record: its fields, quoted where that is needed and
/// with a comma between two of them, and the end of the line.
pub uninterp spec fn record_text(fields: Seq<Seq<char>>) -> Seq<u8>;

/// The texts of the fields of a record.
pub open spec fn fields_of(record: Seq<String>) -> Seq<Seq<char>> {
    Seq::new(record.len(), |i: int| record[i]@)
}

/// The texts of the fields of the records.
pub open spec fn records_of(records: Seq<Vec<String>>) -> Seq<Seq<Seq<char>>> {
    Seq::new(records.len(), |i: int| fields_of(records[i]@))
}

/// Whether every record has as many fields as the first.
pub open spec fn same_width(records: Seq<Seq<Seq<char>>>) -> bool {
    forall|i: int| 0 <= i < records.len() ==> (#[trigger] records[i]).len() == records[0].len()
}

/// The text of what a writer handed over: that of the bytes, where there
/// are bytes and they are UTF-8.
pub open spec fn text_of_written(bytes: Option<Seq<u8>>) -> Option<Seq<char>> {
    match bytes {
        Some(bytes) => if valid_utf8(bytes) {
            Some(decode_utf8(bytes))
        } else {
            None
        },
        None => None,
    }
}

/// The CSV form of the records, one after the other.
pub open spec fn records_text(records: Seq<Seq<Seq<char>>>) -> Seq<u8>
    decreases records.len(),
{
    if records.len() == 0 {
        seq![]
    } else {
        records_text(records.drop_last()) + record_text(records.last())
    }
}

/// `csv::Writer::from_writer` on an empty vector: a writer with the usual
/// settings, which has written nothing and asks no number of fields yet.
#[verifier::external_body]
fn new_writer() -> (writer: CsvWriter)
    ensures
        written(writer) == Seq::<u8>::empty(),
        asked_width(writer) is None,
{
    CsvWriter { writer: csv::Writer::from_writer(Vec::new()) }
}

/// `csv::Writer::write_record`: it writes the fields of the record and the
/// end of the line behind what was written. With the usual settings the
/// first record sets the number of fields that the writer asks of every
/// record after it, and the call fails for a record with another number;
/// writing to memory, it fails for nothing else. A writer that failed is
/// not handed back, so that every writer in use has written whole records
/// only. The contract gives the CSV form of a record a name, as what its
/// fields determine.
#[verifier::external_body]
fn write_record(writer: CsvWriter, record: &Vec<String>) -> (r: Option<CsvWriter>)
    ensures
        r is Some <==> asked_width(writer) is None || asked_width(writer) == Some(record@.len()),
        r matches Some(after) ==> {
            &&& written(after) == written(writer) + record_text(fields_of(record@))
            &&& asked_width(after) == Some(record@.len())
        },
{
    let mut writer = writer;
    match writer.writer.write_record(record) {
        Ok(()) => Some(writer),
        Err(_) => None,
    }
}

/// `csv::Writer::into_inner`: it flushes the writer and hands back the
/// vector, which holds what was written. Flushing to memory does not
/// fail.
#[verifier::external_body]
fn into_inner(writer: CsvWriter) -> (r: Option<Vec<u8>>)
    ensures
        r is Some,
        r matches Some(bytes) ==> bytes@ == written(writer),
{
    writer.writer.into_inner().ok()
}

/// The text of what a writer handed over; `bytes` is what it gave, `None`
/// for its failure.
pub fn written_to_text(bytes: Option<Vec<u8>>) -> (r: Option<String>)
    ensures
        match r {
            Some(text) => bytes is Some && text_of_written(Some(bytes->0@)) == Some(text@),
            None => bytes matches Some(given) ==> text_of_written(Some(given@)) is None,
        },
{
    match bytes {
        Some(bytes) => from_utf8(bytes),
        None => None,
    }
}

/// The CSV text of the records, where they have one: the writer takes no
/// records of different numbers of fields, and what it writes is a text
/// where it is UTF-8.
pub open spec fn csv_of(records: Seq<Seq<Seq<char>>>) -> Option<Seq<char>> {
    if same_width(records) {
        text_of_written(Some(records_text(records)))
    } else {
        None
    }
}

/// The records as CSV text, where they have one.
pub fn csv_text(records: &Vec<Vec<String>>) -> (r: Option<String>)
    ensures
        r is Some <==> csv_of(records_of(records@)) is Some,
        r matches Some(text) ==> csv_of(records_of(records@)) == Some(text@),
{
    let ghost all = records_of(records@);
    let mut writer = new_writer();
    let mut i: usize = 0;
    assert(all.take(0) =~= Seq::empty());
    while i < records.len()
        invariant
            i <= records.len(),
            all == records_of(records@),
            written(writer) == records_text(all.take(i as int)),
            asked_width(writer) == if i == 0 {
                None::<nat>
            } else {
                Some(all[0].len())
            },
            forall|x: int| 0 <= x < i ==> (#[trigger] all[x]).len() == all[0].len(),
        decreases records.len() - i,
    {
        assert(all.take(i + 1).drop_last() =~= all.take(i as int));
        assert(all[i as int].len() == records@[i as int]@.len());
        writer = match write_record(writer, &records[i]) {
            Some(after) => after,
            None => {
                assert(all[i as int].len() != all[0].len());
                return None;
            },
        };
        i += 1;
    }
    assert(all.take(all.len() as int) =~= all);
    written_to_text(into_inner(writer))
}

} // verus!
