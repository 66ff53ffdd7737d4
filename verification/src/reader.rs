//! Reading records out of a byte buffer.
//!
//! The splitting of bytes into fields is done by the `csv` crate. What it
//! yields for a given buffer is not defined here: it is named by
//! [`first_record`], and everything else is stated over that name. A
//! [`Reader`] holds what a read yields against the bytes that are there, and
//! against the number of fields of the first record.

use vstd::prelude::*;
use vstd::slice::slice_subrange;
use crate::error::JoinError;
use crate::relation::uniform;
use crate::row::{row_view, Fields, Row};

verus! {

/// What one read at the front of a buffer comes to.
pub enum Parsed {
    /// A record, and the number of bytes that the read took.
    Record { fields: Seq<Seq<u8>>, used: nat },
    /// Nothing but the end of the buffer.
    End,
    /// The bytes could not be read as a record.
    Malformed,
}

/// The executable form of [`Parsed`].
pub enum ReadStep {
    Record { fields: Vec<Vec<u8>>, used: u64 },
    End,
    Malformed,
}

impl View for ReadStep {
    type V = Parsed;

    open spec fn view(&self) -> Parsed {
        match self {
            ReadStep::Record { fields, used } => Parsed::Record {
                fields: row_view(*fields),
                used: *used as nat,
            },
            ReadStep::End => Parsed::End,
            ReadStep::Malformed => Parsed::Malformed,
        }
    }
}

/// The outcome of reading one record from the front of `input` with the `csv`
/// crate, fields separated by `delimiter`.
pub uninterp spec fn first_record(input: Seq<u8>, delimiter: u8) -> Parsed;

/// Reads one record from the front of `input` with the `csv` crate.
///
/// A reader is made by `csv::ReaderBuilder` with `has_headers(false)` and the
/// delimiter given, `csv::Reader::read_byte_record` is called on it once,
/// and a record comes with `csv::Reader::position().byte()`, the number of
/// bytes that the reader has taken from `input`.
///
/// Not verified: that these calls give the same outcome whenever `input` and
/// `delimiter` are the same. That outcome is what [`first_record`] names;
/// nothing else is claimed of it.
#[verifier::external_body]
fn read_first(input: &[u8], delimiter: u8) -> (step: ReadStep)
    ensures
        step@ == first_record(input@, delimiter),
{
    let mut rdr = csv::ReaderBuilder::new().has_headers(false).delimiter(delimiter).from_reader(input);
    let mut record = csv::ByteRecord::new();
    match rdr.read_byte_record(&mut record) {
        Ok(true) => ReadStep::Record {
            fields: record.iter().map(<[u8]>::to_vec).collect(),
            used: rdr.position().byte(),
        },
        Ok(false) => ReadStep::End,
        Err(_) => ReadStep::Malformed,
    }
}

/// One step of a scan of a dataset.
pub enum Step {
    /// A row, and the offset at which the next read starts.
    Row { fields: Fields, next: nat },
    /// The data ends here.
    End,
    /// No row can be had here.
    Fault,
}

/// What a read comes to that had `left` bytes before it: the end, a fault
/// where the bytes are malformed or the read took no bytes or more than
/// `left`, and else a row, with the number of bytes taken for `next`.
pub open spec fn settled(parsed: Parsed, left: nat) -> Step {
    match parsed {
        Parsed::End => Step::End,
        Parsed::Malformed => Step::Fault,
        Parsed::Record { fields, used } => if used == 0 || used > left {
            Step::Fault
        } else {
            Step::Row { fields, next: used }
        },
    }
}

/// Holds the outcome of a read against the `left` bytes that it had before
/// it: gives the fields and the number of bytes taken, `None` at the end,
/// and [`JoinError::Parse`] for a fault.
pub fn settle(step: ReadStep, left: usize) -> (res: Result<Option<(Row, usize)>, JoinError>)
    ensures
        match settled(step@, left as nat) {
            Step::End => res == Ok::<Option<(Row, usize)>, JoinError>(None),
            Step::Fault => res == Err::<Option<(Row, usize)>, JoinError>(JoinError::Parse),
            Step::Row { fields, next } => {
                &&& res matches Ok(Some(taken))
                &&& row_view(taken.0) == fields
                &&& taken.1 == next
            },
        },
{
    match step {
        ReadStep::End => Ok(None),
        ReadStep::Malformed => Err(JoinError::Parse),
        ReadStep::Record { fields, used } => {
            if used == 0 || used > left as u64 {
                Err(JoinError::Parse)
            } else {
                Ok(Some((fields, used as usize)))
            }
        },
    }
}

/// The step that a read of `data` takes at byte `pos`, whatever the number of
/// fields: a fault where `pos` lies behind the end, and else what the read of
/// the bytes from `pos` on comes to, with the offset behind the row for
/// `next`.
pub open spec fn raw_step(data: Seq<u8>, delimiter: u8, pos: nat) -> Step {
    if pos > data.len() {
        Step::Fault
    } else {
        match settled(
            first_record(data.subrange(pos as int, data.len() as int), delimiter),
            (data.len() - pos) as nat,
        ) {
            Step::Row { fields, next } => Step::Row { fields, next: pos + next },
            other => other,
        }
    }
}

/// The step that a scan for rows of `width` fields takes at `pos`: that of
/// [`raw_step`], but a fault where the record has another number of fields.
pub open spec fn step_at(data: Seq<u8>, delimiter: u8, width: nat, pos: nat) -> Step {
    match raw_step(data, delimiter, pos) {
        Step::Row { fields, next } => if fields.len() == width {
            Step::Row { fields, next }
        } else {
            Step::Fault
        },
        other => other,
    }
}

/// The rows of `data` from `pos` to its end, or `None` where a step faults.
pub open spec fn scan_from(data: Seq<u8>, delimiter: u8, width: nat, pos: nat) -> Option<
    Seq<Fields>,
>
    decreases data.len() - pos,
{
    match step_at(data, delimiter, width, pos) {
        Step::End => Some(Seq::empty()),
        Step::Fault => None,
        Step::Row { fields, next } => match scan_from(data, delimiter, width, next) {
            None => None,
            Some(rest) => Some(seq![fields] + rest),
        },
    }
}

/// `rows` put in front of what a scan gives.
pub open spec fn preceded(rows: Seq<Fields>, scan: Option<Seq<Fields>>) -> Option<Seq<Fields>> {
    match scan {
        None => None,
        Some(rest) => Some(rows + rest),
    }
}

/// A scan that has read `rows` and stands before a row goes on behind it.
pub proof fn lemma_scan_step(
    data: Seq<u8>,
    delimiter: u8,
    width: nat,
    rows: Seq<Fields>,
    pos: nat,
)
    requires
        step_at(data, delimiter, width, pos) is Row,
    ensures
        preceded(rows, scan_from(data, delimiter, width, pos)) == preceded(
            rows.push(step_at(data, delimiter, width, pos)->fields),
            scan_from(data, delimiter, width, step_at(data, delimiter, width, pos)->next),
        ),
{
    let fields = step_at(data, delimiter, width, pos)->fields;
    let next = step_at(data, delimiter, width, pos)->next;
    match scan_from(data, delimiter, width, next) {
        None => {},
        Some(rest) => {
            assert(rows + (seq![fields] + rest) =~= rows.push(fields) + rest);
        },
    }
}

/// Every row of a scan has `width` fields.
pub proof fn lemma_scan_uniform(data: Seq<u8>, delimiter: u8, width: nat, pos: nat)
    ensures
        scan_from(data, delimiter, width, pos) matches Some(rows) ==> uniform(rows, width),
    decreases data.len() - pos,
{
    match step_at(data, delimiter, width, pos) {
        Step::Row { fields, next } => {
            lemma_scan_uniform(data, delimiter, width, next);
        },
        _ => {},
    }
}

/// A reader over a dataset held in memory.
///
/// The first record gives the headers and the number of fields that every
/// row must have; where `no_headers` is set it is a data row as well. The
/// reader stands at a byte offset, reads the row that starts there, and can
/// be put at any other offset.
pub struct Reader<'a> {
    data: &'a [u8],
    delimiter: u8,
    no_headers: bool,
    headers: Row,
    after_first: usize,
    pos: usize,
}

impl<'a> Reader<'a> {
    #[verifier::type_invariant]
    spec fn inv(self) -> bool {
        &&& self.pos <= self.data@.len()
        &&& self.after_first <= self.data@.len()
        &&& match raw_step(self.data@, self.delimiter, 0) {
            Step::Row { fields, next } => row_view(self.headers) == fields && self.after_first
                == next,
            Step::End => self.headers@.len() == 0 && self.after_first == 0,
            Step::Fault => false,
        }
    }

    /// The bytes of the dataset.
    pub closed spec fn data(self) -> Seq<u8> {
        self.data@
    }

    /// The byte that separates fields.
    pub closed spec fn delimiter(self) -> u8 {
        self.delimiter
    }

    /// Whether the first record is a data row too.
    pub closed spec fn no_headers(self) -> bool {
        self.no_headers
    }

    /// The fields of the first record; none where the dataset is empty.
    pub closed spec fn headers(self) -> Fields {
        row_view(self.headers)
    }

    /// The offset behind the first record; 0 where the dataset is empty.
    pub closed spec fn after_first(self) -> nat {
        self.after_first as nat
    }

    /// The offset at which the next read starts.
    pub closed spec fn pos(self) -> nat {
        self.pos as nat
    }

    /// The number of fields of every row.
    pub open spec fn width(self) -> nat {
        self.headers().len()
    }

    /// The offset of the first data row.
    pub open spec fn first_row(self) -> nat {
        if self.no_headers() {
            0
        } else {
            self.after_first()
        }
    }

    /// The step that the next read takes.
    pub open spec fn step(self) -> Step {
        step_at(self.data(), self.delimiter(), self.width(), self.pos())
    }

    /// The rows from the reader's place to the end of the data.
    pub open spec fn rest(self) -> Option<Seq<Fields>> {
        scan_from(self.data(), self.delimiter(), self.width(), self.pos())
    }

    /// The data rows of the whole dataset.
    pub open spec fn rows(self) -> Option<Seq<Fields>> {
        scan_from(self.data(), self.delimiter(), self.width(), self.first_row())
    }

    /// The records behind the first one, which a cross join takes for the
    /// rows of its right input.
    pub open spec fn rows_after_first(self) -> Option<Seq<Fields>> {
        scan_from(self.data(), self.delimiter(), self.width(), self.after_first())
    }

    /// `other` is this reader put at offset `pos`.
    pub open spec fn moved(self, other: Self, pos: nat) -> bool {
        &&& other.data() == self.data()
        &&& other.delimiter() == self.delimiter()
        &&& other.no_headers() == self.no_headers()
        &&& other.headers() == self.headers()
        &&& other.after_first() == self.after_first()
        &&& other.pos() == pos
    }

    /// The reader is one over `data` as [`Reader::new`] makes it: it has
    /// the first record of `data` for its headers, and stands at the first
    /// data row.
    pub open spec fn opened_on(self, data: Seq<u8>, delimiter: u8, no_headers: bool) -> bool {
        &&& self.data() == data
        &&& self.delimiter() == delimiter
        &&& self.no_headers() == no_headers
        &&& self.pos() == self.first_row()
        &&& match raw_step(data, delimiter, 0) {
            Step::Row { fields, next } => self.headers() == fields && self.after_first() == next,
            Step::End => self.headers().len() == 0 && self.after_first() == 0,
            Step::Fault => false,
        }
    }

    /// A reader over `data`, at its first data row.
    ///
    /// Reads the first record. Fails with [`JoinError::Parse`] exactly where
    /// that read faults.
    pub fn new(data: &'a [u8], delimiter: u8, no_headers: bool) -> (made: Result<Self, JoinError>)
        ensures
            raw_step(data@, delimiter, 0) is Fault ==> made == Err::<Self, JoinError>(
                JoinError::Parse,
            ),
            !(raw_step(data@, delimiter, 0) is Fault) ==> made is Ok && made->Ok_0.opened_on(
                data@,
                delimiter,
                no_headers,
            ),
    {
        let input = slice_subrange(data, 0, data.len());
        match settle(read_first(input, delimiter), data.len()) {
            Err(e) => Err(e),
            Ok(None) => Ok(
                Reader { data, delimiter, no_headers, headers: Vec::new(), after_first: 0, pos: 0 },
            ),
            Ok(Some((headers, after_first))) => {
                let pos = if no_headers {
                    0
                } else {
                    after_first
                };
                Ok(Reader { data, delimiter, no_headers, headers, after_first, pos })
            },
        }
    }

    /// The fields of the first record, which the read at offset 0 yields;
    /// none where the dataset is empty.
    pub fn byte_headers(&self) -> (headers: &Row)
        ensures
            row_view(*headers) == self.headers(),
            match raw_step(self.data(), self.delimiter(), 0) {
                Step::Row { fields, next } => self.headers() == fields && self.after_first()
                    == next,
                Step::End => self.headers().len() == 0 && self.after_first() == 0,
                Step::Fault => false,
            },
    {
        proof {
            use_type_invariant(self);
        }
        &self.headers
    }

    /// The offset at which the next read starts. It lies inside the data.
    pub fn byte_offset(&self) -> (offset: usize)
        ensures
            offset == self.pos(),
            offset <= self.data().len(),
    {
        proof {
            use_type_invariant(self);
        }
        self.pos
    }

    /// The offset of the first data row. It lies inside the data.
    pub fn first_offset(&self) -> (offset: usize)
        ensures
            offset == self.first_row(),
            offset <= self.data().len(),
    {
        proof {
            use_type_invariant(self);
        }
        if self.no_headers {
            0
        } else {
            self.after_first
        }
    }

    /// Puts the reader at byte `offset`. Fails with [`JoinError::Seek`], and
    /// stays where it is, exactly where `offset` lies behind the end of the
    /// data.
    pub fn seek(&mut self, offset: usize) -> (done: Result<(), JoinError>)
        ensures
            offset <= old(self).data().len() ==> done == Ok::<(), JoinError>(()) && old(self).moved(*final(self), offset as nat),
            offset > old(self).data().len() ==> done == Err::<(), JoinError>(JoinError::Seek)
                && *final(self) == *old(self),
    {
        if offset <= self.data.len() {
            proof {
                use_type_invariant(&*self);
            }
            self.pos = offset;
            Ok(())
        } else {
            Err(JoinError::Seek)
        }
    }

    /// Puts the reader at the very start of the data, before the first
    /// record. The next read yields that record, the headers, or finds the
    /// data empty.
    pub fn rewind(&mut self)
        ensures
            old(self).moved(*final(self), 0),
            match final(self).step() {
                Step::Row { fields, next } => fields == final(self).headers() && next == final(self).after_first(),
                Step::End => final(self).headers().len() == 0 && final(self).after_first() == 0,
                Step::Fault => false,
            },
    {
        proof {
            use_type_invariant(&*self);
        }
        self.pos = 0;
    }

    /// Reads the row at which the reader stands and moves behind it.
    ///
    /// Gives `None` at the end of the data and [`JoinError::Parse`] where the
    /// step faults; in both cases the reader stays where it is.
    pub fn read(&mut self) -> (got: Result<Option<Row>, JoinError>)
        ensures
            match old(self).step() {
                Step::Row { fields, next } => {
                    &&& got matches Ok(Some(row))
                    &&& row_view(row) == fields
                    &&& old(self).moved(*final(self), next)
                },
                Step::End => got == Ok::<Option<Row>, JoinError>(None) && *final(self) == *old(self),
                Step::Fault => got == Err::<Option<Row>, JoinError>(JoinError::Parse) && *final(self) == *old(self),
            },
    {
        proof {
            use_type_invariant(&*self);
        }
        let input = slice_subrange(self.data, self.pos, self.data.len());
        match settle(read_first(input, self.delimiter), self.data.len() - self.pos) {
            Err(e) => Err(e),
            Ok(None) => Ok(None),
            Ok(Some((fields, used))) => {
                if fields.len() != self.headers.len() {
                    Err(JoinError::Parse)
                } else {
                    self.pos = self.pos + used;
                    Ok(Some(fields))
                }
            },
        }
    }
}

} // verus!
