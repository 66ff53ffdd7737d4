//! The value index over one side of a join.
//!
//! One scan of a dataset gives two things: a table from each key tuple to
//! the ordinals of the rows that carry it, and the byte offset of every row
//! by its ordinal. With both, the rows that match a key are read again, in
//! any order; the index itself keeps keys, ordinals and offsets, and no row.

use vstd::prelude::*;
use crate::error::{JoinError, Side};
use crate::keys::KeyTable;
use crate::reader::{preceded, lemma_scan_step, step_at, Reader, Step};
use crate::relation::{in_range, key_of, lemma_positions, positions};
use crate::row::{copy_row, row_view, Fields, Row};
use crate::selection::{check_selection, first_beyond, select};

verus! {

/// Ordinals as the relations count them.
pub open spec fn as_ints(ordinals: Seq<usize>) -> Seq<int> {
    Seq::new(ordinals.len(), |k: int| ordinals[k] as int)
}

/// `table` is the index of `rows` under `sel`: it has exactly the keys that
/// occur, each with the ordinals of its rows in ascending order.
pub open spec fn indexes(table: Map<Fields, Seq<usize>>, rows: Seq<Fields>, sel: Seq<usize>) -> bool {
    forall|key: Fields|
        {
            &&& table.contains_key(key) <==> (#[trigger] positions(rows, sel, key)).len() > 0
            &&& table.contains_key(key) ==> as_ints(table[key]) == positions(rows, sel, key)
        }
}

/// The keys stand in the order of their first rows: of two keys, the one
/// listed first has the lower first ordinal.
pub open spec fn by_first_row(keys: Seq<Fields>, table: Map<Fields, Seq<usize>>) -> bool {
    forall|d: int, e: int|
        0 <= d < e < keys.len() ==> table[#[trigger] keys[d]][0] < table[#[trigger] keys[e]][0]
}

/// A copy of a list of ordinals.
fn copy_ordinals(src: &Vec<usize>) -> (copy: Vec<usize>)
    ensures
        copy@ == src@,
{
    let mut copy: Vec<usize> = Vec::with_capacity(src.len());
    let mut i: usize = 0;
    while i < src.len()
        invariant
            i <= src@.len(),
            copy@ == src@.take(i as int),
        decreases src@.len() - i,
    {
        copy.push(src[i]);
        proof {
            assert(src@.take(i + 1) =~= src@.take(i as int).push(src@[i as int]));
        }
        i += 1;
    }
    proof {
        assert(src@.take(i as int) =~= src@);
    }
    copy
}

/// A dataset with the byte offset of each of its rows.
pub struct Indexed<'a> {
    rdr: Reader<'a>,
    offsets: Vec<usize>,
}

impl<'a> Indexed<'a> {
    /// The reader over the dataset.
    pub closed spec fn reader(self) -> Reader<'a> {
        self.rdr
    }

    /// The offset of each row, by ordinal.
    pub closed spec fn offsets(self) -> Seq<usize> {
        self.offsets@
    }

    /// The step that a read at the offset of row `ordinal` takes.
    pub open spec fn step_of(self, ordinal: int) -> Step {
        step_at(
            self.reader().data(),
            self.reader().delimiter(),
            self.reader().width(),
            self.offsets()[ordinal] as nat,
        )
    }

    /// The offsets are those of `rows`: the read at the offset of an ordinal
    /// yields the row of that ordinal.
    pub open spec fn holds(self, rows: Seq<Fields>) -> bool {
        &&& self.offsets().len() == rows.len()
        &&& forall|i: int|
            0 <= i < rows.len() ==> (#[trigger] self.step_of(i)) is Row && self.step_of(i)->fields
                == rows[i]
    }

    /// `other` is this dataset with its reader put at offset `pos`.
    pub open spec fn moved(self, other: Self, pos: nat) -> bool {
        self.reader().moved(other.reader(), pos) && other.offsets() == self.offsets()
    }

    /// The number of rows.
    pub fn count(&self) -> (n: usize)
        ensures
            n == self.offsets().len(),
    {
        self.offsets.len()
    }

    /// Row `ordinal` has an offset, and it lies inside the data.
    pub open spec fn reaches(self, ordinal: int) -> bool {
        0 <= ordinal < self.offsets().len() && self.offsets()[ordinal] <= self.reader().data().len()
    }

    /// Puts the reader at the start of row `ordinal`, so that the next read
    /// yields that row. Fails with [`JoinError::Seek`], and moves nothing,
    /// exactly where there is no such place.
    pub fn seek(&mut self, ordinal: usize) -> (done: Result<(), JoinError>)
        ensures
            old(self).reaches(ordinal as int) ==> done == Ok::<(), JoinError>(()) && old(self).moved(
                *final(self),
                old(self).offsets()[ordinal as int] as nat,
            ),
            !old(self).reaches(ordinal as int) ==> done == Err::<(), JoinError>(JoinError::Seek)
                && *final(self) == *old(self),
    {
        if ordinal < self.offsets.len() {
            let offset = self.offsets[ordinal];
            self.rdr.seek(offset)
        } else {
            Err(JoinError::Seek)
        }
    }

    /// Reads the row at which the reader stands, as [`Reader::read`] does.
    pub fn read(&mut self) -> (got: Result<Option<Row>, JoinError>)
        ensures
            match old(self).reader().step() {
                Step::Row { fields, next } => {
                    &&& got matches Ok(Some(row))
                    &&& row_view(row) == fields
                    &&& old(self).moved(*final(self), next)
                },
                Step::End => got == Ok::<Option<Row>, JoinError>(None) && *final(self) == *old(self),
                Step::Fault => got == Err::<Option<Row>, JoinError>(JoinError::Parse) && *final(self)
                    == *old(self),
            },
    {
        self.rdr.read()
    }

    /// Seeks to row `ordinal` and reads it; the reader then stands behind
    /// that row.
    ///
    /// Fails with [`JoinError::Seek`] where there is no such place, and
    /// moves nothing. Where the seek is done, fails with [`JoinError::Seek`]
    /// if nothing stands at the offset and with [`JoinError::Parse`] if the
    /// read there faults, and leaves the reader at the offset.
    pub fn fetch(&mut self, ordinal: usize) -> (got: Result<Row, JoinError>)
        ensures
            !old(self).reaches(ordinal as int) ==> got == Err::<Row, JoinError>(JoinError::Seek)
                && *final(self) == *old(self),
            old(self).reaches(ordinal as int) ==> match old(self).step_of(ordinal as int) {
                Step::Row { fields, next } => {
                    &&& got is Ok
                    &&& row_view(got->Ok_0) == fields
                    &&& old(self).moved(*final(self), next)
                },
                Step::End => got == Err::<Row, JoinError>(JoinError::Seek) && old(self).moved(
                    *final(self),
                    old(self).offsets()[ordinal as int] as nat,
                ),
                Step::Fault => got == Err::<Row, JoinError>(JoinError::Parse) && old(self).moved(
                    *final(self),
                    old(self).offsets()[ordinal as int] as nat,
                ),
            },
    {
        match self.seek(ordinal) {
            Err(e) => Err(e),
            Ok(()) => match self.read() {
                Err(e) => Err(e),
                Ok(None) => Err(JoinError::Seek),
                Ok(Some(row)) => Ok(row),
            },
        }
    }
}

/// The index of one dataset under one selection.
pub struct ValueIndex<'a> {
    /// The ordinals of the rows of each key.
    pub values: KeyTable,
    /// The dataset, with the offset of each row.
    pub idx: Indexed<'a>,
    /// The number of rows.
    pub num_rows: usize,
    /// The rows that were scanned.
    pub rows: Ghost<Seq<Fields>>,
    /// The selection that gave the keys.
    pub sel: Ghost<Seq<usize>>,
}

impl<'a> ValueIndex<'a> {
    /// The index is that of its rows under its selection.
    pub open spec fn wf(&self) -> bool {
        &&& self.values.wf()
        &&& indexes(self.values@, self.rows@, self.sel@)
        &&& by_first_row(self.values.keys(), self.values@)
        &&& self.idx.holds(self.rows@)
        &&& self.num_rows == self.rows@.len()
    }

    /// Scans the rows of `rdr` from where it stands to the end of its data
    /// and indexes them under `sel`. The first row read has ordinal 0.
    ///
    /// Fails before any row is read where `sel` names a position that the
    /// rows lack, and with [`JoinError::Parse`] where the scan faults; an
    /// index is returned only for a whole scan, and its reader then stands
    /// at the end of the data.
    pub fn new(rdr: Reader<'a>, sel: &Vec<usize>, side: Side) -> (built: Result<Self, JoinError>)
        ensures
            !in_range(sel@, rdr.width()) ==> built == Err::<Self, JoinError>(
                JoinError::ColumnOutOfRange {
                    side,
                    position: sel@[first_beyond(sel@, rdr.width())],
                    width: rdr.width() as usize,
                },
            ),
            in_range(sel@, rdr.width()) ==> match rdr.rest() {
                None => built == Err::<Self, JoinError>(JoinError::Parse),
                Some(rows) => {
                    &&& built matches Ok(index)
                    &&& index.wf()
                    &&& index.rows@ == rows
                    &&& index.sel@ == sel@
                    &&& rdr.moved(index.idx.reader(), index.idx.reader().pos())
                    &&& index.idx.reader().step() is End
                },
            },
    {
        let mut scan = rdr;
        let width = scan.byte_headers().len();
        match check_selection(sel, width, side) {
            Err(e) => {
                return Err(e);
            },
            Ok(()) => {},
        }
        let mut values = KeyTable::new();
        let mut offsets: Vec<usize> = Vec::new();
        let mut rowi: usize = 0;
        let mut offset = scan.byte_offset();
        let ghost mut rows: Seq<Fields> = Seq::empty();
        proof {
            assert(preceded(rows, scan.rest()) == rdr.rest()) by {
                match scan.rest() {
                    None => {},
                    Some(rest) => {
                        assert(rows + rest =~= rest);
                    },
                }
            }
            assert(indexes(values@, rows, sel@));
        }
        loop
            invariant
                in_range(sel@, scan.width()),
                rdr.moved(scan, scan.pos()),
                offset == scan.pos(),
                preceded(rows, scan.rest()) == rdr.rest(),
                rowi == rows.len(),
                offsets@.len() == rows.len(),
                forall|i: int|
                    0 <= i < rows.len() ==> {
                        &&& (#[trigger] step_at(
                            scan.data(),
                            scan.delimiter(),
                            scan.width(),
                            offsets@[i] as nat,
                        )) is Row
                        &&& step_at(
                            scan.data(),
                            scan.delimiter(),
                            scan.width(),
                            offsets@[i] as nat,
                        )->fields == rows[i]
                    },
                values.wf(),
                indexes(values@, rows, sel@),
                by_first_row(values.keys(), values@),
            ensures
                rdr.rest() == Some(rows),
            decreases scan.data().len() - scan.pos(),
        {
            let ghost at = scan;
            match scan.read() {
                Err(e) => {
                    proof {
                        assert(at.rest() is None);
                        assert(rdr.rest() is None);
                    }
                    return Err(e);
                },
                Ok(None) => {
                    proof {
                        assert(at.rest() == Some(Seq::<Fields>::empty()));
                        assert(rows + Seq::<Fields>::empty() =~= rows);
                    }
                    break ;
                },
                Ok(Some(row)) => {
                    let ghost fields = row_view(row);
                    proof {
                        lemma_scan_step(at.data(), at.delimiter(), at.width(), rows, at.pos());
                    }
                    offsets.push(offset);
                    let key = select(&row, sel);
                    let ghost table = values@;
                    let ghost listed = values.keys();
                    proof {
                        values.lemma_keys();
                    }
                    values.add(key, rowi);
                    proof {
                        lemma_first_rows_push(
                            listed,
                            values.keys(),
                            table,
                            values@,
                            rows,
                            sel@,
                            fields,
                            rowi,
                        );
                        lemma_indexes_push(table, values@, rows, sel@, fields, rowi);
                        rows = rows.push(fields);
                    }
                    rowi = offsets.len();
                    offset = scan.byte_offset();
                },
            }
        }
        let idx = Indexed { rdr: scan, offsets };
        let index = ValueIndex { values, idx, num_rows: rowi, rows: Ghost(rows), sel: Ghost(sel@) };
        proof {
            assert forall|i: int| 0 <= i < rows.len() implies (#[trigger] index.idx.step_of(i)) is Row
                && index.idx.step_of(i)->fields == rows[i] by {
                assert(step_at(scan.data(), scan.delimiter(), scan.width(), offsets@[i] as nat) is Row);
            }
        }
        Ok(index)
    }

    /// Puts the reader at the start of row `ordinal`, so that the next read
    /// yields that row; it may be called for the rows in any order, and
    /// again for the same row. Fails with [`JoinError::Seek`], and moves
    /// nothing, exactly where the index has no such row.
    pub fn seek(&mut self, ordinal: usize) -> (done: Result<(), JoinError>)
        requires
            old(self).wf(),
        ensures
            final(self).wf(),
            final(self).rows@ == old(self).rows@,
            final(self).sel@ == old(self).sel@,
            ordinal < old(self).num_rows ==> {
                &&& done == Ok::<(), JoinError>(())
                &&& final(self).idx.reader().step() is Row
                &&& final(self).idx.reader().step()->fields == old(self).rows@[ordinal as int]
            },
            ordinal >= old(self).num_rows ==> done == Err::<(), JoinError>(JoinError::Seek)
                && *final(self) == *old(self),
    {
        let ghost before = self.idx;
        proof {
            if ordinal < self.num_rows {
                assert(before.step_of(ordinal as int) is Row);
            }
        }
        let done = self.idx.seek(ordinal);
        proof {
            assert forall|i: int| 0 <= i < self.rows@.len() implies (#[trigger] self.idx.step_of(i)) is Row && self.idx.step_of(i)->fields == self.rows@[i] by {
                assert(self.idx.step_of(i) == before.step_of(i));
            }
        }
        done
    }

    /// The keys with the ordinals of their rows, in the order in which the
    /// keys first appear in the dataset.
    pub fn entries(&self) -> (list: Vec<(Row, Vec<usize>)>)
        requires
            self.wf(),
        ensures
            list@.len() == self.values.keys().len(),
            forall|e: int|
                0 <= e < list@.len() ==> {
                    &&& row_view((#[trigger] list@[e]).0) == self.values.keys()[e]
                    &&& as_ints(list@[e].1@) == positions(
                        self.rows@,
                        self.sel@,
                        self.values.keys()[e],
                    )
                    &&& list@[e].1@.len() > 0
                },
            forall|d: int, e: int|
                0 <= d < e < list@.len() ==> (#[trigger] list@[d]).1@[0] < (#[trigger] list@[e]).1@[0],
    {
        let mut list: Vec<(Row, Vec<usize>)> = Vec::new();
        let mut e: usize = 0;
        proof {
            self.values.lemma_keys();
        }
        while e < self.values.len()
            invariant
                self.wf(),
                e <= self.values.keys().len(),
                list@.len() == e,
                forall|i: int|
                    0 <= i < e ==> {
                        &&& row_view((#[trigger] list@[i]).0) == self.values.keys()[i]
                        &&& list@[i].1@ == self.values@[self.values.keys()[i]]
                    },
            decreases self.values.keys().len() - e,
        {
            let key = copy_row(self.values.key_at(e));
            let ordinals = copy_ordinals(self.values.ordinals_at(e));
            list.push((key, ordinals));
            e += 1;
        }
        proof {
            assert forall|i: int| 0 <= i < list@.len() implies {
                &&& as_ints((#[trigger] list@[i]).1@) == positions(
                    self.rows@,
                    self.sel@,
                    self.values.keys()[i],
                )
                &&& list@[i].1@.len() > 0
            } by {
                let key = self.values.keys()[i];
                assert(self.values@.contains_key(key));
                assert(positions(self.rows@, self.sel@, key).len() > 0);
                assert(as_ints(list@[i].1@).len() == list@[i].1@.len());
            }
        }
        list
    }

    /// The ordinals of the rows whose key tuple is `key`, in ascending
    /// order; `None` where no row has that key.
    pub fn lookup(&self, key: &Row) -> (found: Option<&Vec<usize>>)
        requires
            self.wf(),
        ensures
            match found {
                Some(list) => list@.len() > 0 && as_ints(list@) == positions(
                    self.rows@,
                    self.sel@,
                    row_view(*key),
                ),
                None => positions(self.rows@, self.sel@, row_view(*key)).len() == 0,
            },
    {
        let found = self.values.get(key);
        proof {
            let at = positions(self.rows@, self.sel@, row_view(*key));
            assert(self.values@.contains_key(row_view(*key)) <==> at.len() > 0);
            if found is Some {
                assert(as_ints(found->Some_0@).len() == found->Some_0@.len());
            }
        }
        found
    }
}

/// Adding the ordinal of a new last row under its key keeps the keys in the
/// order of their first rows.
pub proof fn lemma_first_rows_push(
    listed: Seq<Fields>,
    relisted: Seq<Fields>,
    before: Map<Fields, Seq<usize>>,
    after: Map<Fields, Seq<usize>>,
    rows: Seq<Fields>,
    sel: Seq<usize>,
    row: Fields,
    ordinal: usize,
)
    requires
        indexes(before, rows, sel),
        by_first_row(listed, before),
        forall|e: int| 0 <= e < listed.len() ==> before.contains_key(#[trigger] listed[e]),
        ordinal == rows.len(),
        after == before.insert(
            key_of(row, sel),
            if before.contains_key(key_of(row, sel)) {
                before[key_of(row, sel)].push(ordinal)
            } else {
                seq![ordinal]
            },
        ),
        relisted == if before.contains_key(key_of(row, sel)) {
            listed
        } else {
            listed.push(key_of(row, sel))
        },
    ensures
        by_first_row(relisted, after),
{
    let added = key_of(row, sel);
    assert forall|d: int, e: int| 0 <= d < e < relisted.len() implies after[#[trigger] relisted[d]][0]
        < after[#[trigger] relisted[e]][0] by {
        let first = relisted[d];
        assert(before.contains_key(first));
        let at = positions(rows, sel, first);
        lemma_positions(rows, sel, first);
        assert(as_ints(before[first])[0] == at[0]);
        assert(after[first][0] == before[first][0]);
        if e < listed.len() {
            let second = relisted[e];
            assert(before.contains_key(second));
            assert(positions(rows, sel, second).len() > 0);
            assert(after[second][0] == before[second][0]);
        }
    }
}

/// Adding the ordinal of a new last row under its key keeps a table the
/// index of the rows.
pub proof fn lemma_indexes_push(
    before: Map<Fields, Seq<usize>>,
    after: Map<Fields, Seq<usize>>,
    rows: Seq<Fields>,
    sel: Seq<usize>,
    row: Fields,
    ordinal: usize,
)
    requires
        indexes(before, rows, sel),
        ordinal == rows.len(),
        after == before.insert(
            key_of(row, sel),
            if before.contains_key(key_of(row, sel)) {
                before[key_of(row, sel)].push(ordinal)
            } else {
                seq![ordinal]
            },
        ),
    ensures
        indexes(after, rows.push(row), sel),
{
    let grown = rows.push(row);
    let added = key_of(row, sel);
    assert(grown.drop_last() =~= rows);
    assert forall|key: Fields|
        {
            &&& after.contains_key(key) <==> (#[trigger] positions(grown, sel, key)).len() > 0
            &&& after.contains_key(key) ==> as_ints(after[key]) == positions(grown, sel, key)
        } by {
        let old_at = positions(rows, sel, key);
        if key == added {
            if before.contains_key(key) {
                assert(as_ints(before[key].push(ordinal)) =~= as_ints(before[key]).push(
                    ordinal as int,
                ));
            } else {
                assert(old_at =~= Seq::<int>::empty());
                assert(as_ints(seq![ordinal]) =~= Seq::<int>::empty().push(ordinal as int));
            }
        }
    }
}

} // verus!
