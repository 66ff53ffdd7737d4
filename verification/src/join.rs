//! The join engine.
//!
//! A [`Join`] holds the two datasets and their selections. Each of the five
//! joins scans one dataset row by row, looks the key of each row up in the
//! [`ValueIndex`] of the other, reads the rows that match at their offsets,
//! and returns the combined rows in the order in which it made them.

use vstd::prelude::*;
use crate::columns::{resolve, resolve_columns};
use crate::error::{JoinError, Side};
use crate::index::{as_ints, Indexed, ValueIndex};
use crate::reader::{lemma_scan_step, preceded, raw_step, Reader, Step};
use crate::relation::{
    cross_join,
    cross_rows,
    full_outer_join,
    in_range,
    inner_join,
    inner_rows,
    key_of,
    left_outer_join,
    lemma_positions,
    matching,
    outer_join,
    outer_rows,
    paired,
    positions,
    right_outer_join,
    unmatched,
};
use crate::row::{blank, combine, lemma_rows_view_push, padding, row_view, rows_view, Fields, Row};
use crate::selection::{check_selection, first_beyond, select};

verus! {

/// The join to make.
#[derive(Clone, Copy, Debug, PartialEq, Eq, Structural)]
pub enum JoinKind {
    /// Only the rows that match.
    Inner,
    /// Every row of the left input, with its matches or padded.
    LeftOuter,
    /// Every row of the right input, with its matches or padded.
    RightOuter,
    /// Every row of both inputs.
    FullOuter,
    /// Every row of the left input beside every row of the right one.
    Cross,
}

/// The join that the four mode flags ask for: the inner join where none is
/// set, the join of the one that is set, and no join where more are.
pub open spec fn kind_of_flags(left: bool, right: bool, full: bool, cross: bool) -> Result<
    JoinKind,
    JoinError,
> {
    match (left, right, full, cross) {
        (false, false, false, false) => Ok(JoinKind::Inner),
        (true, false, false, false) => Ok(JoinKind::LeftOuter),
        (false, true, false, false) => Ok(JoinKind::RightOuter),
        (false, false, true, false) => Ok(JoinKind::FullOuter),
        (false, false, false, true) => Ok(JoinKind::Cross),
        _ => Err(JoinError::ModeConflict),
    }
}

impl JoinKind {
    /// The join that the four mode flags ask for.
    pub fn from_flags(left: bool, right: bool, full: bool, cross: bool) -> (kind: Result<
        JoinKind,
        JoinError,
    >)
        ensures
            kind == kind_of_flags(left, right, full, cross),
    {
        match (left, right, full, cross) {
            (false, false, false, false) => Ok(JoinKind::Inner),
            (true, false, false, false) => Ok(JoinKind::LeftOuter),
            (false, true, false, false) => Ok(JoinKind::RightOuter),
            (false, false, true, false) => Ok(JoinKind::FullOuter),
            (false, false, false, true) => Ok(JoinKind::Cross),
            _ => Err(JoinError::ModeConflict),
        }
    }
}

/// The fields of the first record of `data`; none where there is no
/// record.
pub open spec fn first_record_of(data: Seq<u8>, delimiter: u8) -> Fields {
    match raw_step(data, delimiter, 0) {
        Step::Row { fields, next } => fields,
        _ => Seq::empty(),
    }
}

/// The number of fields of the first record of `data`; 0 where there is
/// none.
pub open spec fn header_width(data: Seq<u8>, delimiter: u8) -> nat {
    first_record_of(data, delimiter).len()
}

/// The selections that two column selectors come to, against the
/// headers of their datasets: the error of the left one, else that of the
/// right one, else the mismatch of their lengths, else the two selections.
pub open spec fn selections_of(
    cols1: Seq<u8>,
    headers1: Fields,
    cols2: Seq<u8>,
    headers2: Fields,
    named: bool,
) -> Result<(Seq<usize>, Seq<usize>), JoinError> {
    match resolve(cols1, headers1, named) {
        Err(item) => Err(JoinError::BadColumn { side: Side::Left, item: item as usize }),
        Ok(sel1) => match resolve(cols2, headers2, named) {
            Err(item) => Err(JoinError::BadColumn { side: Side::Right, item: item as usize }),
            Ok(sel2) => if sel1.len() != sel2.len() {
                Err(
                    JoinError::SelectionMismatch {
                        left: sel1.len() as usize,
                        right: sel2.len() as usize,
                    },
                )
            } else {
                Ok((sel1, sel2))
            },
        },
    }
}

/// Resolves the two column selectors of a join against the headers of
/// their datasets, and holds the two selections against each other.
///
/// Names resolve only where the datasets have headers. No row of either
/// dataset is read.
pub fn get_selections<'a>(
    rdr1: &Reader<'a>,
    cols1: &[u8],
    rdr2: &Reader<'a>,
    cols2: &[u8],
    no_headers: bool,
) -> (res: Result<(Vec<usize>, Vec<usize>), JoinError>)
    ensures
        match selections_of(cols1@, rdr1.headers(), cols2@, rdr2.headers(), !no_headers) {
            Ok((sel1, sel2)) => {
                &&& res matches Ok(pair)
                &&& pair.0@ == sel1
                &&& pair.1@ == sel2
                &&& sel1.len() == sel2.len()
                &&& in_range(sel1, rdr1.width())
                &&& in_range(sel2, rdr2.width())
            },
            Err(e) => res == Err::<(Vec<usize>, Vec<usize>), JoinError>(e),
        },
{
    let select1 = match resolve_columns(cols1, rdr1.byte_headers(), !no_headers, Side::Left) {
        Ok(sel) => sel,
        Err(e) => {
            return Err(e);
        },
    };
    let select2 = match resolve_columns(cols2, rdr2.byte_headers(), !no_headers, Side::Right) {
        Ok(sel) => sel,
        Err(e) => {
            return Err(e);
        },
    };
    if select1.len() != select2.len() {
        return Err(JoinError::SelectionMismatch { left: select1.len(), right: select2.len() });
    }
    Ok((select1, select2))
}

/// What a join returns, seen through [`rows_view`].
pub open spec fn outcome_view(res: Result<Vec<Row>, JoinError>) -> Result<Seq<Fields>, JoinError> {
    match res {
        Ok(rows) => Ok(rows_view(rows)),
        Err(e) => Err(e),
    }
}

/// Nothing put in front of a scan leaves it as it is.
proof fn lemma_scan_start(scan: Option<Seq<Fields>>)
    ensures
        preceded(Seq::empty(), scan) == scan,
{
    match scan {
        None => {},
        Some(rest) => {
            assert(Seq::<Fields>::empty() + rest =~= rest);
        },
    }
}

/// Reads the rows of `list` at their offsets and appends each to `out`,
/// beside `row`.
fn emit_matches<'a>(
    idx: &mut Indexed<'a>,
    list: &Vec<usize>,
    row: &Row,
    driving_left: bool,
    out: &mut Vec<Row>,
    Ghost(rows): Ghost<Seq<Fields>>,
) -> (done: Result<(), JoinError>)
    requires
        old(idx).holds(rows),
        forall|k: int| 0 <= k < list@.len() ==> list@[k] < rows.len(),
    ensures
        done is Ok,
        final(idx).holds(rows),
        final(idx).reader().data() == old(idx).reader().data(),
        final(idx).reader().delimiter() == old(idx).reader().delimiter(),
        final(idx).reader().headers() == old(idx).reader().headers(),
        rows_view(*final(out)) == rows_view(*old(out)) + Seq::new(
            list@.len(),
            |k: int| paired(row_view(*row), rows[list@[k] as int], driving_left),
        ),
{
    let ghost before = rows_view(*out);
    let ghost first = *idx;
    let mut k: usize = 0;
    proof {
        assert(rows_view(*out) =~= before + Seq::new(
            0,
            |k: int| paired(row_view(*row), rows[list@[k] as int], driving_left),
        ));
    }
    while k < list.len()
        invariant
            k <= list@.len(),
            forall|j: int| 0 <= j < list@.len() ==> list@[j] < rows.len(),
            idx.holds(rows),
            idx.offsets() == first.offsets(),
            idx.reader().data() == first.reader().data(),
            idx.reader().delimiter() == first.reader().delimiter(),
            idx.reader().headers() == first.reader().headers(),
            rows_view(*out) == before + Seq::new(
                k as nat,
                |j: int| paired(row_view(*row), rows[list@[j] as int], driving_left),
            ),
        decreases list@.len() - k,
    {
        let ordinal = list[k];
        let ghost at = *idx;
        proof {
            assert(at.step_of(ordinal as int) is Row);
        }
        match idx.fetch(ordinal) {
            Err(e) => {
                return Err(e);
            },
            Ok(other) => {
                proof {
                    assert forall|i: int| 0 <= i < rows.len() implies (#[trigger] idx.step_of(i)) is Row
                        && idx.step_of(i)->fields == rows[i] by {
                        assert(idx.step_of(i) == at.step_of(i));
                    }
                }
                let joined = if driving_left {
                    combine(row, &other)
                } else {
                    combine(&other, row)
                };
                let ghost prev = *out;
                out.push(joined);
                proof {
                    lemma_rows_view_push(prev, *out, joined);
                    assert(rows_view(*out) =~= before + Seq::new(
                        (k + 1) as nat,
                        |j: int| paired(row_view(*row), rows[list@[j] as int], driving_left),
                    ));
                }
            },
        }
        k += 1;
    }
    Ok(())
}

/// A mark for each of `n` rows, none of them set.
fn unwritten(n: usize) -> (written: Vec<bool>)
    ensures
        written@.len() == n,
        forall|j: int| 0 <= j < n ==> !written@[j],
{
    let mut written: Vec<bool> = Vec::with_capacity(n);
    let mut i: usize = 0;
    while i < n
        invariant
            i <= n,
            written@.len() == i,
            forall|j: int| 0 <= j < i ==> !written@[j],
        decreases n - i,
    {
        written.push(false);
        i += 1;
    }
    written
}

/// Sets the mark of every ordinal of `list`.
fn mark_written(written: &mut Vec<bool>, list: &Vec<usize>)
    requires
        forall|k: int| 0 <= k < list@.len() ==> list@[k] < old(written)@.len(),
    ensures
        final(written)@.len() == old(written)@.len(),
        forall|j: int|
            0 <= j < old(written)@.len() ==> final(written)@[j] == (old(written)@[j] || as_ints(
                list@,
            ).contains(j)),
{
    let ghost before = written@;
    let mut k: usize = 0;
    while k < list.len()
        invariant
            k <= list@.len(),
            written@.len() == before.len(),
            forall|i: int| 0 <= i < list@.len() ==> list@[i] < before.len(),
            forall|j: int|
                0 <= j < before.len() ==> #[trigger] written@[j] == (before[j] || as_ints(
                    list@,
                ).take(k as int).contains(j)),
        decreases list@.len() - k,
    {
        let ordinal = list[k];
        let ghost prev = written@;
        written[ordinal] = true;
        proof {
            let seen = as_ints(list@).take(k as int);
            let more = as_ints(list@).take(k + 1);
            assert(more =~= seen.push(ordinal as int));
            assert forall|j: int| 0 <= j < before.len() implies #[trigger] written@[j] == (
            before[j] || more.contains(j)) by {
                assert(prev[j] == (before[j] || seen.contains(j)));
                assert(written@[j] == (prev[j] || j == ordinal));
                if more.contains(j) && j != ordinal {
                    let i = choose|i: int| 0 <= i < more.len() && more[i] == j;
                    assert(seen[i] == j);
                    assert(seen.contains(j));
                }
                if seen.contains(j) {
                    let i = choose|i: int| 0 <= i < seen.len() && seen[i] == j;
                    assert(more[i] == j);
                    assert(more.contains(j));
                }
                if j == ordinal {
                    assert(more[k as int] == j);
                    assert(more.contains(j));
                }
            }
        }
        k += 1;
    }
    proof {
        assert(as_ints(list@).take(k as int) =~= as_ints(list@));
    }
}

/// The outer join that keeps every row of `driving`: one algorithm for both
/// directions. `driving_left` says whether the driving input is the left
/// one, whose fields come first in every row.
fn outer_scan<'a>(
    driving: Reader<'a>,
    sel_d: &Vec<usize>,
    indexed: Reader<'a>,
    sel_i: &Vec<usize>,
    driving_left: bool,
) -> (res: Result<Vec<Row>, JoinError>)
    requires
        in_range(sel_d@, driving.width()),
        in_range(sel_i@, indexed.width()),
    ensures
        outcome_view(res) == match (driving.rest(), indexed.rest()) {
            (Some(d), Some(i)) => Ok::<Seq<Fields>, JoinError>(
                outer_join(d, sel_d@, i, sel_i@, indexed.width(), driving_left),
            ),
            _ => Err::<Seq<Fields>, JoinError>(JoinError::Parse),
        },
{
    let pad = padding(indexed.byte_headers().len());
    let indexed_side = if driving_left {
        Side::Right
    } else {
        Side::Left
    };
    let mut rdr = driving;
    let mut validx = match ValueIndex::new(indexed, sel_i, indexed_side) {
        Ok(validx) => validx,
        Err(e) => {
            return Err(e);
        },
    };
    let ghost b = validx.rows@;
    let ghost width = indexed.width();
    let ghost mut a: Seq<Fields> = Seq::empty();
    let mut out: Vec<Row> = Vec::new();
    proof {
        lemma_scan_start(rdr.rest());
        assert(rows_view(out) =~= outer_join(a, sel_d@, b, sel_i@, width, driving_left));
    }
    loop
        invariant
            driving.moved(rdr, rdr.pos()),
            indexed.rest() == Some(b),
            width == indexed.width(),
            row_view(pad) == blank(width),
            in_range(sel_d@, rdr.width()),
            preceded(a, rdr.rest()) == driving.rest(),
            validx.wf(),
            validx.rows@ == b,
            validx.sel@ == sel_i@,
            rows_view(out) == outer_join(a, sel_d@, b, sel_i@, width, driving_left),
        ensures
            driving.rest() == Some(a),
            rows_view(out) == outer_join(a, sel_d@, b, sel_i@, width, driving_left),
        decreases rdr.data().len() - rdr.pos(),
    {
        let ghost at = rdr;
        match rdr.read() {
            Err(e) => {
                proof {
                    assert(at.rest() is None);
                }
                return Err(e);
            },
            Ok(None) => {
                proof {
                    assert(at.rest() == Some(Seq::<Fields>::empty()));
                    assert(a + Seq::<Fields>::empty() =~= a);
                }
                break ;
            },
            Ok(Some(row)) => {
                let ghost fields = row_view(row);
                proof {
                    lemma_scan_step(at.data(), at.delimiter(), at.width(), a, at.pos());
                }
                let key = select(&row, sel_d);
                let ghost hits = positions(b, sel_i@, row_view(key));
                proof {
                    lemma_positions(b, sel_i@, row_view(key));
                }
                match validx.values.get(&key) {
                    None => {
                        let joined = if driving_left {
                            combine(&row, &pad)
                        } else {
                            combine(&pad, &row)
                        };
                        let ghost prev = out;
                        out.push(joined);
                        proof {
                            lemma_rows_view_push(prev, out, joined);
                            assert(rows_view(prev).push(row_view(joined)) =~= rows_view(prev)
                                + outer_rows(fields, sel_d@, b, sel_i@, width, driving_left));
                        }
                    },
                    Some(list) => {
                        proof {
                            assert(as_ints(list@) == hits);
                            assert forall|k: int| 0 <= k < list@.len() implies list@[k]
                                < b.len() by {
                                assert(as_ints(list@)[k] == hits[k]);
                            }
                        }
                        match emit_matches(
                            &mut validx.idx,
                            list,
                            &row,
                            driving_left,
                            &mut out,
                            Ghost(b),
                        ) {
                            Err(e) => {
                                return Err(e);
                            },
                            Ok(()) => {},
                        }
                        proof {
                            assert(Seq::new(
                                list@.len(),
                                |k: int| paired(fields, b[list@[k] as int], driving_left),
                            ) =~= outer_rows(fields, sel_d@, b, sel_i@, width, driving_left)) by {
                                assert forall|k: int| 0 <= k < list@.len() implies list@[k] as int
                                    == hits[k] by {
                                    assert(as_ints(list@)[k] == hits[k]);
                                }
                            }
                        }
                    },
                }
                proof {
                    assert(a.push(fields).drop_last() =~= a);
                    a = a.push(fields);
                }
            },
        }
    }
    Ok(out)
}

/// Two datasets and the selections to join them on.
pub struct Join<'a> {
    rdr1: Reader<'a>,
    sel1: Vec<usize>,
    rdr2: Reader<'a>,
    sel2: Vec<usize>,
    no_headers: bool,
}

impl<'a> Join<'a> {
    #[verifier::type_invariant]
    spec fn inv(self) -> bool {
        &&& self.sel1@.len() == self.sel2@.len()
        &&& in_range(self.sel1@, self.rdr1.width())
        &&& in_range(self.sel2@, self.rdr2.width())
        &&& self.rdr1.pos() == self.rdr1.first_row()
        &&& self.rdr2.pos() == self.rdr2.first_row()
        &&& self.rdr1.no_headers() == self.no_headers
        &&& self.rdr2.no_headers() == self.no_headers
    }

    /// The reader over the left input.
    pub closed spec fn left(self) -> Reader<'a> {
        self.rdr1
    }

    /// The reader over the right input.
    pub closed spec fn right(self) -> Reader<'a> {
        self.rdr2
    }

    /// The key columns of the left input.
    pub closed spec fn sel1(self) -> Seq<usize> {
        self.sel1@
    }

    /// The key columns of the right input.
    pub closed spec fn sel2(self) -> Seq<usize> {
        self.sel2@
    }

    /// Whether the first record of each input is a data row, and no header
    /// is written.
    pub closed spec fn no_headers(self) -> bool {
        self.no_headers
    }

    /// The rows that go before the joined rows: the headers of the left
    /// input followed by those of the right one, unless there are no headers.
    pub open spec fn header_rows(self) -> Seq<Fields> {
        if self.no_headers() {
            Seq::empty()
        } else {
            seq![self.left().headers() + self.right().headers()]
        }
    }

    /// What the inner join comes to.
    pub open spec fn inner_outcome(self) -> Result<Seq<Fields>, JoinError> {
        match (self.left().rows(), self.right().rows()) {
            (Some(a), Some(b)) => Ok(inner_join(a, self.sel1(), b, self.sel2())),
            _ => Err(JoinError::Parse),
        }
    }

    /// What the outer join that keeps the rows of `side` comes to.
    pub open spec fn outer_outcome(self, side: Side) -> Result<Seq<Fields>, JoinError> {
        match (self.left().rows(), self.right().rows()) {
            (Some(a), Some(b)) => Ok(
                match side {
                    Side::Left => left_outer_join(
                        a,
                        self.sel1(),
                        b,
                        self.sel2(),
                        self.right().width(),
                    ),
                    Side::Right => right_outer_join(
                        a,
                        self.sel1(),
                        b,
                        self.sel2(),
                        self.left().width(),
                    ),
                },
            ),
            _ => Err(JoinError::Parse),
        }
    }

    /// What the full outer join comes to.
    pub open spec fn full_outer_outcome(self) -> Result<Seq<Fields>, JoinError> {
        match (self.left().rows(), self.right().rows()) {
            (Some(a), Some(b)) => Ok(
                full_outer_join(
                    a,
                    self.sel1(),
                    b,
                    self.sel2(),
                    self.left().width(),
                    self.right().width(),
                ),
            ),
            _ => Err(JoinError::Parse),
        }
    }

    /// What the cross join comes to. Its right rows are the records behind
    /// the first one, with or without headers, and they are read only if
    /// there is a left row.
    pub open spec fn cross_outcome(self) -> Result<Seq<Fields>, JoinError> {
        match self.left().rows() {
            None => Err(JoinError::Parse),
            Some(a) => if a.len() == 0 {
                Ok(Seq::empty())
            } else {
                match self.right().rows_after_first() {
                    None => Err(JoinError::Parse),
                    Some(b) => Ok(cross_join(a, b)),
                }
            },
        }
    }

    /// What the join of `kind` comes to.
    pub open spec fn outcome(self, kind: JoinKind) -> Result<Seq<Fields>, JoinError> {
        match kind {
            JoinKind::Inner => self.inner_outcome(),
            JoinKind::LeftOuter => self.outer_outcome(Side::Left),
            JoinKind::RightOuter => self.outer_outcome(Side::Right),
            JoinKind::FullOuter => self.full_outer_outcome(),
            JoinKind::Cross => self.cross_outcome(),
        }
    }

    /// Sets up a join of `left` and `right` on the columns `sel1` and `sel2`.
    ///
    /// The number of columns is compared first: where the selections differ
    /// in it, nothing of either input is read. Then the first record of each
    /// input is read, and each selection is held against the width of its
    /// input.
    pub fn new(
        left: &'a [u8],
        right: &'a [u8],
        delimiter: u8,
        no_headers: bool,
        sel1: Vec<usize>,
        sel2: Vec<usize>,
    ) -> (made: Result<Self, JoinError>)
        ensures
            sel1@.len() != sel2@.len() ==> made == Err::<Self, JoinError>(
                JoinError::SelectionMismatch { left: sel1.len(), right: sel2.len() },
            ),
            sel1@.len() == sel2@.len() ==> {
                let w1 = header_width(left@, delimiter);
                let w2 = header_width(right@, delimiter);
                if raw_step(left@, delimiter, 0) is Fault || raw_step(right@, delimiter, 0) is Fault {
                    made == Err::<Self, JoinError>(JoinError::Parse)
                } else if !in_range(sel1@, w1) {
                    made == Err::<Self, JoinError>(
                        JoinError::ColumnOutOfRange {
                            side: Side::Left,
                            position: sel1@[first_beyond(sel1@, w1)],
                            width: w1 as usize,
                        },
                    )
                } else if !in_range(sel2@, w2) {
                    made == Err::<Self, JoinError>(
                        JoinError::ColumnOutOfRange {
                            side: Side::Right,
                            position: sel2@[first_beyond(sel2@, w2)],
                            width: w2 as usize,
                        },
                    )
                } else {
                    &&& made matches Ok(join)
                    &&& join.left().opened_on(left@, delimiter, no_headers)
                    &&& join.right().opened_on(right@, delimiter, no_headers)
                    &&& join.no_headers() == no_headers
                    &&& join.sel1() == sel1@
                    &&& join.sel2() == sel2@
                }
            },
    {
        if sel1.len() != sel2.len() {
            return Err(JoinError::SelectionMismatch { left: sel1.len(), right: sel2.len() });
        }
        let rdr1 = match Reader::new(left, delimiter, no_headers) {
            Ok(rdr) => rdr,
            Err(e) => {
                return Err(e);
            },
        };
        let rdr2 = match Reader::new(right, delimiter, no_headers) {
            Ok(rdr) => rdr,
            Err(e) => {
                return Err(e);
            },
        };
        match check_selection(&sel1, rdr1.byte_headers().len(), Side::Left) {
            Err(e) => {
                return Err(e);
            },
            Ok(()) => {},
        }
        match check_selection(&sel2, rdr2.byte_headers().len(), Side::Right) {
            Err(e) => {
                return Err(e);
            },
            Ok(()) => {},
        }
        Ok(Join { rdr1, sel1, rdr2, sel2, no_headers })
    }

    /// Sets up a join of `left` and `right` on the columns that the
    /// selectors `cols1` and `cols2` name.
    ///
    /// Reads the first record of each input, resolves the two
    /// selectors against them, and compares the numbers of columns: a
    /// join that cannot be made fails here, before any row is read.
    pub fn from_columns(
        left: &'a [u8],
        right: &'a [u8],
        delimiter: u8,
        no_headers: bool,
        cols1: &[u8],
        cols2: &[u8],
    ) -> (made: Result<Self, JoinError>)
        ensures
            raw_step(left@, delimiter, 0) is Fault || raw_step(right@, delimiter, 0) is Fault
                ==> made == Err::<Self, JoinError>(JoinError::Parse),
            !(raw_step(left@, delimiter, 0) is Fault) && !(raw_step(right@, delimiter, 0) is Fault)
                ==> match selections_of(
                cols1@,
                first_record_of(left@, delimiter),
                cols2@,
                first_record_of(right@, delimiter),
                !no_headers,
            ) {
                Err(e) => made == Err::<Self, JoinError>(e),
                Ok((sel1, sel2)) => {
                    &&& made matches Ok(join)
                    &&& join.left().opened_on(left@, delimiter, no_headers)
                    &&& join.right().opened_on(right@, delimiter, no_headers)
                    &&& join.no_headers() == no_headers
                    &&& join.sel1() == sel1
                    &&& join.sel2() == sel2
                },
            },
    {
        let rdr1 = match Reader::new(left, delimiter, no_headers) {
            Ok(rdr) => rdr,
            Err(e) => {
                return Err(e);
            },
        };
        let rdr2 = match Reader::new(right, delimiter, no_headers) {
            Ok(rdr) => rdr,
            Err(e) => {
                return Err(e);
            },
        };
        proof {
            assert(rdr1.headers() =~= first_record_of(left@, delimiter));
            assert(rdr2.headers() =~= first_record_of(right@, delimiter));
        }
        let (sel1, sel2) = match get_selections(&rdr1, cols1, &rdr2, cols2, no_headers) {
            Ok(pair) => pair,
            Err(e) => {
                return Err(e);
            },
        };
        Ok(Join { rdr1, sel1, rdr2, sel2, no_headers })
    }

    /// Appends the combined header to `out`: the headers of the left input,
    /// then those of the right one. Appends nothing where there are no
    /// headers.
    pub fn write_headers(&self, out: &mut Vec<Row>)
        ensures
            rows_view(*final(out)) == rows_view(*old(out)) + self.header_rows(),
    {
        if !self.no_headers {
            let headers = combine(self.rdr1.byte_headers(), self.rdr2.byte_headers());
            let ghost prev = *out;
            out.push(headers);
            proof {
                lemma_rows_view_push(prev, *out, headers);
                assert(rows_view(prev).push(row_view(headers)) =~= rows_view(prev)
                    + self.header_rows());
            }
        } else {
            proof {
                assert(rows_view(*out) =~= rows_view(*out) + self.header_rows());
            }
        }
    }

    /// The inner join: for each row of the left input, in order, one row for
    /// each row of the right input that has its key, left fields first.
    ///
    /// Fails with [`JoinError::Parse`] exactly where the scan of either
    /// input faults.
    pub fn inner_join(self) -> (res: Result<Vec<Row>, JoinError>)
        ensures
            outcome_view(res) == self.inner_outcome(),
    {
        proof {
            use_type_invariant(&self);
        }
        let Join { rdr1, sel1, rdr2, sel2, no_headers: _ } = self;
        let mut rdr1 = rdr1;
        let mut validx = match ValueIndex::new(rdr2, &sel2, Side::Right) {
            Ok(validx) => validx,
            Err(e) => {
                return Err(e);
            },
        };
        let ghost b = validx.rows@;
        let ghost mut a: Seq<Fields> = Seq::empty();
        let mut out: Vec<Row> = Vec::new();
        proof {
            lemma_scan_start(rdr1.rest());
            assert(rows_view(out) =~= inner_join(a, sel1@, b, sel2@));
        }
        loop
            invariant
                self.left().moved(rdr1, rdr1.pos()),
                self.right().rows() == Some(b),
                sel1@ == self.sel1(),
                sel2@ == self.sel2(),
                in_range(sel1@, rdr1.width()),
                preceded(a, rdr1.rest()) == self.left().rows(),
                validx.wf(),
                validx.rows@ == b,
                validx.sel@ == sel2@,
                rows_view(out) == inner_join(a, sel1@, b, sel2@),
            ensures
                self.left().rows() == Some(a),
                rows_view(out) == inner_join(a, sel1@, b, sel2@),
            decreases rdr1.data().len() - rdr1.pos(),
        {
            let ghost at = rdr1;
            match rdr1.read() {
                Err(e) => {
                    proof {
                        assert(at.rest() is None);
                    }
                    return Err(e);
                },
                Ok(None) => {
                    proof {
                        assert(at.rest() == Some(Seq::<Fields>::empty()));
                        assert(a + Seq::<Fields>::empty() =~= a);
                    }
                    break ;
                },
                Ok(Some(row)) => {
                    let ghost fields = row_view(row);
                    proof {
                        lemma_scan_step(at.data(), at.delimiter(), at.width(), a, at.pos());
                    }
                    let key = select(&row, &sel1);
                    let ghost hits = positions(b, sel2@, row_view(key));
                    proof {
                        lemma_positions(b, sel2@, row_view(key));
                    }
                    match validx.values.get(&key) {
                        None => {
                            proof {
                                assert(inner_rows(fields, sel1@, b, sel2@) =~= Seq::<
                                    Fields,
                                >::empty());
                                assert(rows_view(out) + Seq::<Fields>::empty() =~= rows_view(out));
                            }
                        },
                        Some(list) => {
                            let ghost prior = rows_view(out);
                            proof {
                                assert(as_ints(list@) == hits);
                                assert forall|k: int| 0 <= k < list@.len() implies list@[k]
                                    < b.len() by {
                                    assert(as_ints(list@)[k] == hits[k]);
                                }
                            }
                            match emit_matches(&mut validx.idx, list, &row, true, &mut out, Ghost(b)) {
                                Err(e) => {
                                    return Err(e);
                                },
                                Ok(()) => {},
                            }
                            proof {
                                assert(Seq::new(
                                    list@.len(),
                                    |k: int| paired(fields, b[list@[k] as int], true),
                                ) =~= inner_rows(fields, sel1@, b, sel2@)) by {
                                    assert forall|k: int| 0 <= k < list@.len() implies list@[k] as int
                                        == hits[k] by {
                                        assert(as_ints(list@)[k] == hits[k]);
                                    }
                                }
                            }
                        },
                    }
                    proof {
                        assert(a.push(fields).drop_last() =~= a);
                        a = a.push(fields);
                    }
                },
            }
        }
        Ok(out)
    }

    /// The outer join that keeps every row of the input on `side`: each of
    /// its rows, in order, with every row of the other input that has its
    /// key, or once with empty fields in place of the other input. The fields
    /// of the left input come first in either direction.
    ///
    /// Fails with [`JoinError::Parse`] exactly where the scan of either
    /// input faults.
    pub fn outer_join(self, side: Side) -> (res: Result<Vec<Row>, JoinError>)
        ensures
            outcome_view(res) == self.outer_outcome(side),
    {
        proof {
            use_type_invariant(&self);
        }
        let Join { rdr1, sel1, rdr2, sel2, no_headers: _ } = self;
        match side {
            Side::Left => outer_scan(rdr1, &sel1, rdr2, &sel2, true),
            Side::Right => outer_scan(rdr2, &sel2, rdr1, &sel1, false),
        }
    }

    /// The full outer join: the left outer join, then every row of the right
    /// input that no left row matched, in the order of the right input, each
    /// behind empty fields in place of the left input.
    ///
    /// Fails with [`JoinError::Parse`] exactly where the scan of either
    /// input faults.
    pub fn full_outer_join(self) -> (res: Result<Vec<Row>, JoinError>)
        ensures
            outcome_view(res) == self.full_outer_outcome(),
    {
        proof {
            use_type_invariant(&self);
        }
        let (pad1, pad2) = self.get_padding();
        let Join { rdr1, sel1, rdr2, sel2, no_headers: _ } = self;
        let mut rdr1 = rdr1;
        let mut validx = match ValueIndex::new(rdr2, &sel2, Side::Right) {
            Ok(validx) => validx,
            Err(e) => {
                return Err(e);
            },
        };
        let ghost b = validx.rows@;
        let ghost w1 = self.left().width();
        let ghost w2 = self.right().width();
        let ghost mut a: Seq<Fields> = Seq::empty();
        // Which rows of the right input have been written.
        let mut written = unwritten(validx.num_rows);
        let mut out: Vec<Row> = Vec::new();
        proof {
            lemma_scan_start(rdr1.rest());
            assert(rows_view(out) =~= left_outer_join(a, sel1@, b, sel2@, w2));
        }
        loop
            invariant
                self.left().moved(rdr1, rdr1.pos()),
                self.right().rows() == Some(b),
                sel1@ == self.sel1(),
                sel2@ == self.sel2(),
                w1 == self.left().width(),
                w2 == self.right().width(),
                row_view(pad1) == blank(w1),
                row_view(pad2) == blank(w2),
                in_range(sel1@, rdr1.width()),
                preceded(a, rdr1.rest()) == self.left().rows(),
                validx.wf(),
                validx.rows@ == b,
                validx.sel@ == sel2@,
                written@.len() == b.len(),
                forall|j: int|
                    0 <= j < b.len() ==> #[trigger] written@[j] == (matching(
                        b[j],
                        sel2@,
                        a,
                        sel1@,
                    ).len() > 0),
                rows_view(out) == left_outer_join(a, sel1@, b, sel2@, w2),
            ensures
                self.left().rows() == Some(a),
                validx.wf(),
                validx.rows@ == b,
                written@.len() == b.len(),
                forall|j: int|
                    0 <= j < b.len() ==> #[trigger] written@[j] == (matching(
                        b[j],
                        sel2@,
                        a,
                        sel1@,
                    ).len() > 0),
                rows_view(out) == left_outer_join(a, sel1@, b, sel2@, w2),
            decreases rdr1.data().len() - rdr1.pos(),
        {
            let ghost at = rdr1;
            match rdr1.read() {
                Err(e) => {
                    proof {
                        assert(at.rest() is None);
                    }
                    return Err(e);
                },
                Ok(None) => {
                    proof {
                        assert(at.rest() == Some(Seq::<Fields>::empty()));
                        assert(a + Seq::<Fields>::empty() =~= a);
                    }
                    break ;
                },
                Ok(Some(row1)) => {
                    let ghost fields = row_view(row1);
                    proof {
                        lemma_scan_step(at.data(), at.delimiter(), at.width(), a, at.pos());
                    }
                    let key = select(&row1, &sel1);
                    let ghost hits = positions(b, sel2@, row_view(key));
                    let ghost marks = written@;
                    proof {
                        lemma_positions(b, sel2@, row_view(key));
                    }
                    match validx.values.get(&key) {
                        None => {
                            let joined = combine(&row1, &pad2);
                            let ghost prev = out;
                            out.push(joined);
                            proof {
                                lemma_rows_view_push(prev, out, joined);
                                assert(rows_view(prev).push(row_view(joined)) =~= rows_view(prev)
                                    + outer_rows(fields, sel1@, b, sel2@, w2, true));
                            }
                        },
                        Some(list) => {
                            proof {
                                assert(as_ints(list@) == hits);
                                assert forall|k: int| 0 <= k < list@.len() implies list@[k]
                                    < b.len() by {
                                    assert(as_ints(list@)[k] == hits[k]);
                                }
                            }
                            mark_written(&mut written, list);
                            match emit_matches(&mut validx.idx, list, &row1, true, &mut out, Ghost(b)) {
                                Err(e) => {
                                    return Err(e);
                                },
                                Ok(()) => {},
                            }
                            proof {
                                assert(Seq::new(
                                    list@.len(),
                                    |k: int| paired(fields, b[list@[k] as int], true),
                                ) =~= outer_rows(fields, sel1@, b, sel2@, w2, true)) by {
                                    assert forall|k: int| 0 <= k < list@.len() implies list@[k] as int
                                        == hits[k] by {
                                        assert(as_ints(list@)[k] == hits[k]);
                                    }
                                }
                            }
                        },
                    }
                    proof {
                        let grown = a.push(fields);
                        assert(grown.drop_last() =~= a);
                        assert forall|j: int| 0 <= j < b.len() implies #[trigger] written@[j] == (
                        matching(b[j], sel2@, grown, sel1@).len() > 0) by {
                            assert(marks[j] == (matching(b[j], sel2@, a, sel1@).len() > 0));
                            if key_of(b[j], sel2@) == row_view(key) {
                                assert(hits.contains(j));
                            }
                            if hits.contains(j) {
                                let k = choose|k: int| 0 <= k < hits.len() && hits[k] == j;
                                assert(key_of(b[hits[k]], sel2@) == row_view(key));
                            }
                        }
                        a = grown;
                    }
                },
            }
        }
        // Now the rows of the right input that were joined with none of the
        // left one.
        let ghost joined_rows = rows_view(out);
        let mut i: usize = 0;
        proof {
            assert(b.take(0) =~= Seq::<Fields>::empty());
            assert(rows_view(out) =~= joined_rows + unmatched(a, sel1@, b.take(0), sel2@, w1));
        }
        while i < written.len()
            invariant
                i <= written@.len(),
                written@.len() == b.len(),
                row_view(pad1) == blank(w1),
                validx.wf(),
                validx.rows@ == b,
                forall|j: int|
                    0 <= j < b.len() ==> #[trigger] written@[j] == (matching(
                        b[j],
                        sel2@,
                        a,
                        sel1@,
                    ).len() > 0),
                rows_view(out) == joined_rows + unmatched(a, sel1@, b.take(i as int), sel2@, w1),
            decreases written@.len() - i,
        {
            proof {
                assert(b.take(i + 1).drop_last() =~= b.take(i as int));
                assert(b.take(i + 1).last() == b[i as int]);
                assert(written@[i as int] == (matching(b[i as int], sel2@, a, sel1@).len() > 0));
            }
            if !written[i] {
                let ghost at = validx.idx;
                proof {
                    assert(at.step_of(i as int) is Row);
                }
                match validx.idx.fetch(i) {
                    Err(e) => {
                        return Err(e);
                    },
                    Ok(row2) => {
                        proof {
                            assert forall|n: int| 0 <= n < b.len() implies (
                            #[trigger] validx.idx.step_of(n)) is Row && validx.idx.step_of(n)->fields == b[n] by {
                                assert(validx.idx.step_of(n) == at.step_of(n));
                            }
                        }
                        let joined = combine(&pad1, &row2);
                        let ghost prev = out;
                        out.push(joined);
                        proof {
                            lemma_rows_view_push(prev, out, joined);
                            assert(rows_view(out) =~= joined_rows + unmatched(
                                a,
                                sel1@,
                                b.take(i + 1),
                                sel2@,
                                w1,
                            ));
                        }
                    },
                }
            }
            i += 1;
        }
        proof {
            assert(b.take(i as int) =~= b);
        }
        Ok(out)
    }

    /// The cross join: every row of the left input, in order, beside every
    /// row of the right one.
    ///
    /// For each left row the right input is read again from its start, and
    /// the first record found there is passed over as the header, whether or
    /// not the inputs have headers: where they have none, the first record
    /// of the right input is in no row of the result. Without a left row the
    /// right input is not read.
    ///
    /// Fails with [`JoinError::Parse`] exactly where the scan of the left
    /// input faults, or it has a row and the scan of the right input faults.
    pub fn cross_join(self) -> (res: Result<Vec<Row>, JoinError>)
        ensures
            outcome_view(res) == self.cross_outcome(),
    {
        proof {
            use_type_invariant(&self);
        }
        let Join { rdr1, sel1: _, rdr2, sel2: _, no_headers: _ } = self;
        let mut rdr1 = rdr1;
        let mut rdr2 = rdr2;
        let ghost mut a: Seq<Fields> = Seq::empty();
        let mut out: Vec<Row> = Vec::new();
        proof {
            lemma_scan_start(rdr1.rest());
            assert(rows_view(out) =~= Seq::<Fields>::empty());
        }
        loop
            invariant
                self.left().moved(rdr1, rdr1.pos()),
                self.right().moved(rdr2, rdr2.pos()),
                preceded(a, rdr1.rest()) == self.left().rows(),
                a.len() > 0 ==> self.right().rows_after_first() is Some,
                rows_view(out) == match self.right().rows_after_first() {
                    Some(b) => cross_join(a, b),
                    None => Seq::<Fields>::empty(),
                },
            ensures
                self.left().rows() == Some(a),
                a.len() > 0 ==> self.right().rows_after_first() is Some,
                rows_view(out) == match self.right().rows_after_first() {
                    Some(b) => cross_join(a, b),
                    None => Seq::<Fields>::empty(),
                },
            decreases rdr1.data().len() - rdr1.pos(),
        {
            let ghost at = rdr1;
            match rdr1.read() {
                Err(e) => {
                    proof {
                        assert(at.rest() is None);
                    }
                    return Err(e);
                },
                Ok(None) => {
                    proof {
                        assert(at.rest() == Some(Seq::<Fields>::empty()));
                        assert(a + Seq::<Fields>::empty() =~= a);
                    }
                    break ;
                },
                Ok(Some(row1)) => {
                    let ghost fields = row_view(row1);
                    proof {
                        lemma_scan_step(at.data(), at.delimiter(), at.width(), a, at.pos());
                    }
                    rdr2.rewind();
                    // Pass over the header row.
                    match rdr2.read() {
                        Err(e) => {
                            return Err(e);
                        },
                        Ok(_) => {},
                    }
                    let ghost prior = rows_view(out);
                    let ghost mut seen: Seq<Fields> = Seq::empty();
                    proof {
                        lemma_scan_start(rdr2.rest());
                        assert(rows_view(out) =~= prior + cross_rows(fields, seen));
                    }
                    loop
                        invariant
                            self.right().moved(rdr2, rdr2.pos()),
                            fields == row_view(row1),
                            preceded(seen, rdr2.rest()) == self.right().rows_after_first(),
                            preceded(a.push(fields), rdr1.rest()) == self.left().rows(),
                            rows_view(out) == prior + cross_rows(fields, seen),
                        ensures
                            self.right().moved(rdr2, rdr2.pos()),
                            self.right().rows_after_first() == Some(seen),
                            rows_view(out) == prior + cross_rows(fields, seen),
                        decreases rdr2.data().len() - rdr2.pos(),
                    {
                        let ghost here = rdr2;
                        match rdr2.read() {
                            Err(e) => {
                                proof {
                                    assert(here.rest() is None);
                                    assert(self.left().rows() matches Some(all) ==> all.len() > 0);
                                }
                                return Err(e);
                            },
                            Ok(None) => {
                                proof {
                                    assert(here.rest() == Some(Seq::<Fields>::empty()));
                                    assert(seen + Seq::<Fields>::empty() =~= seen);
                                }
                                break ;
                            },
                            Ok(Some(row2)) => {
                                proof {
                                    lemma_scan_step(
                                        here.data(),
                                        here.delimiter(),
                                        here.width(),
                                        seen,
                                        here.pos(),
                                    );
                                }
                                let joined = combine(&row1, &row2);
                                let ghost prev = out;
                                out.push(joined);
                                proof {
                                    lemma_rows_view_push(prev, out, joined);
                                    assert(rows_view(out) =~= prior + cross_rows(
                                        fields,
                                        seen.push(row_view(row2)),
                                    ));
                                    seen = seen.push(row_view(row2));
                                }
                            },
                        }
                    }
                    proof {
                        assert(a.push(fields).drop_last() =~= a);
                        a = a.push(fields);
                    }
                },
            }
        }
        Ok(out)
    }

    /// The header, unless there is none, and then the rows of the join of
    /// `kind`.
    pub fn run(self, kind: JoinKind) -> (res: Result<Vec<Row>, JoinError>)
        ensures
            outcome_view(res) == match self.outcome(kind) {
                Ok(rows) => Ok::<Seq<Fields>, JoinError>(self.header_rows() + rows),
                Err(e) => Err::<Seq<Fields>, JoinError>(e),
            },
    {
        let mut out: Vec<Row> = Vec::new();
        proof {
            assert(rows_view(out) =~= Seq::<Fields>::empty());
        }
        self.write_headers(&mut out);
        let joined = match kind {
            JoinKind::Inner => self.inner_join(),
            JoinKind::LeftOuter => self.outer_join(Side::Left),
            JoinKind::RightOuter => self.outer_join(Side::Right),
            JoinKind::FullOuter => self.full_outer_join(),
            JoinKind::Cross => self.cross_join(),
        };
        match joined {
            Err(e) => Err(e),
            Ok(mut rows) => {
                let ghost head = rows_view(out);
                let ghost tail = rows_view(rows);
                out.append(&mut rows);
                proof {
                    assert(rows_view(out) =~= head + tail);
                    assert(Seq::<Fields>::empty() + self.header_rows() =~= self.header_rows());
                }
                Ok(out)
            },
        }
    }

    /// The two padding rows: as many empty fields as the left input has
    /// columns, and as many as the right one has.
    pub fn get_padding(&self) -> (pads: (Row, Row))
        ensures
            row_view(pads.0) == blank(self.left().width()),
            row_view(pads.1) == blank(self.right().width()),
    {
        let len1 = self.rdr1.byte_headers().len();
        let len2 = self.rdr2.byte_headers().len();
        (padding(len1), padding(len2))
    }
}

} // verus!
