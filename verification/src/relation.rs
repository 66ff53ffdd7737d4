//! What the five joins are, as relations between lists of rows.
//!
//! A dataset is a `Seq` of rows and a selection a `Seq` of column positions.
//! Each join is defined row by row of its driving side, in the order of that
//! side; what the executable joins return is stated over these definitions.

use vstd::prelude::*;
use crate::row::{blank, Fields};

verus! {

/// Every position of `sel` lies inside a row of `width` fields.
pub open spec fn in_range(sel: Seq<usize>, width: nat) -> bool {
    forall|i: int| 0 <= i < sel.len() ==> sel[i] < width
}

/// Every row of `rows` has `width` fields.
pub open spec fn uniform(rows: Seq<Fields>, width: nat) -> bool {
    forall|i: int| 0 <= i < rows.len() ==> (#[trigger] rows[i]).len() == width
}

/// The key tuple of `row`: its fields at the positions of `sel`, in the
/// order of `sel`.
pub open spec fn key_of(row: Fields, sel: Seq<usize>) -> Fields {
    Seq::new(sel.len(), |i: int| row[sel[i] as int])
}

/// The ordinals of the rows of `rows` whose key tuple under `sel` is `key`,
/// in ascending order.
pub open spec fn positions(rows: Seq<Fields>, sel: Seq<usize>, key: Fields) -> Seq<int>
    decreases rows.len(),
{
    if rows.len() == 0 {
        Seq::empty()
    } else {
        let before = positions(rows.drop_last(), sel, key);
        if key_of(rows.last(), sel) == key {
            before.push(rows.len() - 1)
        } else {
            before
        }
    }
}

/// The ordinals that [`positions`] gives lie inside `rows`, ascend, and are
/// those of the rows whose key tuple is `key`.
pub proof fn lemma_positions(rows: Seq<Fields>, sel: Seq<usize>, key: Fields)
    ensures
        positions(rows, sel, key).len() <= rows.len(),
        forall|k: int|
            0 <= k < positions(rows, sel, key).len() ==> {
                &&& 0 <= #[trigger] positions(rows, sel, key)[k] < rows.len()
                &&& key_of(rows[positions(rows, sel, key)[k]], sel) == key
            },
        forall|j: int, k: int|
            0 <= j < k < positions(rows, sel, key).len() ==> positions(rows, sel, key)[j]
                < positions(rows, sel, key)[k],
        forall|i: int|
            0 <= i < rows.len() && key_of(#[trigger] rows[i], sel) == key ==> positions(
                rows,
                sel,
                key,
            ).contains(i),
    decreases rows.len(),
{
    if rows.len() > 0 {
        let front = rows.drop_last();
        lemma_positions(front, sel, key);
        let before = positions(front, sel, key);
        let all = positions(rows, sel, key);
        assert forall|i: int| 0 <= i < rows.len() && key_of(#[trigger] rows[i], sel)
            == key implies all.contains(i) by {
            if i < rows.len() - 1 {
                assert(front[i] == rows[i]);
                let k = choose|k: int| 0 <= k < before.len() && before[k] == i;
                assert(all[k] == i);
            } else {
                assert(all[all.len() - 1] == i);
            }
        }
        assert forall|k: int| 0 <= k < all.len() implies key_of(rows[#[trigger] all[k]], sel)
            == key by {
            if k < before.len() {
                assert(front[before[k]] == rows[before[k]]);
            }
        }
    }
}

/// The ordinals of the rows of `indexed` that `driving` matches: those whose
/// key under `sel_i` is the key of `driving` under `sel_d`.
pub open spec fn matching(
    driving: Fields,
    sel_d: Seq<usize>,
    indexed: Seq<Fields>,
    sel_i: Seq<usize>,
) -> Seq<int> {
    positions(indexed, sel_i, key_of(driving, sel_d))
}

/// A driving row and a row of the other side as one output row. The fields of
/// the left input always come first: `driving_left` says which of the two
/// that is.
pub open spec fn paired(driving: Fields, other: Fields, driving_left: bool) -> Fields {
    if driving_left {
        driving + other
    } else {
        other + driving
    }
}

/// The rows that one driving row adds to an inner join: one for each match,
/// in the order of the indexed side.
pub open spec fn inner_rows(
    driving: Fields,
    sel_d: Seq<usize>,
    indexed: Seq<Fields>,
    sel_i: Seq<usize>,
) -> Seq<Fields> {
    let at = matching(driving, sel_d, indexed, sel_i);
    Seq::new(at.len(), |k: int| driving + indexed[at[k]])
}

/// The inner join of `left` and `right`.
pub open spec fn inner_join(
    left: Seq<Fields>,
    sel1: Seq<usize>,
    right: Seq<Fields>,
    sel2: Seq<usize>,
) -> Seq<Fields>
    decreases left.len(),
{
    if left.len() == 0 {
        Seq::empty()
    } else {
        inner_join(left.drop_last(), sel1, right, sel2) + inner_rows(
            left.last(),
            sel1,
            right,
            sel2,
        )
    }
}

/// The rows that one driving row adds to an outer join: one for each match,
/// or, without a match, the row itself beside `pad` empty fields.
pub open spec fn outer_rows(
    driving: Fields,
    sel_d: Seq<usize>,
    indexed: Seq<Fields>,
    sel_i: Seq<usize>,
    pad: nat,
    driving_left: bool,
) -> Seq<Fields> {
    let at = matching(driving, sel_d, indexed, sel_i);
    if at.len() == 0 {
        seq![paired(driving, blank(pad), driving_left)]
    } else {
        Seq::new(at.len(), |k: int| paired(driving, indexed[at[k]], driving_left))
    }
}

/// The outer join that keeps every row of `driving`.
pub open spec fn outer_join(
    driving: Seq<Fields>,
    sel_d: Seq<usize>,
    indexed: Seq<Fields>,
    sel_i: Seq<usize>,
    pad: nat,
    driving_left: bool,
) -> Seq<Fields>
    decreases driving.len(),
{
    if driving.len() == 0 {
        Seq::empty()
    } else {
        outer_join(driving.drop_last(), sel_d, indexed, sel_i, pad, driving_left) + outer_rows(
            driving.last(),
            sel_d,
            indexed,
            sel_i,
            pad,
            driving_left,
        )
    }
}

/// The left outer join: `left` drives, and a row without a match is padded
/// on the right with `right_width` empty fields.
pub open spec fn left_outer_join(
    left: Seq<Fields>,
    sel1: Seq<usize>,
    right: Seq<Fields>,
    sel2: Seq<usize>,
    right_width: nat,
) -> Seq<Fields> {
    outer_join(left, sel1, right, sel2, right_width, true)
}

/// The right outer join: `right` drives, and a row without a match is padded
/// on the left with `left_width` empty fields.
pub open spec fn right_outer_join(
    left: Seq<Fields>,
    sel1: Seq<usize>,
    right: Seq<Fields>,
    sel2: Seq<usize>,
    left_width: nat,
) -> Seq<Fields> {
    outer_join(right, sel2, left, sel1, left_width, false)
}

/// The rows of `right` that no row of `left` matches, in the order of
/// `right`, each behind `left_width` empty fields.
pub open spec fn unmatched(
    left: Seq<Fields>,
    sel1: Seq<usize>,
    right: Seq<Fields>,
    sel2: Seq<usize>,
    left_width: nat,
) -> Seq<Fields>
    decreases right.len(),
{
    if right.len() == 0 {
        Seq::empty()
    } else {
        let before = unmatched(left, sel1, right.drop_last(), sel2, left_width);
        if matching(right.last(), sel2, left, sel1).len() == 0 {
            before.push(blank(left_width) + right.last())
        } else {
            before
        }
    }
}

/// The full outer join: the left outer join, then the rows of `right` that
/// it left out.
pub open spec fn full_outer_join(
    left: Seq<Fields>,
    sel1: Seq<usize>,
    right: Seq<Fields>,
    sel2: Seq<usize>,
    left_width: nat,
    right_width: nat,
) -> Seq<Fields> {
    left_outer_join(left, sel1, right, sel2, right_width) + unmatched(
        left,
        sel1,
        right,
        sel2,
        left_width,
    )
}

/// The rows that one left row adds to a cross join: one for each row of
/// `right`.
pub open spec fn cross_rows(driving: Fields, right: Seq<Fields>) -> Seq<Fields> {
    Seq::new(right.len(), |j: int| driving + right[j])
}

/// The cross join: every row of `left` beside every row of `right`.
pub open spec fn cross_join(left: Seq<Fields>, right: Seq<Fields>) -> Seq<Fields>
    decreases left.len(),
{
    if left.len() == 0 {
        Seq::empty()
    } else {
        cross_join(left.drop_last(), right) + cross_rows(left.last(), right)
    }
}

} // verus!
