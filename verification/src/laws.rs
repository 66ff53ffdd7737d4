//! What holds of the joins, proved from their definitions.
//!
//! The executable joins return what the relations of [`crate::relation`]
//! define, so each law here holds of what they return.

use vstd::prelude::*;
use crate::join::{Join, JoinKind};
use crate::reader::lemma_scan_uniform;
use crate::relation::{
    cross_join,
    cross_rows,
    full_outer_join,
    inner_join,
    inner_rows,
    key_of,
    left_outer_join,
    lemma_positions,
    matching,
    outer_join,
    outer_rows,
    paired,
    right_outer_join,
    uniform,
    unmatched,
};
use crate::row::{blank, Fields};

verus! {

/// The number of pairs of a left row and a right row with the same key: the
/// sum, over the rows of `left`, of the number of rows that each matches.
pub open spec fn match_count(
    left: Seq<Fields>,
    sel1: Seq<usize>,
    right: Seq<Fields>,
    sel2: Seq<usize>,
) -> nat
    decreases left.len(),
{
    if left.len() == 0 {
        0
    } else {
        match_count(left.drop_last(), sel1, right, sel2) + matching(
            left.last(),
            sel1,
            right,
            sel2,
        ).len()
    }
}

/// The number of rows of an outer join: for each driving row the number of
/// its matches, or 1 where it has none.
pub open spec fn outer_count(
    driving: Seq<Fields>,
    sel_d: Seq<usize>,
    indexed: Seq<Fields>,
    sel_i: Seq<usize>,
) -> nat
    decreases driving.len(),
{
    if driving.len() == 0 {
        0
    } else {
        let hits = matching(driving.last(), sel_d, indexed, sel_i).len();
        outer_count(driving.drop_last(), sel_d, indexed, sel_i) + if hits == 0 {
            1
        } else {
            hits
        }
    }
}

/// The first `width` fields of an output row: the part of the left input.
pub open spec fn left_part(row: Fields, width: nat) -> Fields {
    row.subrange(0, width as int)
}

/// The fields of an output row behind the first `width`: the part of the
/// right input.
pub open spec fn right_part(row: Fields, width: nat) -> Fields {
    row.subrange(width as int, row.len() as int)
}

/// The inner join has one row for each pair of a left row and a right row
/// with the same key.
pub proof fn lemma_inner_join_count(
    left: Seq<Fields>,
    sel1: Seq<usize>,
    right: Seq<Fields>,
    sel2: Seq<usize>,
)
    ensures
        inner_join(left, sel1, right, sel2).len() == match_count(left, sel1, right, sel2),
    decreases left.len(),
{
    if left.len() > 0 {
        lemma_inner_join_count(left.drop_last(), sel1, right, sel2);
    }
}

/// The inner join of a list of left rows in two parts is the join of the
/// first part followed by the join of the second.
pub proof fn lemma_inner_join_concat(
    front: Seq<Fields>,
    back: Seq<Fields>,
    sel1: Seq<usize>,
    right: Seq<Fields>,
    sel2: Seq<usize>,
)
    ensures
        inner_join(front + back, sel1, right, sel2) == inner_join(front, sel1, right, sel2)
            + inner_join(back, sel1, right, sel2),
    decreases back.len(),
{
    if back.len() == 0 {
        assert(front + back =~= front);
        assert(inner_join(front, sel1, right, sel2) + Seq::<Fields>::empty() =~= inner_join(
            front,
            sel1,
            right,
            sel2,
        ));
    } else {
        lemma_inner_join_concat(front, back.drop_last(), sel1, right, sel2);
        assert((front + back).drop_last() =~= front + back.drop_last());
        assert((front + back).last() == back.last());
        let a = inner_join(front, sel1, right, sel2);
        let b = inner_join(back.drop_last(), sel1, right, sel2);
        let c = inner_rows(back.last(), sel1, right, sel2);
        assert((a + b) + c =~= a + (b + c));
    }
}

/// The inner join of one left row is what that row adds.
pub proof fn lemma_inner_join_single(
    row: Fields,
    sel1: Seq<usize>,
    right: Seq<Fields>,
    sel2: Seq<usize>,
)
    ensures
        inner_join(seq![row], sel1, right, sel2) == inner_rows(row, sel1, right, sel2),
{
    let one = seq![row];
    assert(one.drop_last() =~= Seq::<Fields>::empty());
    assert(inner_join(one.drop_last(), sel1, right, sel2) =~= Seq::<Fields>::empty());
    assert(one.last() == row);
    assert(Seq::<Fields>::empty() + inner_rows(row, sel1, right, sel2) =~= inner_rows(
        row,
        sel1,
        right,
        sel2,
    ));
}

/// The rows that left row `i` adds to the inner join stand together in it,
/// behind the rows of the left rows before `i`: one for each right row that
/// `i` matches, in the order of the right input.
pub proof fn lemma_inner_join_block(
    left: Seq<Fields>,
    sel1: Seq<usize>,
    right: Seq<Fields>,
    sel2: Seq<usize>,
    i: int,
)
    requires
        0 <= i < left.len(),
    ensures
        ({
            let joined = inner_join(left, sel1, right, sel2);
            let start = inner_join(left.take(i), sel1, right, sel2).len();
            let hits = matching(left[i], sel1, right, sel2);
            &&& start + hits.len() <= joined.len()
            &&& forall|k: int|
                0 <= k < hits.len() ==> #[trigger] joined[start + k] == left[i] + right[hits[k]]
        }),
{
    let front = left.take(i);
    let one = seq![left[i]];
    let back = left.skip(i + 1);
    assert(left =~= (front + one) + back);
    lemma_inner_join_concat(front + one, back, sel1, right, sel2);
    lemma_inner_join_concat(front, one, sel1, right, sel2);
    lemma_inner_join_single(left[i], sel1, right, sel2);
}

/// In every row of the inner join, the key of the left part under the left
/// selection is the key of the right part under the right selection.
pub proof fn lemma_inner_join_keys(
    left: Seq<Fields>,
    sel1: Seq<usize>,
    right: Seq<Fields>,
    sel2: Seq<usize>,
    width: nat,
)
    requires
        uniform(left, width),
    ensures
        forall|n: int|
            0 <= n < inner_join(left, sel1, right, sel2).len() ==> key_of(
                left_part(#[trigger] inner_join(left, sel1, right, sel2)[n], width),
                sel1,
            ) == key_of(right_part(inner_join(left, sel1, right, sel2)[n], width), sel2),
    decreases left.len(),
{
    if left.len() > 0 {
        let front = left.drop_last();
        let last = left.last();
        lemma_inner_join_keys(front, sel1, right, sel2, width);
        let before = inner_join(front, sel1, right, sel2);
        let joined = inner_join(left, sel1, right, sel2);
        let hits = matching(last, sel1, right, sel2);
        lemma_positions(right, sel2, key_of(last, sel1));
        assert forall|n: int| 0 <= n < joined.len() implies key_of(
            left_part(#[trigger] joined[n], width),
            sel1,
        ) == key_of(right_part(joined[n], width), sel2) by {
            if n < before.len() {
                assert(joined[n] == before[n]);
            } else {
                let k = n - before.len();
                let other = right[hits[k]];
                assert(joined[n] == last + other);
                assert(left_part(last + other, width) =~= last);
                assert(right_part(last + other, width) =~= other);
            }
        }
    }
}

/// An outer join has, for each driving row, as many rows as the row has
/// matches, or one where it has none.
pub proof fn lemma_outer_join_count(
    driving: Seq<Fields>,
    sel_d: Seq<usize>,
    indexed: Seq<Fields>,
    sel_i: Seq<usize>,
    pad: nat,
    driving_left: bool,
)
    ensures
        outer_join(driving, sel_d, indexed, sel_i, pad, driving_left).len() == outer_count(
            driving,
            sel_d,
            indexed,
            sel_i,
        ),
        outer_join(driving, sel_d, indexed, sel_i, pad, driving_left).len() >= driving.len(),
    decreases driving.len(),
{
    if driving.len() > 0 {
        lemma_outer_join_count(driving.drop_last(), sel_d, indexed, sel_i, pad, driving_left);
    }
}

/// The outer join of a list of driving rows in two parts is the join of the
/// first part followed by the join of the second.
pub proof fn lemma_outer_join_concat(
    front: Seq<Fields>,
    back: Seq<Fields>,
    sel_d: Seq<usize>,
    indexed: Seq<Fields>,
    sel_i: Seq<usize>,
    pad: nat,
    driving_left: bool,
)
    ensures
        outer_join(front + back, sel_d, indexed, sel_i, pad, driving_left) == outer_join(
            front,
            sel_d,
            indexed,
            sel_i,
            pad,
            driving_left,
        ) + outer_join(back, sel_d, indexed, sel_i, pad, driving_left),
    decreases back.len(),
{
    let a = outer_join(front, sel_d, indexed, sel_i, pad, driving_left);
    if back.len() == 0 {
        assert(front + back =~= front);
        assert(a + Seq::<Fields>::empty() =~= a);
    } else {
        lemma_outer_join_concat(front, back.drop_last(), sel_d, indexed, sel_i, pad, driving_left);
        assert((front + back).drop_last() =~= front + back.drop_last());
        assert((front + back).last() == back.last());
        let b = outer_join(back.drop_last(), sel_d, indexed, sel_i, pad, driving_left);
        let c = outer_rows(back.last(), sel_d, indexed, sel_i, pad, driving_left);
        assert((a + b) + c =~= a + (b + c));
    }
}

/// The outer join of one driving row is what that row adds.
pub proof fn lemma_outer_join_single(
    row: Fields,
    sel_d: Seq<usize>,
    indexed: Seq<Fields>,
    sel_i: Seq<usize>,
    pad: nat,
    driving_left: bool,
)
    ensures
        outer_join(seq![row], sel_d, indexed, sel_i, pad, driving_left) == outer_rows(
            row,
            sel_d,
            indexed,
            sel_i,
            pad,
            driving_left,
        ),
{
    let one = seq![row];
    let rows = outer_rows(row, sel_d, indexed, sel_i, pad, driving_left);
    assert(one.drop_last() =~= Seq::<Fields>::empty());
    assert(outer_join(one.drop_last(), sel_d, indexed, sel_i, pad, driving_left) =~= Seq::<
        Fields,
    >::empty());
    assert(one.last() == row);
    assert(Seq::<Fields>::empty() + rows =~= rows);
}

/// The rows that driving row `i` adds to an outer join stand together in
/// it, behind the rows of the driving rows before `i`. Without a match
/// there is exactly one: the row beside `pad` empty fields. With matches
/// there is exactly one for each, in the order of the other input.
pub proof fn lemma_outer_join_block(
    driving: Seq<Fields>,
    sel_d: Seq<usize>,
    indexed: Seq<Fields>,
    sel_i: Seq<usize>,
    pad: nat,
    driving_left: bool,
    i: int,
)
    requires
        0 <= i < driving.len(),
    ensures
        ({
            let joined = outer_join(driving, sel_d, indexed, sel_i, pad, driving_left);
            let start = outer_join(driving.take(i), sel_d, indexed, sel_i, pad, driving_left).len();
            let end = outer_join(
                driving.take(i + 1),
                sel_d,
                indexed,
                sel_i,
                pad,
                driving_left,
            ).len();
            let hits = matching(driving[i], sel_d, indexed, sel_i);
            &&& end <= joined.len()
            &&& hits.len() == 0 ==> end == start + 1 && joined[start as int] == paired(
                driving[i],
                blank(pad),
                driving_left,
            )
            &&& hits.len() > 0 ==> end == start + hits.len() && forall|k: int|
                0 <= k < hits.len() ==> #[trigger] joined[start + k] == paired(
                    driving[i],
                    indexed[hits[k]],
                    driving_left,
                )
        }),
{
    let front = driving.take(i);
    let one = seq![driving[i]];
    let back = driving.skip(i + 1);
    assert(driving =~= (front + one) + back);
    assert(driving.take(i + 1) =~= front + one);
    lemma_outer_join_concat(front + one, back, sel_d, indexed, sel_i, pad, driving_left);
    lemma_outer_join_concat(front, one, sel_d, indexed, sel_i, pad, driving_left);
    lemma_outer_join_single(driving[i], sel_d, indexed, sel_i, pad, driving_left);
}

/// The left outer join holds every left row: row `i` as the left part of
/// each row of its block. A left row without a match stands there once,
/// with every field of the right part empty; one with matches stands there
/// once for each, beside the row that it matches.
pub proof fn lemma_left_outer_join_rows(
    left: Seq<Fields>,
    sel1: Seq<usize>,
    right: Seq<Fields>,
    sel2: Seq<usize>,
    left_width: nat,
    right_width: nat,
    i: int,
)
    requires
        uniform(left, left_width),
        0 <= i < left.len(),
    ensures
        ({
            let joined = left_outer_join(left, sel1, right, sel2, right_width);
            let start = left_outer_join(left.take(i), sel1, right, sel2, right_width).len();
            let end = left_outer_join(left.take(i + 1), sel1, right, sel2, right_width).len();
            let hits = matching(left[i], sel1, right, sel2);
            &&& start < end <= joined.len()
            &&& end - start == if hits.len() == 0 {
                1
            } else {
                hits.len()
            }
            &&& forall|n: int|
                start <= n < end ==> left_part(#[trigger] joined[n], left_width) == left[i]
            &&& hits.len() == 0 ==> {
                &&& right_part(joined[start as int], left_width).len() == right_width
                &&& forall|f: int|
                    0 <= f < right_width ==> (#[trigger] right_part(
                        joined[start as int],
                        left_width,
                    )[f]).len() == 0
            }
            &&& forall|k: int|
                0 <= k < hits.len() ==> right_part(#[trigger] joined[start + k], left_width)
                    == right[hits[k]]
        }),
{
    lemma_outer_join_block(left, sel1, right, sel2, right_width, true, i);
    let joined = left_outer_join(left, sel1, right, sel2, right_width);
    let start = left_outer_join(left.take(i), sel1, right, sel2, right_width).len();
    let end = left_outer_join(left.take(i + 1), sel1, right, sel2, right_width).len();
    let hits = matching(left[i], sel1, right, sel2);
    if hits.len() == 0 {
        let row = joined[start as int];
        assert(row == left[i] + blank(right_width));
        assert(left_part(row, left_width) =~= left[i]);
        assert(right_part(row, left_width) =~= blank(right_width));
    } else {
        assert forall|n: int| start <= n < end implies left_part(
            #[trigger] joined[n],
            left_width,
        ) == left[i] by {
            let k = n - start;
            assert(joined[start + k] == left[i] + right[hits[k]]);
            assert(left_part(left[i] + right[hits[k]], left_width) =~= left[i]);
        }
        assert forall|k: int| 0 <= k < hits.len() implies right_part(
            #[trigger] joined[start + k],
            left_width,
        ) == right[hits[k]] by {
            assert(joined[start + k] == left[i] + right[hits[k]]);
            assert(right_part(left[i] + right[hits[k]], left_width) =~= right[hits[k]]);
        }
    }
}

/// The right outer join is the left outer join with the inputs exchanged,
/// but for the order of the columns: row for row, it holds the same two
/// parts, with the part of the left input put first.
pub proof fn lemma_right_outer_join_reversed(
    left: Seq<Fields>,
    sel1: Seq<usize>,
    right: Seq<Fields>,
    sel2: Seq<usize>,
    left_width: nat,
    right_width: nat,
)
    requires
        uniform(right, right_width),
    ensures
        ({
            let reversed = right_outer_join(left, sel1, right, sel2, left_width);
            let exchanged = left_outer_join(right, sel2, left, sel1, left_width);
            &&& reversed.len() == exchanged.len()
            &&& forall|n: int|
                0 <= n < reversed.len() ==> #[trigger] reversed[n] == right_part(
                    exchanged[n],
                    right_width,
                ) + left_part(exchanged[n], right_width)
        }),
    decreases right.len(),
{
    if right.len() > 0 {
        let front = right.drop_last();
        let last = right.last();
        lemma_right_outer_join_reversed(left, sel1, front, sel2, left_width, right_width);
        let reversed = right_outer_join(left, sel1, right, sel2, left_width);
        let exchanged = left_outer_join(right, sel2, left, sel1, left_width);
        let before = left_outer_join(front, sel2, left, sel1, left_width);
        let before_reversed = right_outer_join(left, sel1, front, sel2, left_width);
        let hits = matching(last, sel2, left, sel1);
        assert forall|n: int| 0 <= n < reversed.len() implies #[trigger] reversed[n]
            == right_part(exchanged[n], right_width) + left_part(exchanged[n], right_width) by {
            if n < before.len() {
                assert(reversed[n] == before_reversed[n]);
                assert(exchanged[n] == before[n]);
            } else {
                let other = if hits.len() == 0 {
                    blank(left_width)
                } else {
                    left[hits[n - before.len()]]
                };
                assert(exchanged[n] == last + other);
                assert(reversed[n] == other + last);
                assert(left_part(last + other, right_width) =~= last);
                assert(right_part(last + other, right_width) =~= other);
            }
        }
    }
}

/// The ordinals of the rows of `right` that no row of `left` matches, in
/// ascending order.
pub open spec fn unmatched_ordinals(
    left: Seq<Fields>,
    sel1: Seq<usize>,
    right: Seq<Fields>,
    sel2: Seq<usize>,
) -> Seq<int>
    decreases right.len(),
{
    if right.len() == 0 {
        Seq::empty()
    } else {
        let before = unmatched_ordinals(left, sel1, right.drop_last(), sel2);
        if matching(right.last(), sel2, left, sel1).len() == 0 {
            before.push(right.len() - 1)
        } else {
            before
        }
    }
}

/// [`unmatched_ordinals`] holds each ordinal of a right row without a match
/// once, and no other, in ascending order; and the rows that a full outer
/// join appends are the rows of these ordinals, in this order, each behind
/// `left_width` empty fields.
pub proof fn lemma_unmatched(
    left: Seq<Fields>,
    sel1: Seq<usize>,
    right: Seq<Fields>,
    sel2: Seq<usize>,
    left_width: nat,
)
    ensures
        ({
            let lonely = unmatched_ordinals(left, sel1, right, sel2);
            let rows = unmatched(left, sel1, right, sel2, left_width);
            &&& rows.len() == lonely.len()
            &&& forall|t: int|
                0 <= t < lonely.len() ==> {
                    &&& 0 <= #[trigger] lonely[t] < right.len()
                    &&& matching(right[lonely[t]], sel2, left, sel1).len() == 0
                    &&& rows[t] == blank(left_width) + right[lonely[t]]
                }
            &&& forall|s: int, t: int| 0 <= s < t < lonely.len() ==> lonely[s] < lonely[t]
            &&& forall|j: int|
                0 <= j < right.len() && matching(#[trigger] right[j], sel2, left, sel1).len()
                    == 0 ==> lonely.contains(j)
        }),
    decreases right.len(),
{
    if right.len() > 0 {
        let front = right.drop_last();
        lemma_unmatched(left, sel1, front, sel2, left_width);
        let before = unmatched_ordinals(left, sel1, front, sel2);
        let lonely = unmatched_ordinals(left, sel1, right, sel2);
        let rows = unmatched(left, sel1, right, sel2, left_width);
        assert forall|t: int| 0 <= t < lonely.len() implies {
            &&& 0 <= #[trigger] lonely[t] < right.len()
            &&& matching(right[lonely[t]], sel2, left, sel1).len() == 0
            &&& rows[t] == blank(left_width) + right[lonely[t]]
        } by {
            if t < before.len() {
                assert(front[before[t]] == right[before[t]]);
            }
        }
        assert forall|j: int|
            0 <= j < right.len() && matching(#[trigger] right[j], sel2, left, sel1).len()
                == 0 implies lonely.contains(j) by {
            if j < right.len() - 1 {
                assert(front[j] == right[j]);
                let t = choose|t: int| 0 <= t < before.len() && before[t] == j;
                assert(lonely[t] == j);
            } else {
                assert(lonely[lonely.len() - 1] == j);
            }
        }
    }
}

/// The full outer join holds every row of the right input: row `j` as the
/// right part of some row.
pub proof fn lemma_full_outer_join_keeps_right(
    left: Seq<Fields>,
    sel1: Seq<usize>,
    right: Seq<Fields>,
    sel2: Seq<usize>,
    left_width: nat,
    right_width: nat,
    j: int,
)
    requires
        uniform(left, left_width),
        0 <= j < right.len(),
    ensures
        ({
            let joined = full_outer_join(left, sel1, right, sel2, left_width, right_width);
            exists|n: int| 0 <= n < joined.len() && right_part(#[trigger] joined[n], left_width)
                == right[j]
        }),
{
    let joined = full_outer_join(left, sel1, right, sel2, left_width, right_width);
    let driven = left_outer_join(left, sel1, right, sel2, right_width);
    let givers = matching(right[j], sel2, left, sel1);
    lemma_positions(left, sel1, key_of(right[j], sel2));
    if givers.len() == 0 {
        lemma_unmatched(left, sel1, right, sel2, left_width);
        let lonely = unmatched_ordinals(left, sel1, right, sel2);
        let t = choose|t: int| 0 <= t < lonely.len() && lonely[t] == j;
        let n = driven.len() + t;
        assert(joined[n] == blank(left_width) + right[j]);
        assert(right_part(blank(left_width) + right[j], left_width) =~= right[j]);
    } else {
        let i = givers[0];
        assert(key_of(left[i], sel1) == key_of(right[j], sel2));
        lemma_positions(right, sel2, key_of(left[i], sel1));
        let hits = matching(left[i], sel1, right, sel2);
        assert(hits.contains(j));
        let k = choose|k: int| 0 <= k < hits.len() && hits[k] == j;
        lemma_outer_join_block(left, sel1, right, sel2, right_width, true, i);
        let start = left_outer_join(left.take(i), sel1, right, sel2, right_width).len();
        let n = start + k;
        assert(driven[n] == left[i] + right[j]);
        assert(joined[n] == driven[n]);
        assert(right_part(left[i] + right[j], left_width) =~= right[j]);
    }
}

/// The full outer join begins with the left outer join, which holds every
/// row of the left input, and ends with the rows of the right input that no
/// left row matches: each once, behind `left_width` empty fields, in the
/// order of the right input.
pub proof fn lemma_full_outer_join_parts(
    left: Seq<Fields>,
    sel1: Seq<usize>,
    right: Seq<Fields>,
    sel2: Seq<usize>,
    left_width: nat,
    right_width: nat,
)
    ensures
        ({
            let joined = full_outer_join(left, sel1, right, sel2, left_width, right_width);
            let driven = left_outer_join(left, sel1, right, sel2, right_width);
            let lonely = unmatched_ordinals(left, sel1, right, sel2);
            &&& joined.len() == driven.len() + lonely.len()
            &&& joined.subrange(0, driven.len() as int) == driven
            &&& forall|t: int|
                0 <= t < lonely.len() ==> {
                    &&& left_part(#[trigger] joined[driven.len() + t], left_width) == blank(
                        left_width,
                    )
                    &&& right_part(joined[driven.len() + t], left_width) == right[lonely[t]]
                }
        }),
{
    lemma_unmatched(left, sel1, right, sel2, left_width);
    let joined = full_outer_join(left, sel1, right, sel2, left_width, right_width);
    let driven = left_outer_join(left, sel1, right, sel2, right_width);
    let lonely = unmatched_ordinals(left, sel1, right, sel2);
    let rows = unmatched(left, sel1, right, sel2, left_width);
    assert(joined.subrange(0, driven.len() as int) =~= driven);
    assert forall|t: int| 0 <= t < lonely.len() implies {
        &&& left_part(#[trigger] joined[driven.len() + t], left_width) == blank(left_width)
        &&& right_part(joined[driven.len() + t], left_width) == right[lonely[t]]
    } by {
        let row = blank(left_width) + right[lonely[t]];
        assert(joined[driven.len() + t] == rows[t]);
        assert(left_part(row, left_width) =~= blank(left_width));
        assert(right_part(row, left_width) =~= right[lonely[t]]);
    }
}

/// The cross join has as many rows as the product of the two row counts.
pub proof fn lemma_cross_join_count(left: Seq<Fields>, right: Seq<Fields>)
    ensures
        cross_join(left, right).len() == left.len() * right.len(),
    decreases left.len(),
{
    let m = right.len() as int;
    if left.len() == 0 {
        assert(0 * m == 0) by (nonlinear_arith);
    } else {
        let n = left.len() - 1;
        lemma_cross_join_count(left.drop_last(), right);
        assert((n + 1) * m == n * m + m) by (nonlinear_arith);
    }
}

/// In the cross join, the row of left row `i` and right row `j` stands at
/// `i * |right| + j`: the left rows in their order, and for each of them
/// the right rows in theirs.
pub proof fn lemma_cross_join_row(left: Seq<Fields>, right: Seq<Fields>, i: int, j: int)
    requires
        0 <= i < left.len(),
        0 <= j < right.len(),
    ensures
        0 <= i * right.len() + j < cross_join(left, right).len(),
        cross_join(left, right)[i * right.len() + j] == left[i] + right[j],
    decreases left.len(),
{
    let m = right.len() as int;
    let n = left.len() - 1;
    let front = left.drop_last();
    lemma_cross_join_count(left, right);
    lemma_cross_join_count(front, right);
    assert((n + 1) * m == n * m + m) by (nonlinear_arith);
    assert(0 <= i * m && i * m + m <= (n + 1) * m) by (nonlinear_arith)
        requires
            0 <= i <= n,
            0 <= m,
    ;
    if i < n {
        lemma_cross_join_row(front, right, i, j);
        assert(front[i] == left[i]);
    } else {
        assert(cross_join(left, right)[n * m + j] == cross_rows(left.last(), right)[j]);
    }
}

/// Every row of a join of rows of `left_width` and of `right_width` fields
/// has `left_width + right_width` fields.
pub proof fn lemma_join_widths(
    left: Seq<Fields>,
    sel1: Seq<usize>,
    right: Seq<Fields>,
    sel2: Seq<usize>,
    left_width: nat,
    right_width: nat,
)
    requires
        uniform(left, left_width),
        uniform(right, right_width),
    ensures
        uniform(inner_join(left, sel1, right, sel2), left_width + right_width),
        uniform(left_outer_join(left, sel1, right, sel2, right_width), left_width + right_width),
        uniform(right_outer_join(left, sel1, right, sel2, left_width), left_width + right_width),
        uniform(
            full_outer_join(left, sel1, right, sel2, left_width, right_width),
            left_width + right_width,
        ),
        uniform(cross_join(left, right), left_width + right_width),
{
    lemma_inner_join_width(left, sel1, right, sel2, left_width, right_width);
    lemma_outer_join_width(left, sel1, right, sel2, left_width, right_width, true);
    lemma_outer_join_width(right, sel2, left, sel1, right_width, left_width, false);
    lemma_cross_join_width(left, right, left_width, right_width);
    lemma_unmatched(left, sel1, right, sel2, left_width);
    let driven = left_outer_join(left, sel1, right, sel2, right_width);
    let rows = unmatched(left, sel1, right, sel2, left_width);
    let joined = full_outer_join(left, sel1, right, sel2, left_width, right_width);
    assert forall|n: int| 0 <= n < joined.len() implies (#[trigger] joined[n]).len() == left_width
        + right_width by {
        if n < driven.len() {
            assert(joined[n] == driven[n]);
        } else {
            let t = n - driven.len();
            let lonely = unmatched_ordinals(left, sel1, right, sel2);
            assert(joined[n] == rows[t]);
            assert(0 <= lonely[t] < right.len());
            assert(rows[t] == blank(left_width) + right[lonely[t]]);
        }
    }
}

proof fn lemma_inner_join_width(
    left: Seq<Fields>,
    sel1: Seq<usize>,
    right: Seq<Fields>,
    sel2: Seq<usize>,
    left_width: nat,
    right_width: nat,
)
    requires
        uniform(left, left_width),
        uniform(right, right_width),
    ensures
        uniform(inner_join(left, sel1, right, sel2), left_width + right_width),
    decreases left.len(),
{
    if left.len() > 0 {
        let front = left.drop_last();
        lemma_inner_join_width(front, sel1, right, sel2, left_width, right_width);
        lemma_positions(right, sel2, key_of(left.last(), sel1));
        let before = inner_join(front, sel1, right, sel2);
        let joined = inner_join(left, sel1, right, sel2);
        let hits = matching(left.last(), sel1, right, sel2);
        assert forall|n: int| 0 <= n < joined.len() implies (#[trigger] joined[n]).len()
            == left_width + right_width by {
            if n < before.len() {
                assert(joined[n] == before[n]);
            } else {
                assert(joined[n] == left.last() + right[hits[n - before.len()]]);
            }
        }
    }
}

proof fn lemma_outer_join_width(
    driving: Seq<Fields>,
    sel_d: Seq<usize>,
    indexed: Seq<Fields>,
    sel_i: Seq<usize>,
    driving_width: nat,
    indexed_width: nat,
    driving_left: bool,
)
    requires
        uniform(driving, driving_width),
        uniform(indexed, indexed_width),
    ensures
        uniform(
            outer_join(driving, sel_d, indexed, sel_i, indexed_width, driving_left),
            driving_width + indexed_width,
        ),
    decreases driving.len(),
{
    if driving.len() > 0 {
        let front = driving.drop_last();
        let last = driving.last();
        lemma_outer_join_width(
            front,
            sel_d,
            indexed,
            sel_i,
            driving_width,
            indexed_width,
            driving_left,
        );
        lemma_positions(indexed, sel_i, key_of(last, sel_d));
        let before = outer_join(front, sel_d, indexed, sel_i, indexed_width, driving_left);
        let joined = outer_join(driving, sel_d, indexed, sel_i, indexed_width, driving_left);
        let hits = matching(last, sel_d, indexed, sel_i);
        assert forall|n: int| 0 <= n < joined.len() implies (#[trigger] joined[n]).len()
            == driving_width + indexed_width by {
            if n < before.len() {
                assert(joined[n] == before[n]);
            } else if hits.len() == 0 {
                assert(joined[n] == paired(last, blank(indexed_width), driving_left));
            } else {
                assert(joined[n] == paired(last, indexed[hits[n - before.len()]], driving_left));
            }
        }
    }
}

proof fn lemma_cross_join_width(
    left: Seq<Fields>,
    right: Seq<Fields>,
    left_width: nat,
    right_width: nat,
)
    requires
        uniform(left, left_width),
        uniform(right, right_width),
    ensures
        uniform(cross_join(left, right), left_width + right_width),
    decreases left.len(),
{
    if left.len() > 0 {
        let front = left.drop_last();
        lemma_cross_join_width(front, right, left_width, right_width);
        let before = cross_join(front, right);
        let joined = cross_join(left, right);
        assert forall|n: int| 0 <= n < joined.len() implies (#[trigger] joined[n]).len()
            == left_width + right_width by {
            if n < before.len() {
                assert(joined[n] == before[n]);
            } else {
                assert(joined[n] == left.last() + right[n - before.len()]);
            }
        }
    }
}

/// Every row that a join returns has as many fields as the two headers have
/// together.
pub proof fn lemma_outcome_width(join: Join, kind: JoinKind)
    ensures
        join.outcome(kind) matches Ok(rows) ==> uniform(
            rows,
            join.left().width() + join.right().width(),
        ),
{
    let left = join.left();
    let right = join.right();
    lemma_scan_uniform(left.data(), left.delimiter(), left.width(), left.first_row());
    lemma_scan_uniform(right.data(), right.delimiter(), right.width(), right.first_row());
    lemma_scan_uniform(right.data(), right.delimiter(), right.width(), right.after_first());
    if join.outcome(kind) is Ok {
        let a = left.rows()->Some_0;
        match kind {
            JoinKind::Cross => {
                if a.len() > 0 {
                    let b = right.rows_after_first()->Some_0;
                    lemma_join_widths(
                        a,
                        join.sel1(),
                        b,
                        join.sel2(),
                        left.width(),
                        right.width(),
                    );
                }
            },
            _ => {
                let b = right.rows()->Some_0;
                lemma_join_widths(a, join.sel1(), b, join.sel2(), left.width(), right.width());
            },
        }
    }
}

/// Where the inputs have headers, the cross join returns as many rows as
/// the product of the numbers of data rows of its inputs.
///
/// Without headers this fails: the first record of the right input is a
/// data row then, and the cross join passes over it.
pub proof fn lemma_cross_outcome_count(join: Join)
    requires
        !join.right().no_headers(),
        join.left().rows() is Some,
        join.right().rows() is Some,
    ensures
        join.cross_outcome() is Ok,
        join.cross_outcome()->Ok_0.len() == join.left().rows()->Some_0.len() * join.right().rows()->Some_0.len(),
{
    let a = join.left().rows()->Some_0;
    let b = join.right().rows()->Some_0;
    lemma_cross_join_count(a, b);
    if a.len() == 0 {
        assert(0 * b.len() == 0) by (nonlinear_arith);
    }
}

} // verus!
