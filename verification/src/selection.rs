//! Selections: the column positions that make up a key.

use vstd::prelude::*;
use crate::error::{JoinError, Side};
use crate::relation::{in_range, key_of};
use crate::row::{copy_bytes, row_view, Row};

verus! {

/// The first position of `sel` that a row of `width` fields lacks, as an
/// index into `sel`; the length of `sel` where there is none.
pub open spec fn first_beyond(sel: Seq<usize>, width: nat) -> int
    decreases sel.len(),
{
    if sel.len() == 0 {
        0
    } else if sel[0] >= width {
        0
    } else {
        1 + first_beyond(sel.drop_first(), width)
    }
}

/// [`first_beyond`] finds a position where there is one to find.
pub proof fn lemma_first_beyond(sel: Seq<usize>, width: nat)
    ensures
        0 <= first_beyond(sel, width) <= sel.len(),
        forall|i: int| 0 <= i < first_beyond(sel, width) ==> sel[i] < width,
        first_beyond(sel, width) < sel.len() ==> sel[first_beyond(sel, width)] >= width,
        first_beyond(sel, width) == sel.len() <==> in_range(sel, width),
    decreases sel.len(),
{
    if sel.len() > 0 && sel[0] < width {
        let tail = sel.drop_first();
        lemma_first_beyond(tail, width);
        assert forall|i: int| 0 <= i < first_beyond(sel, width) implies sel[i] < width by {
            if i > 0 {
                assert(sel[i] == tail[i - 1]);
            }
        }
        if first_beyond(tail, width) < tail.len() {
            assert(sel[first_beyond(sel, width)] == tail[first_beyond(tail, width)]);
        }
    }
}

/// Checks that every position of `sel` lies inside a row of `width` fields.
///
/// Fails on the first position that does not, with that position and the
/// side given.
pub fn check_selection(sel: &Vec<usize>, width: usize, side: Side) -> (checked: Result<
    (),
    JoinError,
>)
    ensures
        in_range(sel@, width as nat) ==> checked == Ok::<(), JoinError>(()),
        !in_range(sel@, width as nat) ==> checked == Err::<(), JoinError>(
            JoinError::ColumnOutOfRange {
                side,
                position: sel@[first_beyond(sel@, width as nat)],
                width,
            },
        ),
{
    proof {
        lemma_first_beyond(sel@, width as nat);
    }
    let mut i: usize = 0;
    while i < sel.len()
        invariant
            i <= sel.len(),
            i <= first_beyond(sel@, width as nat) <= sel@.len(),
            forall|k: int| 0 <= k < first_beyond(sel@, width as nat) ==> sel@[k] < width,
            first_beyond(sel@, width as nat) < sel@.len() ==> sel@[first_beyond(
                sel@,
                width as nat,
            )] >= width,
            first_beyond(sel@, width as nat) == sel@.len() <==> in_range(sel@, width as nat),
        decreases sel.len() - i,
    {
        if sel[i] >= width {
            return Err(JoinError::ColumnOutOfRange { side, position: sel[i], width });
        }
        i += 1;
    }
    Ok(())
}

/// The key tuple of `row` under `sel`.
pub(crate) fn select(row: &Row, sel: &Vec<usize>) -> (key: Row)
    requires
        in_range(sel@, row@.len() as nat),
    ensures
        row_view(key) == key_of(row_view(*row), sel@),
{
    let mut key: Row = Vec::with_capacity(sel.len());
    let mut i: usize = 0;
    while i < sel.len()
        invariant
            i <= sel.len(),
            in_range(sel@, row@.len() as nat),
            key@.len() == i,
            forall|k: int| 0 <= k < i ==> key@[k]@ == row@[sel@[k] as int]@,
        decreases sel.len() - i,
    {
        key.push(copy_bytes(&row[sel[i]]));
        i += 1;
    }
    proof {
        assert(row_view(key) =~= key_of(row_view(*row), sel@));
    }
    key
}

} // verus!
