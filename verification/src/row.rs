//! Rows: ordered sequences of byte-string fields.
//!
//! In contracts a row is a `Seq<Seq<u8>>`, which [`row_view`] gives for the
//! `Vec<Vec<u8>>` that holds it, and a list of rows is a `Seq` of those.

use vstd::prelude::*;

verus! {

/// A row as the executable code holds it.
pub type Row = Vec<Vec<u8>>;

/// A row as the contracts see it.
pub type Fields = Seq<Seq<u8>>;

/// The fields of a row, each as the sequence of its bytes.
pub open spec fn row_view(row: Row) -> Fields {
    Seq::new(row@.len(), |i: int| row@[i]@)
}

/// The rows of a list, each as [`row_view`] gives it.
pub open spec fn rows_view(rows: Vec<Row>) -> Seq<Fields> {
    Seq::new(rows@.len(), |i: int| row_view(rows@[i]))
}

/// The row of `width` empty fields.
pub open spec fn blank(width: nat) -> Fields {
    Seq::new(width, |i: int| Seq::<u8>::empty())
}

/// A list of rows with one more row at its end, seen through [`rows_view`].
pub proof fn lemma_rows_view_push(before: Vec<Row>, after: Vec<Row>, row: Row)
    requires
        after@ == before@.push(row),
    ensures
        rows_view(after) == rows_view(before).push(row_view(row)),
{
    assert(rows_view(after) =~= rows_view(before).push(row_view(row)));
}

/// Tells whether two byte strings hold the same bytes.
pub fn bytes_equal(a: &Vec<u8>, b: &Vec<u8>) -> (same: bool)
    ensures
        same == (a@ == b@),
{
    if a.len() != b.len() {
        return false;
    }
    let mut i: usize = 0;
    while i < a.len()
        invariant
            i <= a.len(),
            a.len() == b.len(),
            a@.take(i as int) == b@.take(i as int),
        decreases a.len() - i,
    {
        if a[i] != b[i] {
            return false;
        }
        proof {
            assert(a@.take(i + 1) =~= a@.take(i as int).push(a@[i as int]));
            assert(b@.take(i + 1) =~= b@.take(i as int).push(b@[i as int]));
        }
        i += 1;
    }
    proof {
        assert(a@.take(i as int) =~= a@);
        assert(b@.take(i as int) =~= b@);
    }
    true
}

/// Tells whether two rows hold the same fields in the same order.
pub fn fields_equal(a: &Row, b: &Row) -> (same: bool)
    ensures
        same == (row_view(*a) == row_view(*b)),
{
    if a.len() != b.len() {
        proof {
            assert(row_view(*a).len() != row_view(*b).len());
        }
        return false;
    }
    let mut i: usize = 0;
    while i < a.len()
        invariant
            i <= a.len(),
            a.len() == b.len(),
            forall|k: int| 0 <= k < i ==> a@[k]@ == b@[k]@,
        decreases a.len() - i,
    {
        if !bytes_equal(&a[i], &b[i]) {
            proof {
                assert(row_view(*a)[i as int] == a@[i as int]@);
                assert(row_view(*b)[i as int] == b@[i as int]@);
            }
            return false;
        }
        i += 1;
    }
    proof {
        assert(row_view(*a) =~= row_view(*b));
    }
    true
}

/// A copy of a byte string.
pub fn copy_bytes(src: &Vec<u8>) -> (copy: Vec<u8>)
    ensures
        copy@ == src@,
{
    let mut copy: Vec<u8> = Vec::with_capacity(src.len());
    let mut i: usize = 0;
    while i < src.len()
        invariant
            i <= src.len(),
            copy@ == src@.take(i as int),
        decreases src.len() - i,
    {
        copy.push(src[i]);
        proof {
            assert(src@.take(i + 1) =~= src@.take(i as int).push(src@[i as int]));
        }
        i += 1;
    }
    proof {
        assert(src@.take(i as int) =~= src@);
    }
    copy
}

/// Appends copies of the fields of `src` to `dst`.
pub fn extend_row(dst: &mut Row, src: &Row)
    ensures
        row_view(*final(dst)) == row_view(*old(dst)) + row_view(*src),
{
    let ghost before = row_view(*dst);
    let mut i: usize = 0;
    while i < src.len()
        invariant
            i <= src.len(),
            row_view(*dst) == before + row_view(*src).take(i as int),
        decreases src.len() - i,
    {
        let ghost prev = row_view(*dst);
        let field = copy_bytes(&src[i]);
        dst.push(field);
        proof {
            assert(row_view(*dst) =~= prev.push(src@[i as int]@));
            assert(row_view(*src).take(i + 1) =~= row_view(*src).take(i as int).push(
                src@[i as int]@,
            ));
            assert(row_view(*dst) =~= before + row_view(*src).take(i + 1));
        }
        i += 1;
    }
    proof {
        assert(row_view(*src).take(i as int) =~= row_view(*src));
    }
}

/// A copy of a row.
pub fn copy_row(src: &Row) -> (copy: Row)
    ensures
        row_view(copy) == row_view(*src),
{
    let mut copy: Row = Vec::new();
    proof {
        assert(row_view(copy) =~= Seq::<Seq<u8>>::empty());
    }
    extend_row(&mut copy, src);
    proof {
        assert(Seq::<Seq<u8>>::empty() + row_view(*src) =~= row_view(*src));
    }
    copy
}

/// The fields of `left` followed by the fields of `right`, as one row.
pub fn combine(left: &Row, right: &Row) -> (row: Row)
    ensures
        row_view(row) == row_view(*left) + row_view(*right),
{
    let mut row: Row = Vec::new();
    proof {
        assert(row_view(row) =~= Seq::<Seq<u8>>::empty());
    }
    extend_row(&mut row, left);
    extend_row(&mut row, right);
    proof {
        assert(Seq::<Seq<u8>>::empty() + row_view(*left) =~= row_view(*left));
    }
    row
}

/// A padding row: `width` fields, each of them empty.
pub fn padding(width: usize) -> (row: Row)
    ensures
        row_view(row) == blank(width as nat),
{
    let mut row: Row = Vec::new();
    let mut i: usize = 0;
    while i < width
        invariant
            i <= width,
            row@.len() == i,
            forall|k: int| 0 <= k < i ==> row@[k]@ == Seq::<u8>::empty(),
        decreases width - i,
    {
        row.push(Vec::new());
        i += 1;
    }
    proof {
        assert(row_view(row) =~= blank(width as nat));
    }
    row
}

} // verus!
