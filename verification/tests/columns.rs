use csvjoin::columns::resolve_columns;
use csvjoin::error::{ErrorKind, JoinError, Side};
use csvjoin::join::{get_selections, Join, JoinKind};
use csvjoin::reader::Reader;

fn headers(names: &[&str]) -> Vec<Vec<u8>> {
    names.iter().map(|f| f.as_bytes().to_vec()).collect()
}

fn rows_of(rows: &[&[&str]]) -> Vec<Vec<Vec<u8>>> {
    rows.iter().map(|r| r.iter().map(|f| f.as_bytes().to_vec()).collect()).collect()
}

#[test]
fn single_index_counts_from_one() {
    let h = headers(&["a", "b", "c"]);
    assert_eq!(resolve_columns(b"1", &h, true, Side::Left), Ok(vec![0]));
    assert_eq!(resolve_columns(b"3", &h, true, Side::Left), Ok(vec![2]));
    assert_eq!(resolve_columns(b"03", &h, true, Side::Left), Ok(vec![2]));
}

#[test]
fn index_outside_the_headers_fails() {
    let h = headers(&["a", "b", "c"]);
    let bad = Err(JoinError::BadColumn { side: Side::Right, item: 0 });
    assert_eq!(resolve_columns(b"0", &h, true, Side::Right), bad);
    assert_eq!(resolve_columns(b"4", &h, true, Side::Right), bad);
    assert_eq!(resolve_columns(b"99999999999999999999999999", &h, true, Side::Right), bad);
}

#[test]
fn names_resolve_to_the_first_header_of_that_name() {
    let h = headers(&["id", "name", "id", "first-name"]);
    assert_eq!(resolve_columns(b"name", &h, true, Side::Left), Ok(vec![1]));
    assert_eq!(resolve_columns(b"id", &h, true, Side::Left), Ok(vec![0]));
    assert_eq!(resolve_columns(b"first-name", &h, true, Side::Left), Ok(vec![3]));
    assert_eq!(
        resolve_columns(b"missing", &h, true, Side::Left),
        Err(JoinError::BadColumn { side: Side::Left, item: 0 })
    );
}

#[test]
fn names_do_not_resolve_without_headers() {
    let h = headers(&["id", "name"]);
    assert_eq!(
        resolve_columns(b"name", &h, false, Side::Left),
        Err(JoinError::BadColumn { side: Side::Left, item: 0 })
    );
    assert_eq!(resolve_columns(b"2", &h, false, Side::Left), Ok(vec![1]));
}

#[test]
fn lists_keep_the_order_of_their_items() {
    let h = headers(&["a", "b", "c", "d", "e"]);
    assert_eq!(resolve_columns(b"3,1,e,1", &h, true, Side::Left), Ok(vec![2, 0, 4, 0]));
}

#[test]
fn ranges_run_from_first_to_last() {
    let h = headers(&["a", "b", "c", "d", "e"]);
    assert_eq!(resolve_columns(b"1,3-5", &h, true, Side::Left), Ok(vec![0, 2, 3, 4]));
    assert_eq!(resolve_columns(b"2-2", &h, true, Side::Left), Ok(vec![1]));
    assert_eq!(resolve_columns(b"1-5", &h, true, Side::Left), Ok(vec![0, 1, 2, 3, 4]));
}

#[test]
fn ranges_that_the_headers_lack_fail() {
    let h = headers(&["a", "b", "c"]);
    let bad = |item| Err(JoinError::BadColumn { side: Side::Left, item });
    assert_eq!(resolve_columns(b"3-1", &h, true, Side::Left), bad(0));
    assert_eq!(resolve_columns(b"0-2", &h, true, Side::Left), bad(0));
    assert_eq!(resolve_columns(b"1,2-4", &h, true, Side::Left), bad(1));
    assert_eq!(resolve_columns(b"1,2,x", &h, true, Side::Left), bad(2));
    assert_eq!(resolve_columns(b"1,,2", &h, true, Side::Left), bad(1));
    assert_eq!(resolve_columns(b"", &h, true, Side::Left), bad(0));
    assert_eq!(resolve_columns(b"1,", &h, true, Side::Left), bad(1));
}

#[test]
fn bad_column_is_a_usage_error() {
    assert_eq!(JoinError::BadColumn { side: Side::Left, item: 0 }.kind(), ErrorKind::Usage);
    assert_eq!(
        JoinError::ColumnOutOfRange { side: Side::Left, position: 3, width: 1 }.kind(),
        ErrorKind::Usage
    );
    assert_eq!(JoinError::Seek.kind(), ErrorKind::Io);
}

#[test]
fn get_selections_resolves_both_sides() {
    let rdr1 = Reader::new(b"a,b,c\n1,2,3\n", b',', false).unwrap();
    let rdr2 = Reader::new(b"x,a\n", b',', false).unwrap();
    assert_eq!(get_selections(&rdr1, b"a,3", &rdr2, b"a,x", false), Ok((vec![0, 2], vec![1, 0])));
}

#[test]
fn get_selections_reports_the_counts_that_differ() {
    let rdr1 = Reader::new(b"a,b,c\n", b',', false).unwrap();
    let rdr2 = Reader::new(b"x,a\n", b',', false).unwrap();
    assert_eq!(
        get_selections(&rdr1, b"1-3", &rdr2, b"a", false),
        Err(JoinError::SelectionMismatch { left: 3, right: 1 })
    );
    assert_eq!(
        get_selections(&rdr1, b"a", &rdr2, b"b", false),
        Err(JoinError::BadColumn { side: Side::Right, item: 0 })
    );
    assert_eq!(
        get_selections(&rdr1, b"a,z", &rdr2, b"b", false),
        Err(JoinError::BadColumn { side: Side::Left, item: 1 })
    );
}

#[test]
fn mismatch_of_selectors_fails_whatever_the_rows_hold() {
    // The rows of both inputs are malformed; they are never read.
    let made = Join::from_columns(b"a,b\n1\n", b"a,c\n1,2,3\n", b',', false, b"a,b", b"a");
    assert_eq!(made.err(), Some(JoinError::SelectionMismatch { left: 2, right: 1 }));
}

#[test]
fn join_from_column_names() {
    let left = b"id,name\n1,x\n2,y\n";
    let right = b"value,id\np,1\nq,3\nr,1\n";
    let join = Join::from_columns(left, right, b',', false, b"id", b"id").unwrap();
    assert_eq!(
        join.run(JoinKind::LeftOuter),
        Ok(rows_of(&[
            &["id", "name", "value", "id"],
            &["1", "x", "p", "1"],
            &["1", "x", "r", "1"],
            &["2", "y", "", ""],
        ]))
    );
}

#[test]
fn join_from_indices_without_headers() {
    let join = Join::from_columns(b"1;x\n2;y\n", b"p;2\n", b';', true, b"1", b"2").unwrap();
    assert_eq!(
        join.run(JoinKind::RightOuter),
        Ok(rows_of(&[&["2", "y", "p", "2"]]))
    );
    let made = Join::from_columns(b"1;x\n", b"p;2\n", b';', true, b"a", b"2");
    assert_eq!(made.err(), Some(JoinError::BadColumn { side: Side::Left, item: 0 }));
}
