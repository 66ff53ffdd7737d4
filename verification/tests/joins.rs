use csvjoin::error::{ErrorKind, JoinError, Side};
use csvjoin::join::{Join, JoinKind};

const LEFT: &[u8] = b"a,b\n1,x\n2,y\n";
const RIGHT: &[u8] = b"a,c\n1,p\n3,q\n";

fn rows_of(rows: &[&[&str]]) -> Vec<Vec<Vec<u8>>> {
    rows.iter().map(|r| r.iter().map(|f| f.as_bytes().to_vec()).collect()).collect()
}

fn scenario() -> Join<'static> {
    Join::new(LEFT, RIGHT, b',', false, vec![0], vec![0]).unwrap()
}

#[test]
fn scenario_inner() {
    assert_eq!(scenario().inner_join(), Ok(rows_of(&[&["1", "x", "1", "p"]])));
}

#[test]
fn scenario_left_outer() {
    assert_eq!(
        scenario().outer_join(Side::Left),
        Ok(rows_of(&[&["1", "x", "1", "p"], &["2", "y", "", ""]]))
    );
}

#[test]
fn scenario_right_outer() {
    assert_eq!(
        scenario().outer_join(Side::Right),
        Ok(rows_of(&[&["1", "x", "1", "p"], &["", "", "3", "q"]]))
    );
}

#[test]
fn scenario_full_outer() {
    assert_eq!(
        scenario().full_outer_join(),
        Ok(rows_of(&[&["1", "x", "1", "p"], &["2", "y", "", ""], &["", "", "3", "q"]]))
    );
}

#[test]
fn scenario_cross() {
    assert_eq!(
        scenario().cross_join(),
        Ok(rows_of(&[
            &["1", "x", "1", "p"],
            &["1", "x", "3", "q"],
            &["2", "y", "1", "p"],
            &["2", "y", "3", "q"],
        ]))
    );
}

#[test]
fn run_writes_the_header_first() {
    assert_eq!(
        scenario().run(JoinKind::Inner),
        Ok(rows_of(&[&["a", "b", "a", "c"], &["1", "x", "1", "p"]]))
    );
}

#[test]
fn run_without_headers_joins_the_first_records_too() {
    let join = Join::new(b"1,x\n2,y\n", b"2,p\n1,q\n", b',', true, vec![0], vec![0]).unwrap();
    assert_eq!(
        join.run(JoinKind::Inner),
        Ok(rows_of(&[&["1", "x", "1", "q"], &["2", "y", "2", "p"]]))
    );
}

#[test]
fn write_headers_keeps_equal_names() {
    let mut out = Vec::new();
    scenario().write_headers(&mut out);
    assert_eq!(out, rows_of(&[&["a", "b", "a", "c"]]));
}

#[test]
fn padding_follows_the_header_widths() {
    let join = Join::new(b"a,b,c\n", b"d\n", b',', false, vec![0], vec![0]).unwrap();
    let (pad1, pad2) = join.get_padding();
    assert_eq!(pad1, vec![Vec::<u8>::new(); 3]);
    assert_eq!(pad2, vec![Vec::<u8>::new(); 1]);
}

#[test]
fn inner_keeps_the_order_of_the_right_input_within_a_left_row() {
    let left = b"k,v\nb,1\na,2\nb,3\n";
    let right = b"k,w\na,p\nb,q\na,r\nb,s\n";
    let join = Join::new(left, right, b',', false, vec![0], vec![0]).unwrap();
    assert_eq!(
        join.inner_join(),
        Ok(rows_of(&[
            &["b", "1", "b", "q"],
            &["b", "1", "b", "s"],
            &["a", "2", "a", "p"],
            &["a", "2", "a", "r"],
            &["b", "3", "b", "q"],
            &["b", "3", "b", "s"],
        ]))
    );
}

#[test]
fn keys_of_several_columns_match_in_selection_order() {
    let left = b"x,y,v\n1,2,l\n2,1,m\n";
    let right = b"p,q,w\n2,1,r\n";
    // left (x, y) against right (q, p): the left row (1, 2) matches.
    let join = Join::new(left, right, b',', false, vec![0, 1], vec![1, 0]).unwrap();
    assert_eq!(join.inner_join(), Ok(rows_of(&[&["1", "2", "l", "2", "1", "r"]])));
}

#[test]
fn field_boundaries_count_in_a_key() {
    let left = b"x,y\nab,c\n";
    let right = b"x,y\na,bc\n";
    let join = Join::new(left, right, b',', false, vec![0, 1], vec![0, 1]).unwrap();
    assert_eq!(join.inner_join(), Ok(Vec::new()));
}

#[test]
fn full_outer_appends_unmatched_right_rows_in_their_order() {
    let left = b"k\nb\n";
    let right = b"k,w\nz,1\nb,2\na,3\nb,4\nz,5\n";
    let join = Join::new(left, right, b',', false, vec![0], vec![0]).unwrap();
    assert_eq!(
        join.full_outer_join(),
        Ok(rows_of(&[
            &["b", "b", "2"],
            &["b", "b", "4"],
            &["", "z", "1"],
            &["", "a", "3"],
            &["", "z", "5"],
        ]))
    );
}

#[test]
fn cross_counts_the_product() {
    let left = b"a\n1\n2\n3\n";
    let right = b"b\nx\ny\n";
    let join = Join::new(left, right, b',', false, vec![0], vec![0]).unwrap();
    let rows = join.cross_join().unwrap();
    assert_eq!(rows.len(), 3 * 2);
    assert!(rows.iter().all(|r| r.len() == 1 + 1));
}

#[test]
fn cross_without_headers_passes_over_the_first_right_record() {
    let join = Join::new(b"1\n2\n", b"x\ny\n", b',', true, vec![0], vec![0]).unwrap();
    assert_eq!(join.cross_join(), Ok(rows_of(&[&["1", "y"], &["2", "y"]])));
}

#[test]
fn cross_with_no_left_row_does_not_read_the_right_rows() {
    let join = Join::new(b"a\n", b"b,c\nx\n", b',', false, vec![0], vec![0]).unwrap();
    assert_eq!(join.cross_join(), Ok(Vec::new()));
}

#[test]
fn selection_mismatch_fails_before_anything_is_read() {
    // Both inputs are malformed past their headers, and the right selection
    // is out of range: the count of columns is what is reported.
    let made = Join::new(b"a,b\n1\n", b"a\n1,2\n", b',', false, vec![0, 1], vec![5]);
    assert_eq!(made.err(), Some(JoinError::SelectionMismatch { left: 2, right: 1 }));
    assert_eq!(JoinError::SelectionMismatch { left: 2, right: 1 }.kind(), ErrorKind::Usage);
}

#[test]
fn column_out_of_range_names_side_and_position() {
    let made = Join::new(LEFT, RIGHT, b',', false, vec![0, 2], vec![0, 1]);
    assert_eq!(
        made.err(),
        Some(JoinError::ColumnOutOfRange { side: Side::Left, position: 2, width: 2 })
    );
    let made = Join::new(LEFT, RIGHT, b',', false, vec![1, 0], vec![1, 7]);
    assert_eq!(
        made.err(),
        Some(JoinError::ColumnOutOfRange { side: Side::Right, position: 7, width: 2 })
    );
}

#[test]
fn malformed_row_fails_the_join() {
    let join = Join::new(b"a,b\n1,x\n2\n", RIGHT, b',', false, vec![0], vec![0]).unwrap();
    assert_eq!(join.inner_join(), Err(JoinError::Parse));
    let join = Join::new(LEFT, b"a,c\n1,p,extra\n", b',', false, vec![0], vec![0]).unwrap();
    assert_eq!(join.outer_join(Side::Left), Err(JoinError::Parse));
    assert_eq!(JoinError::Parse.kind(), ErrorKind::Parse);
}

#[test]
fn mode_flags() {
    assert_eq!(JoinKind::from_flags(false, false, false, false), Ok(JoinKind::Inner));
    assert_eq!(JoinKind::from_flags(true, false, false, false), Ok(JoinKind::LeftOuter));
    assert_eq!(JoinKind::from_flags(false, true, false, false), Ok(JoinKind::RightOuter));
    assert_eq!(JoinKind::from_flags(false, false, true, false), Ok(JoinKind::FullOuter));
    assert_eq!(JoinKind::from_flags(false, false, false, true), Ok(JoinKind::Cross));
    assert_eq!(JoinKind::from_flags(true, true, false, false), Err(JoinError::ModeConflict));
    assert_eq!(JoinKind::from_flags(true, false, false, true), Err(JoinError::ModeConflict));
    assert_eq!(JoinKind::from_flags(true, true, true, true), Err(JoinError::ModeConflict));
    assert_eq!(JoinError::ModeConflict.kind(), ErrorKind::Usage);
}

#[test]
fn many_keys_grow_the_table() {
    let mut left = String::from("k,v\n");
    let mut right = String::from("k,w\n");
    for i in 0..500 {
        left.push_str(&format!("key{},l{}\n", i, i));
        right.push_str(&format!("key{},r{}\n", 499 - i, i));
    }
    let join = Join::new(left.as_bytes(), right.as_bytes(), b',', false, vec![0], vec![0]).unwrap();
    let rows = join.inner_join().unwrap();
    assert_eq!(rows.len(), 500);
    for (i, row) in rows.iter().enumerate() {
        assert_eq!(row[0], format!("key{}", i).into_bytes());
        assert_eq!(row[2], row[0]);
        assert_eq!(row[3], format!("r{}", 499 - i).into_bytes());
    }
}

const ORDERS: &[u8] = b"customer,item\nann,tea\nbob,milk\nann,jam\ncid,salt\nbob,rice\nann,oil\n";
const CUSTOMERS: &[u8] = b"name,city\nbob,Oslo\nann,Rome\ndan,Bonn\nann,Nice\n";

fn orders_and_customers() -> Join<'static> {
    Join::new(ORDERS, CUSTOMERS, b',', false, vec![0], vec![0]).unwrap()
}

#[test]
fn inner_has_a_row_for_each_matching_pair_and_equal_keys() {
    let rows = orders_and_customers().inner_join().unwrap();
    // ann matches 2 customers and has 3 orders, bob matches 1 and has 2,
    // cid matches none.
    assert_eq!(rows.len(), 3 * 2 + 2 * 1);
    for row in &rows {
        assert_eq!(row.len(), 4);
        assert_eq!(row[0], row[2]);
    }
    assert_eq!(
        rows,
        rows_of(&[
            &["ann", "tea", "ann", "Rome"],
            &["ann", "tea", "ann", "Nice"],
            &["bob", "milk", "bob", "Oslo"],
            &["ann", "jam", "ann", "Rome"],
            &["ann", "jam", "ann", "Nice"],
            &["bob", "rice", "bob", "Oslo"],
            &["ann", "oil", "ann", "Rome"],
            &["ann", "oil", "ann", "Nice"],
        ])
    );
}

#[test]
fn left_outer_keeps_every_left_row() {
    let rows = orders_and_customers().outer_join(Side::Left).unwrap();
    let count = |item: &str| rows.iter().filter(|r| r[1] == item.as_bytes()).count();
    assert_eq!(count("tea"), 2);
    assert_eq!(count("milk"), 1);
    assert_eq!(count("jam"), 2);
    assert_eq!(count("salt"), 1);
    assert_eq!(count("rice"), 1);
    assert_eq!(count("oil"), 2);
    assert_eq!(rows.len(), 9);
    assert_eq!(rows[5], rows_of(&[&["cid", "salt", "", ""]])[0]);
}

#[test]
fn right_outer_is_left_outer_with_the_inputs_exchanged() {
    let right_outer = orders_and_customers().outer_join(Side::Right).unwrap();
    let exchanged = Join::new(CUSTOMERS, ORDERS, b',', false, vec![0], vec![0])
        .unwrap()
        .outer_join(Side::Left)
        .unwrap();
    assert_eq!(right_outer.len(), exchanged.len());
    for (row, other) in right_outer.iter().zip(exchanged.iter()) {
        // The exchanged join has the customer first; the right outer join
        // keeps the order first.
        assert_eq!(row[..2], other[2..]);
        assert_eq!(row[2..], other[..2]);
    }
    assert_eq!(
        right_outer,
        rows_of(&[
            &["bob", "milk", "bob", "Oslo"],
            &["bob", "rice", "bob", "Oslo"],
            &["ann", "tea", "ann", "Rome"],
            &["ann", "jam", "ann", "Rome"],
            &["ann", "oil", "ann", "Rome"],
            &["", "", "dan", "Bonn"],
            &["ann", "tea", "ann", "Nice"],
            &["ann", "jam", "ann", "Nice"],
            &["ann", "oil", "ann", "Nice"],
        ])
    );
}

#[test]
fn full_outer_keeps_every_row_of_both_inputs() {
    let rows = orders_and_customers().full_outer_join().unwrap();
    let left_outer = orders_and_customers().outer_join(Side::Left).unwrap();
    assert_eq!(rows[..left_outer.len()], left_outer[..]);
    assert_eq!(rows[left_outer.len()..], rows_of(&[&["", "", "dan", "Bonn"]])[..]);
    for item in ["tea", "milk", "jam", "salt", "rice", "oil"] {
        assert!(rows.iter().any(|r| r[1] == item.as_bytes()));
    }
    for city in ["Oslo", "Rome", "Bonn", "Nice"] {
        assert!(rows.iter().any(|r| r[3] == city.as_bytes()));
    }
}

#[test]
fn every_joined_row_has_the_width_of_both_headers() {
    let left = b"a,b,c\n1,2,3\n4,5,6\n";
    let right = b"x,y\n1,p\n9,q\n";
    for kind in [
        JoinKind::Inner,
        JoinKind::LeftOuter,
        JoinKind::RightOuter,
        JoinKind::FullOuter,
        JoinKind::Cross,
    ] {
        let join = Join::new(left, right, b',', false, vec![0], vec![0]).unwrap();
        let rows = join.run(kind).unwrap();
        assert!(!rows.is_empty());
        assert!(rows.iter().all(|r| r.len() == 3 + 2));
    }
}

#[test]
fn joins_of_empty_inputs() {
    let join = Join::new(b"", b"", b',', false, vec![], vec![]).unwrap();
    assert_eq!(join.run(JoinKind::FullOuter), Ok(rows_of(&[&[]])));
    let join = Join::new(b"a\n", b"a\n1\n", b',', false, vec![0], vec![0]).unwrap();
    assert_eq!(join.full_outer_join(), Ok(rows_of(&[&["", "1"]])));
    let join = Join::new(b"a\n1\n", b"a\n", b',', false, vec![0], vec![0]).unwrap();
    assert_eq!(join.outer_join(Side::Right), Ok(Vec::new()));
    let join = Join::new(b"a\n1\n", b"a\n", b',', false, vec![0], vec![0]).unwrap();
    assert_eq!(join.cross_join(), Ok(Vec::new()));
}

#[test]
fn empty_selections_match_every_pair() {
    let join = Join::new(b"a\n1\n2\n", b"b\nx\ny\n", b',', false, vec![], vec![]).unwrap();
    assert_eq!(
        join.inner_join(),
        Ok(rows_of(&[&["1", "x"], &["1", "y"], &["2", "x"], &["2", "y"]]))
    );
}

#[test]
fn cross_reads_the_right_input_only_with_a_left_row() {
    // The right input is malformed behind its header.
    let join = Join::new(b"a\n1\n", b"b,c\nx\n", b',', false, vec![0], vec![0]).unwrap();
    assert_eq!(join.cross_join(), Err(JoinError::Parse));
}
