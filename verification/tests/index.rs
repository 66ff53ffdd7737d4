use csvjoin::error::{JoinError, Side};
use csvjoin::index::ValueIndex;
use csvjoin::keys::KeyTable;
use csvjoin::reader::Reader;
use csvjoin::row::{bytes_equal, copy_bytes, copy_row, fields_equal, padding};

fn row(fields: &[&str]) -> Vec<Vec<u8>> {
    fields.iter().map(|f| f.as_bytes().to_vec()).collect()
}

const DATA: &[u8] = b"k,v\nb,1\na,2\nb,3\nc,4\na,5\n";

fn index() -> ValueIndex<'static> {
    let rdr = Reader::new(DATA, b',', false).unwrap();
    ValueIndex::new(rdr, &vec![0], Side::Right).unwrap()
}

#[test]
fn index_counts_rows_from_zero() {
    let idx = index();
    assert_eq!(idx.num_rows, 5);
    assert_eq!(idx.idx.count(), 5);
    assert_eq!(idx.values.len(), 3);
}

#[test]
fn lookup_gives_ordinals_in_scan_order() {
    let idx = index();
    assert_eq!(idx.lookup(&row(&["b"])), Some(&vec![0, 2]));
    assert_eq!(idx.lookup(&row(&["a"])), Some(&vec![1, 4]));
    assert_eq!(idx.lookup(&row(&["c"])), Some(&vec![3]));
    assert_eq!(idx.lookup(&row(&["d"])), None);
    assert_eq!(idx.lookup(&row(&["b", ""])), None);
    assert_eq!(idx.lookup(&row(&[])), None);
}

#[test]
fn seek_works_in_any_order_and_again() {
    let mut idx = index();
    assert_eq!(idx.seek(3), Ok(()));
    assert_eq!(idx.idx.read(), Ok(Some(row(&["c", "4"]))));
    assert_eq!(idx.seek(0), Ok(()));
    assert_eq!(idx.seek(0), Ok(()));
    assert_eq!(idx.idx.read(), Ok(Some(row(&["b", "1"]))));
    assert_eq!(idx.seek(4), Ok(()));
    assert_eq!(idx.idx.read(), Ok(Some(row(&["a", "5"]))));
    assert_eq!(idx.idx.read(), Ok(None));
    assert_eq!(idx.seek(5), Err(JoinError::Seek));
    assert_eq!(idx.idx.fetch(1), Ok(row(&["a", "2"])));
    assert_eq!(idx.idx.fetch(7), Err(JoinError::Seek));
}

#[test]
fn entries_stand_in_order_of_first_appearance() {
    let idx = index();
    assert_eq!(
        idx.entries(),
        vec![(row(&["b"]), vec![0, 2]), (row(&["a"]), vec![1, 4]), (row(&["c"]), vec![3])]
    );
}

#[test]
fn index_without_headers_takes_the_first_record_too() {
    let rdr = Reader::new(b"x,1\ny,2\nx,3\n", b',', true).unwrap();
    let idx = ValueIndex::new(rdr, &vec![0], Side::Right).unwrap();
    assert_eq!(idx.num_rows, 3);
    assert_eq!(idx.lookup(&row(&["x"])), Some(&vec![0, 2]));
}

#[test]
fn index_of_a_malformed_dataset_is_not_built() {
    let rdr = Reader::new(b"k,v\na,1\nb\n", b',', false).unwrap();
    assert_eq!(ValueIndex::new(rdr, &vec![0], Side::Right).err(), Some(JoinError::Parse));
}

#[test]
fn index_checks_its_selection_before_the_rows() {
    let rdr = Reader::new(b"k,v\na,1\nb\n", b',', false).unwrap();
    assert_eq!(
        ValueIndex::new(rdr, &vec![1, 2, 9], Side::Left).err(),
        Some(JoinError::ColumnOutOfRange { side: Side::Left, position: 2, width: 2 })
    );
}

#[test]
fn key_table_appends_under_a_key() {
    let mut table = KeyTable::new();
    assert_eq!(table.len(), 0);
    assert_eq!(table.get(&row(&["a"])), None);
    table.add(row(&["a"]), 7);
    table.add(row(&["b", "c"]), 1);
    table.add(row(&["a"]), 3);
    assert_eq!(table.len(), 2);
    assert_eq!(table.get(&row(&["a"])), Some(&vec![7, 3]));
    assert_eq!(table.get(&row(&["b", "c"])), Some(&vec![1]));
    assert_eq!(table.get(&row(&["bc"])), None);
}

#[test]
fn key_table_keeps_its_keys_while_it_grows() {
    let mut table = KeyTable::new();
    for i in 0..1000usize {
        table.add(row(&[&i.to_string(), "x"]), i);
    }
    for i in 0..1000usize {
        table.add(row(&[&i.to_string(), "x"]), i + 1000);
    }
    assert_eq!(table.len(), 1000);
    for i in 0..1000usize {
        assert_eq!(table.get(&row(&[&i.to_string(), "x"])), Some(&vec![i, i + 1000]));
    }
    assert_eq!(table.get(&row(&["1000", "x"])), None);
}

#[test]
fn row_helpers() {
    let a = row(&["1", "x"]);
    let b = row(&["", "p"]);
    assert_eq!(csvjoin::row::combine(&a, &b), row(&["1", "x", "", "p"]));
    assert_eq!(copy_row(&a), a);
    assert_eq!(copy_bytes(&b"abc".to_vec()), b"abc".to_vec());
    assert!(bytes_equal(&b"abc".to_vec(), &b"abc".to_vec()));
    assert!(!bytes_equal(&b"abc".to_vec(), &b"abd".to_vec()));
    assert!(!bytes_equal(&b"abc".to_vec(), &b"ab".to_vec()));
    assert!(fields_equal(&a, &row(&["1", "x"])));
    assert!(!fields_equal(&a, &row(&["1x"])));
    assert!(!fields_equal(&a, &b));
    assert_eq!(padding(3), row(&["", "", ""]));
    assert_eq!(padding(0), row(&[]));
}
