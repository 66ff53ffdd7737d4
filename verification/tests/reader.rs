use csvjoin::error::JoinError;
use csvjoin::reader::{settle, ReadStep, Reader};

fn row(fields: &[&str]) -> Vec<Vec<u8>> {
    fields.iter().map(|f| f.as_bytes().to_vec()).collect()
}

#[test]
fn reads_headers_then_rows() {
    let data = b"a,b\n1,x\n2,y\n";
    let mut rdr = Reader::new(data, b',', false).unwrap();
    assert_eq!(rdr.byte_headers(), &row(&["a", "b"]));
    assert_eq!(rdr.byte_offset(), 4);
    assert_eq!(rdr.read(), Ok(Some(row(&["1", "x"]))));
    assert_eq!(rdr.byte_offset(), 8);
    assert_eq!(rdr.read(), Ok(Some(row(&["2", "y"]))));
    assert_eq!(rdr.byte_offset(), 12);
    assert_eq!(rdr.read(), Ok(None));
    assert_eq!(rdr.read(), Ok(None));
}

#[test]
fn no_headers_keeps_first_record_as_row() {
    let data = b"1,x\r\n2,y";
    let mut rdr = Reader::new(data, b',', true).unwrap();
    assert_eq!(rdr.byte_headers(), &row(&["1", "x"]));
    assert_eq!(rdr.byte_offset(), 0);
    assert_eq!(rdr.read(), Ok(Some(row(&["1", "x"]))));
    assert_eq!(rdr.read(), Ok(Some(row(&["2", "y"]))));
    assert_eq!(rdr.read(), Ok(None));
}

#[test]
fn seek_reads_again() {
    let data = b"a;b\n1;x\n\n2;\"y;z\"\n";
    let mut rdr = Reader::new(data, b';', false).unwrap();
    let first = rdr.byte_offset();
    assert_eq!(rdr.read(), Ok(Some(row(&["1", "x"]))));
    let second = rdr.byte_offset();
    assert_eq!(rdr.read(), Ok(Some(row(&["2", "y;z"]))));
    assert_eq!(rdr.seek(first), Ok(()));
    assert_eq!(rdr.read(), Ok(Some(row(&["1", "x"]))));
    assert_eq!(rdr.seek(second), Ok(()));
    assert_eq!(rdr.read(), Ok(Some(row(&["2", "y;z"]))));
    assert_eq!(rdr.seek(second), Ok(()));
    assert_eq!(rdr.read(), Ok(Some(row(&["2", "y;z"]))));
    assert_eq!(rdr.seek(data.len() + 1), Err(JoinError::Seek));
}

#[test]
fn unequal_lengths_are_a_parse_error() {
    let data = b"a,b\n1,x,extra\n";
    let mut rdr = Reader::new(data, b',', false).unwrap();
    assert_eq!(rdr.read(), Err(JoinError::Parse));
    assert_eq!(rdr.byte_offset(), 4);
}

#[test]
fn empty_dataset_has_no_headers() {
    let mut rdr = Reader::new(b"", b',', false).unwrap();
    assert_eq!(rdr.byte_headers().len(), 0);
    assert_eq!(rdr.read(), Ok(None));
}

#[test]
fn settle_holds_a_read_against_the_bytes_left() {
    let fields = row(&["1", "x"]);
    assert_eq!(
        settle(ReadStep::Record { fields: fields.clone(), used: 4 }, 4),
        Ok(Some((fields.clone(), 4)))
    );
    assert_eq!(settle(ReadStep::Record { fields: fields.clone(), used: 5 }, 4), Err(JoinError::Parse));
    assert_eq!(settle(ReadStep::Record { fields, used: 0 }, 4), Err(JoinError::Parse));
    assert_eq!(settle(ReadStep::End, 0), Ok(None));
    assert_eq!(settle(ReadStep::Malformed, 9), Err(JoinError::Parse));
}

#[test]
fn rewind_goes_back_before_the_headers() {
    let mut rdr = Reader::new(b"a,b\n1,x\n", b',', false).unwrap();
    assert_eq!(rdr.first_offset(), 4);
    assert_eq!(rdr.read(), Ok(Some(row(&["1", "x"]))));
    rdr.rewind();
    assert_eq!(rdr.byte_offset(), 0);
    assert_eq!(rdr.read(), Ok(Some(row(&["a", "b"]))));
    assert_eq!(rdr.read(), Ok(Some(row(&["1", "x"]))));
}

#[test]
fn quoted_fields_keep_delimiters_and_line_breaks() {
    let data = b"a,b\n\"x,1\",\"two\nlines\"\nlast,\"q\"\"q\"\n";
    let mut rdr = Reader::new(data, b',', false).unwrap();
    assert_eq!(rdr.read(), Ok(Some(row(&["x,1", "two\nlines"]))));
    assert_eq!(rdr.read(), Ok(Some(row(&["last", "q\"q"]))));
    assert_eq!(rdr.read(), Ok(None));
}
