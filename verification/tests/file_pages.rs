use bplus_tree::file_medium::{blank, offset, FileMediumError, PageNumbers, PageRead, Slot};
use bplus_tree::store::PAGE_SIZE;

#[test]
fn where_pages_begin() {
    assert_eq!(offset(0), 0);
    assert_eq!(offset(1), 8192);
    assert_eq!(offset(3), 24576);
}

#[test]
fn a_page_is_put_together_from_what_comes() {
    let bytes: Vec<u8> = (0..PAGE_SIZE).map(|i| (i % 251) as u8).collect();
    let mut read = PageRead::start();
    assert_eq!(read.lacks(), PAGE_SIZE);
    let mut at = 0;
    for n in [1, 1000, 4096, PAGE_SIZE - 5097] {
        assert!(read.take(&bytes[at..at + n]).is_ok());
        at += n;
        assert_eq!(read.lacks(), PAGE_SIZE - at);
    }
    assert_eq!(read.finish().0.to_vec(), bytes);
}

#[test]
fn a_file_that_ends_within_a_page() {
    let mut read = PageRead::start();
    assert!(read.take(&[7; 100]).is_ok());
    match read.take(&[]) {
        Err(FileMediumError::ShortRead { expected, got }) => {
            assert_eq!(expected, 8192);
            assert_eq!(got, 100);
        }
        _ => panic!("the page was complete"),
    }
}

#[test]
fn errors_of_the_file_are_kept() {
    let e = FileMediumError::from(std::io::Error::from(std::io::ErrorKind::NotFound));
    match e {
        FileMediumError::Io(e) => assert_eq!(e.kind(), std::io::ErrorKind::NotFound),
        _ => panic!("another error"),
    }
}

#[test]
fn a_blank_page_is_zero() {
    assert!(blank().0.iter().all(|b| *b == 0));
}

#[test]
fn pages_are_handed_out_in_order() {
    let mut numbers = PageNumbers::new(0);
    assert_eq!(numbers.allocate(), Slot::Grown(0));
    assert_eq!(numbers.allocate(), Slot::Grown(1));
    let mut numbers = PageNumbers::new(40);
    assert_eq!(numbers.allocate(), Slot::Grown(40));
}

#[test]
fn the_page_that_was_given_back_last_is_handed_out_first() {
    let mut numbers = PageNumbers::new(10);
    numbers.free(3);
    numbers.free(7);
    assert_eq!(numbers.allocate(), Slot::Reused(7));
    assert_eq!(numbers.allocate(), Slot::Reused(3));
    assert_eq!(numbers.allocate(), Slot::Grown(10));
}
