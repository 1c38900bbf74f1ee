use rar::codec::window::SlidingWindow;

#[test]
fn literal_and_output() {
    let mut w = SlidingWindow::new(256);
    for b in b"hello" {
        w.put_byte(*b);
    }
    assert_eq!(w.total_written(), 5);
    assert_eq!(&w.get_output(0, 5), b"hello");
}

#[test]
fn copy_match_non_overlapping() {
    let mut w = SlidingWindow::new(256);
    for b in b"abcd" {
        w.put_byte(*b);
    }
    w.copy_match(4, 4); // copy "abcd" again
    assert_eq!(&w.get_output(0, 8), b"abcdabcd");
}

#[test]
fn copy_match_overlapping() {
    let mut w = SlidingWindow::new(256);
    w.put_byte(b'a');
    w.copy_match(1, 5); // repeat 'a' 5 times
    assert_eq!(&w.get_output(0, 6), b"aaaaaa");
}

#[test]
fn bytes_are_read_back_by_distance() {
    let mut w = SlidingWindow::new(4);
    for b in b"abcdef" {
        w.put_byte(*b);
    }
    assert_eq!(w.get_byte_at(1), b'f');
    assert_eq!(w.get_byte_at(4), b'c');
}
