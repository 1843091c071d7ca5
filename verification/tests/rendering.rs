use lib::hex::render_usize;
use lib::memory::memset;
use lib::output::{error_string, print_string, print_usize, WriteRequest, STDERR, STDOUT};

#[test]
fn print_usize_renders_hexadecimal() {
    let w = print_usize(255);
    assert_eq!(w.fd, STDOUT);
    assert_eq!(w.bytes, b"0xff".to_vec());
}

#[test]
fn print_usize_renders_zero_as_single_digit() {
    assert_eq!(print_usize(0).bytes, b"0x0".to_vec());
}

#[test]
fn print_usize_renders_largest_value() {
    assert_eq!(print_usize(usize::MAX).bytes, b"0xffffffffffffffff".to_vec());
}

#[test]
fn print_usize_has_no_leading_zeros() {
    assert_eq!(print_usize(0x10).bytes, b"0x10".to_vec());
    assert_eq!(print_usize(0x1234abcd).bytes, b"0x1234abcd".to_vec());
    assert_eq!(print_usize(9).bytes, b"0x9".to_vec());
    assert_eq!(print_usize(10).bytes, b"0xa".to_vec());
}

#[test]
fn render_usize_writes_at_the_end_and_keeps_the_front() {
    let mut buffer = [7u8; 8];
    let rendered = render_usize(0xab, &mut buffer).to_vec();
    assert_eq!(rendered, b"0xab".to_vec());
    assert_eq!(buffer, [7, 7, 7, 7, b'0', b'x', b'a', b'b']);
}

#[test]
fn render_usize_fits_the_smallest_buffer() {
    let mut buffer = [1u8; 4];
    let rendered = render_usize(0, &mut buffer).to_vec();
    assert_eq!(rendered, b"0x0".to_vec());
    assert_eq!(buffer, [1, b'0', b'x', b'0']);
}

#[test]
fn print_and_error_choose_the_descriptor() {
    let p = print_string("Hello, world!\n");
    let e = error_string("Hello, world!\n");
    assert_eq!(p.fd, STDOUT);
    assert_eq!(e.fd, STDERR);
    assert_eq!(p.bytes, b"Hello, world!\n".to_vec());
    assert_eq!(e.bytes, p.bytes);
}

#[test]
fn write_request_copies_the_bytes() {
    let w = WriteRequest::new(5, &[1, 2, 3]);
    assert_eq!(w.fd, 5);
    assert_eq!(w.bytes, vec![1, 2, 3]);
}

#[test]
fn memset_fills_the_front_only() {
    let mut buffer = [1u8, 2, 3, 4, 5];
    let filled = memset(&mut buffer, 9, 3).to_vec();
    assert_eq!(filled, vec![9, 9, 9, 4, 5]);
    assert_eq!(buffer, [9, 9, 9, 4, 5]);
}

#[test]
fn memset_of_nothing_changes_nothing() {
    let mut buffer = [1u8, 2, 3];
    memset(&mut buffer, 0, 0);
    assert_eq!(buffer, [1, 2, 3]);
    memset(&mut buffer, 0, 3);
    assert_eq!(buffer, [0, 0, 0]);
}
