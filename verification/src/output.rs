use vstd::prelude::*;
use vstd::string::StringSliceAdditionalSpecFns;
use crate::hex::{hex_text, render_usize, lemma_usize_hex_digits};

verus! {

/// The descriptor of standard output.
pub const STDOUT: usize = 1;

/// The descriptor of standard error.
pub const STDERR: usize = 2;

/// One `write` system call still to be made: the bytes and the descriptor
/// they go to.
pub struct WriteRequest {
    pub fd: usize,
    pub bytes: Vec<u8>,
}

impl WriteRequest {
    /// Whether this request writes exactly `bytes` to `fd`.
    pub open spec fn writes(self, fd: usize, bytes: Seq<u8>) -> bool {
        self.fd == fd && self.bytes@ == bytes
    }

    /// A request to write a copy of `bytes` to `fd`.
    pub fn new(fd: usize, bytes: &[u8]) -> (w: WriteRequest)
        ensures
            w.fd == fd,
            w.bytes@ == bytes@,
    {
        WriteRequest { fd, bytes: vstd::slice::slice_to_vec(bytes) }
    }
}

/// The write that puts the text `value` on standard output.
pub fn print_string(value: &str) -> (w: WriteRequest)
    ensures
        w.fd == STDOUT,
        w.bytes@ == value.spec_bytes(),
{
    WriteRequest::new(STDOUT, value.as_bytes())
}

/// The write that puts the text `value` on standard error.
pub fn error_string(value: &str) -> (w: WriteRequest)
    ensures
        w.fd == STDERR,
        w.bytes@ == value.spec_bytes(),
{
    WriteRequest::new(STDERR, value.as_bytes())
}

/// The write that puts `value` on standard output as `0x` and its lowercase
/// hexadecimal digits, rendered in a buffer of twenty bytes.
pub fn print_usize(value: usize) -> (w: WriteRequest)
    ensures
        w.fd == STDOUT,
        w.bytes@ == hex_text(value as nat),
{
    let mut buffer = [0u8; 20];
    proof {
        lemma_usize_hex_digits(value);
    }
    let rendered = render_usize(value, vstd::array::ref_mut_array_unsizing_coercion(&mut buffer));
    WriteRequest::new(STDOUT, rendered)
}

} // verus!
