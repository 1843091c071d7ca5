use vstd::prelude::*;

verus! {

/// Sets the first `size` bytes of `buffer` to `value`, the bytes after them
/// keeping their old values, and returns the buffer.
pub fn memset(buffer: &mut [u8], value: u8, size: usize) -> (filled: &[u8])
    requires
        size <= old(buffer)@.len(),
    ensures
        filled@ == final(buffer)@,
        final(buffer)@ == Seq::new(size as nat, |i: int| value) + old(buffer)@.subrange(
            size as int,
            old(buffer)@.len() as int,
        ),
{
    let mut offset: usize = 0;
    while offset < size
        invariant
            size <= buffer@.len(),
            buffer@.len() == old(buffer)@.len(),
            offset <= size,
            forall|i: int| 0 <= i < offset ==> buffer@[i] == value,
            forall|i: int| offset <= i < buffer@.len() ==> buffer@[i] == old(buffer)@[i],
        decreases size - offset,
    {
        buffer[offset] = value;
        offset = offset + 1;
    }
    assert(buffer@ =~= Seq::new(size as nat, |i: int| value) + old(buffer)@.subrange(
        size as int,
        old(buffer)@.len() as int,
    ));
    buffer
}

} // verus!
