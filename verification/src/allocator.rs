use vstd::prelude::*;
use vstd::string::StringSliceAdditionalSpecFns;
use crate::hex::hex_text;
use crate::output::{WriteRequest, STDOUT, print_string, print_usize};

verus! {

/// Bytes in front of each block that hold the size the caller asked for.
pub const HEADER_SIZE: usize = 8;

/// The length of the mapping that holds a block of `size` bytes.
pub open spec fn mapping_len_spec(size: int) -> int {
    size + HEADER_SIZE
}

/// The address handed to the caller for a mapping that starts at `base`.
pub open spec fn user_address_spec(base: int) -> int {
    base + HEADER_SIZE
}

/// The mapping that `free` unmaps for the block at `addr` whose header holds
/// `stored_size`: its start and its length; nothing for the null address.
pub open spec fn release_region_spec(addr: int, stored_size: int) -> Option<(int, int)> {
    if addr == 0 {
        None
    } else {
        Some((addr - HEADER_SIZE, mapping_len_spec(stored_size)))
    }
}

/// How a reallocation goes, from whether the old block is null and the new
/// size.
#[derive(Clone, Copy, Debug, PartialEq, Eq, Structural)]
pub enum ReallocPlan {
    /// Free the old block and hand its address back.
    Release,
    /// Allocate a fresh block; there is nothing to keep.
    Allocate,
    /// Allocate a fresh block, copy what fits, and free the old one.
    Move,
}

/// The length of the anonymous mapping that `malloc` asks for: the size plus
/// the header.
pub fn mapping_len(size: usize) -> (len: usize)
    requires
        size + HEADER_SIZE <= usize::MAX,
    ensures
        len == mapping_len_spec(size as int),
        len == size + HEADER_SIZE,
{
    size + HEADER_SIZE
}

/// The address `malloc` returns for a mapping at `base`: just past the
/// header.
pub fn user_address(base: usize) -> (addr: usize)
    requires
        base + HEADER_SIZE <= usize::MAX,
    ensures
        addr == user_address_spec(base as int),
        addr == base + HEADER_SIZE,
{
    base + HEADER_SIZE
}

/// The mapping that `free` gives back for the block at `addr` whose header
/// holds `stored_size`: its start and its length; `None` for the null
/// address, which `free` ignores.
pub fn release_region(addr: usize, stored_size: usize) -> (region: Option<(usize, usize)>)
    requires
        addr != 0 ==> addr >= HEADER_SIZE,
        addr != 0 ==> stored_size + HEADER_SIZE <= usize::MAX,
    ensures
        region matches Some((base, len)) ==> release_region_spec(addr as int, stored_size as int)
            == Some((base as int, len as int)),
        region is None ==> release_region_spec(addr as int, stored_size as int) is None,
        region matches Some((base, len)) ==> base + HEADER_SIZE == addr && len == stored_size
            + HEADER_SIZE,
{
    if addr == 0 {
        None
    } else {
        Some((addr - HEADER_SIZE, stored_size + HEADER_SIZE))
    }
}

/// How `realloc` treats the block at `old_addr` and the new size. A null
/// block with a new size of zero has no plan: there is no header in front of
/// it to read.
pub fn realloc_plan(old_addr: usize, new_size: usize) -> (plan: ReallocPlan)
    requires
        !(old_addr == 0 && new_size == 0),
    ensures
        plan is Release <==> old_addr != 0 && new_size == 0,
        plan is Allocate <==> old_addr == 0 && new_size > 0,
        plan is Move <==> old_addr != 0 && new_size > 0,
{
    if old_addr != 0 && new_size == 0 {
        ReallocPlan::Release
    } else if old_addr == 0 && new_size > 0 {
        ReallocPlan::Allocate
    } else {
        ReallocPlan::Move
    }
}

/// The smaller of the two sizes.
pub open spec fn copy_len_spec(new_size: int, old_size: int) -> int {
    if new_size <= old_size {
        new_size
    } else {
        old_size
    }
}

/// How many bytes `realloc` copies from the old block to the new one: the
/// smaller of the two sizes.
pub fn copy_len(new_size: usize, old_size: usize) -> (n: usize)
    ensures
        n == copy_len_spec(new_size as int, old_size as int),
{
    if new_size <= old_size {
        new_size
    } else {
        old_size
    }
}

/// The writes `malloc` makes before it maps memory:
/// `-----> allocating ` and the size in hexadecimal.
pub fn allocation_notice(size: usize) -> (ws: Vec<WriteRequest>)
    ensures
        ws@.len() == 2,
        ws@[0].writes(STDOUT, "-----> allocating ".spec_bytes()),
        ws@[1].writes(STDOUT, hex_text(size as nat)),
{
    let mut ws: Vec<WriteRequest> = Vec::new();
    ws.push(print_string("-----> allocating "));
    ws.push(print_usize(size));
    ws
}

/// The writes `malloc` makes after it maps memory at `base`:
/// ` address `, the address in hexadecimal, and a newline.
pub fn address_notice(base: usize) -> (ws: Vec<WriteRequest>)
    ensures
        ws@.len() == 3,
        ws@[0].writes(STDOUT, " address ".spec_bytes()),
        ws@[1].writes(STDOUT, hex_text(base as nat)),
        ws@[2].writes(STDOUT, "\n".spec_bytes()),
{
    let mut ws: Vec<WriteRequest> = Vec::new();
    ws.push(print_string(" address "));
    ws.push(print_usize(base));
    ws.push(print_string("\n"));
    ws
}

/// The writes `free` makes for the block at `addr`: nothing for the null
/// address, which `free` ignores; otherwise `-----> freeing `, the address
/// in hexadecimal, and a newline.
pub fn release_notice(addr: usize) -> (ws: Vec<WriteRequest>)
    ensures
        addr == 0 ==> ws@.len() == 0,
        addr != 0 ==> {
            &&& ws@.len() == 3
            &&& ws@[0].writes(STDOUT, "-----> freeing ".spec_bytes())
            &&& ws@[1].writes(STDOUT, hex_text(addr as nat))
            &&& ws@[2].writes(STDOUT, "\n".spec_bytes())
        },
{
    let mut ws: Vec<WriteRequest> = Vec::new();
    if addr != 0 {
        ws.push(print_string("-----> freeing "));
        ws.push(print_usize(addr));
        ws.push(print_string("\n"));
    }
    ws
}

/// The writes `realloc` makes first: the old address and the new size in
/// hexadecimal, a space between them and a newline after.
pub fn resize_notice(old_addr: usize, new_size: usize) -> (ws: Vec<WriteRequest>)
    ensures
        ws@.len() == 4,
        ws@[0].writes(STDOUT, hex_text(old_addr as nat)),
        ws@[1].writes(STDOUT, " ".spec_bytes()),
        ws@[2].writes(STDOUT, hex_text(new_size as nat)),
        ws@[3].writes(STDOUT, "\n".spec_bytes()),
{
    let mut ws: Vec<WriteRequest> = Vec::new();
    ws.push(print_usize(old_addr));
    ws.push(print_string(" "));
    ws.push(print_usize(new_size));
    ws.push(print_string("\n"));
    ws
}

/// `free` gives back exactly the mapping that `malloc` made: the address
/// handed out for a mapping at `base` holding a block of `size` bytes leads
/// back to `base` and to the mapping's length.
pub proof fn lemma_release_undoes_allocation(base: int, size: int)
    requires
        base >= 0,
    ensures
        release_region_spec(user_address_spec(base), size) == Some((base, mapping_len_spec(size))),
{
}

/// The mapping that `malloc` asks for holds the 8-byte header at its start
/// and then the whole block of `size` bytes, and nothing else: the address
/// handed out is 8 bytes past the start, and the block ends exactly where the
/// mapping ends. The region that `free` unmaps for that address and size is
/// that same mapping, header and block together.
pub proof fn lemma_mapping_holds_header_and_block(base: int, size: int)
    requires
        base >= 0,
        size >= 0,
    ensures
        HEADER_SIZE == 8,
        user_address_spec(base) == base + 8,
        mapping_len_spec(size) == 8 + size,
        mapping_len_spec(size) >= size,
        base <= user_address_spec(base),
        user_address_spec(base) + size == base + mapping_len_spec(size),
        release_region_spec(user_address_spec(base), size) == Some((base, size + 8)),
{
}

/// `realloc` never copies more than either block holds, and copies all of
/// the smaller one.
pub proof fn lemma_copy_fits(new_size: int, old_size: int)
    ensures
        copy_len_spec(new_size, old_size) <= new_size,
        copy_len_spec(new_size, old_size) <= old_size,
        copy_len_spec(new_size, old_size) == new_size || copy_len_spec(new_size, old_size)
            == old_size,
{
}

} // verus!
