use vstd::prelude::*;
use vstd::string::StringSliceAdditionalSpecFns;
use crate::hex::hex_text;
use crate::output::{WriteRequest, STDOUT, print_string, print_usize};

verus! {

/// The writes that list the command line: `-- argc: `, the count in
/// hexadecimal and a newline, then for each argument its index in
/// hexadecimal, `: `, the argument and a newline.
pub fn argument_listing(args: &Vec<Vec<u8>>) -> (ws: Vec<WriteRequest>)
    requires
        3 + 4 * args@.len() <= usize::MAX,
    ensures
        ws@.len() == 3 + 4 * args@.len(),
        ws@[0].writes(STDOUT, "-- argc: ".spec_bytes()),
        ws@[1].writes(STDOUT, hex_text(args@.len())),
        ws@[2].writes(STDOUT, "\n".spec_bytes()),
        forall|i: int|
            0 <= i < args@.len() ==> {
                &&& (#[trigger] ws@[3 + 4 * i]).writes(STDOUT, hex_text(i as nat))
                &&& ws@[3 + 4 * i + 1].writes(STDOUT, ": ".spec_bytes())
                &&& ws@[3 + 4 * i + 2].writes(STDOUT, args@[i]@)
                &&& ws@[3 + 4 * i + 3].writes(STDOUT, "\n".spec_bytes())
            },
{
    let mut ws: Vec<WriteRequest> = Vec::new();
    ws.push(print_string("-- argc: "));
    ws.push(print_usize(args.len()));
    ws.push(print_string("\n"));
    let mut index: usize = 0;
    while index < args.len()
        invariant
            3 + 4 * args@.len() <= usize::MAX,
            index <= args@.len(),
            ws@.len() == 3 + 4 * index,
            ws@[0].writes(STDOUT, "-- argc: ".spec_bytes()),
            ws@[1].writes(STDOUT, hex_text(args@.len())),
            ws@[2].writes(STDOUT, "\n".spec_bytes()),
            forall|i: int|
                0 <= i < index ==> {
                    &&& (#[trigger] ws@[3 + 4 * i]).writes(STDOUT, hex_text(i as nat))
                    &&& ws@[3 + 4 * i + 1].writes(STDOUT, ": ".spec_bytes())
                    &&& ws@[3 + 4 * i + 2].writes(STDOUT, args@[i]@)
                    &&& ws@[3 + 4 * i + 3].writes(STDOUT, "\n".spec_bytes())
                },
        decreases args@.len() - index,
    {
        let ghost before = ws@;
        ws.push(print_usize(index));
        ws.push(print_string(": "));
        ws.push(WriteRequest::new(STDOUT, args[index].as_slice()));
        ws.push(print_string("\n"));
        assert forall|i: int| 0 <= i < index + 1 implies {
            &&& (#[trigger] ws@[3 + 4 * i]).writes(STDOUT, hex_text(i as nat))
            &&& ws@[3 + 4 * i + 1].writes(STDOUT, ": ".spec_bytes())
            &&& ws@[3 + 4 * i + 2].writes(STDOUT, args@[i]@)
            &&& ws@[3 + 4 * i + 3].writes(STDOUT, "\n".spec_bytes())
        } by {
            if i < index {
                assert(ws@[3 + 4 * i] == before[3 + 4 * i]);
                assert(ws@[3 + 4 * i + 1] == before[3 + 4 * i + 1]);
                assert(ws@[3 + 4 * i + 2] == before[3 + 4 * i + 2]);
                assert(ws@[3 + 4 * i + 3] == before[3 + 4 * i + 3]);
            }
        }
        index = index + 1;
    }
    ws
}

/// How many values `last_values_listing` counts through.
pub const LAST_VALUES_COUNT: usize = 11;

/// The writes that count through the largest `usize` values, from
/// `usize::MAX - 10` up to `usize::MAX`: for each, `-- `, the value in
/// hexadecimal and a newline.
pub fn last_values_listing() -> (ws: Vec<WriteRequest>)
    ensures
        ws@.len() == 3 * LAST_VALUES_COUNT,
        forall|k: int|
            0 <= k < LAST_VALUES_COUNT ==> {
                &&& (#[trigger] ws@[3 * k]).writes(STDOUT, "-- ".spec_bytes())
                &&& ws@[3 * k + 1].writes(STDOUT, hex_text((usize::MAX - 10 + k) as nat))
                &&& ws@[3 * k + 2].writes(STDOUT, "\n".spec_bytes())
            },
{
    let mut ws: Vec<WriteRequest> = Vec::new();
    let mut k: usize = 0;
    while k < LAST_VALUES_COUNT
        invariant
            k <= LAST_VALUES_COUNT,
            ws@.len() == 3 * k,
            forall|j: int|
                0 <= j < k ==> {
                    &&& (#[trigger] ws@[3 * j]).writes(STDOUT, "-- ".spec_bytes())
                    &&& ws@[3 * j + 1].writes(STDOUT, hex_text((usize::MAX - 10 + j) as nat))
                    &&& ws@[3 * j + 2].writes(STDOUT, "\n".spec_bytes())
                },
        decreases LAST_VALUES_COUNT - k,
    {
        let ghost before = ws@;
        ws.push(print_string("-- "));
        ws.push(print_usize(usize::MAX - 10 + k));
        ws.push(print_string("\n"));
        assert forall|j: int| 0 <= j < k + 1 implies {
            &&& (#[trigger] ws@[3 * j]).writes(STDOUT, "-- ".spec_bytes())
            &&& ws@[3 * j + 1].writes(STDOUT, hex_text((usize::MAX - 10 + j) as nat))
            &&& ws@[3 * j + 2].writes(STDOUT, "\n".spec_bytes())
        } by {
            if j < k {
                assert(ws@[3 * j] == before[3 * j]);
                assert(ws@[3 * j + 1] == before[3 * j + 1]);
                assert(ws@[3 * j + 2] == before[3 * j + 2]);
            }
        }
        k = k + 1;
    }
    ws
}

} // verus!
