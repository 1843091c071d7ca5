use vstd::prelude::*;

verus! {

/// The ASCII character of the hexadecimal digit `d` (`0..=9`, then `a..=f`).
pub open spec fn hex_digit_char(d: nat) -> u8 {
    if d < 10 {
        (48 + d) as u8
    } else {
        (87 + d) as u8
    }
}

/// The lowercase hexadecimal digits of `v`, most significant first, without
/// leading zeros; zero is the single digit `0`.
pub open spec fn hex_digits(v: nat) -> Seq<u8>
    decreases v,
{
    if v < 16 {
        seq![hex_digit_char(v)]
    } else {
        hex_digits(v / 16).push(hex_digit_char(v % 16))
    }
}

/// The text that `render_usize` produces: `0x` followed by the digits of `v`.
pub open spec fn hex_text(v: nat) -> Seq<u8> {
    seq![48u8, 120u8] + hex_digits(v)
}

fn digit_char(d: usize) -> (c: u8)
    requires
        d < 16,
    ensures
        c == hex_digit_char(d as nat),
{
    if d < 10 {
        48u8 + d as u8
    } else {
        87u8 + d as u8
    }
}

proof fn lemma_nibble(v: usize)
    ensures
        v & 15 == v % 16,
        v >> 4 == v / 16,
{
    assert(v & 15 == v % 16) by (bit_vector);
    assert(v >> 4 == v / 16) by (bit_vector);
}

/// Writes `0x` and the lowercase hexadecimal digits of `value` at the end of
/// `buffer` and returns the part of `buffer` that holds them. The bytes in
/// front of that part keep their old values.
pub fn render_usize(value: usize, buffer: &mut [u8]) -> (rendered: &[u8])
    requires
        old(buffer)@.len() >= hex_digits(value as nat).len() + 3,
    ensures
        rendered@ == hex_text(value as nat),
        final(buffer)@ == old(buffer)@.subrange(
            0,
            old(buffer)@.len() - hex_text(value as nat).len(),
        ) + hex_text(value as nat),
{
    let len = buffer.len();
    let ghost n = hex_digits(value as nat).len();
    let mut offset: usize = len - 1;
    let mut cur: usize = value;
    if cur == 0 {
        buffer[offset] = 48u8;
        offset = offset - 1;
    }
    while cur > 0
        invariant
            len == buffer@.len(),
            len == old(buffer)@.len(),
            len >= n + 3,
            n == hex_digits(value as nat).len(),
            offset < len,
            value > 0 ==> hex_digits(value as nat) == (if cur > 0 {
                hex_digits(cur as nat)
            } else {
                Seq::<u8>::empty()
            }) + buffer@.subrange(offset + 1, len as int),
            value == 0 ==> cur == 0,
            value == 0 ==> hex_digits(value as nat) == buffer@.subrange(offset + 1, len as int),
            buffer@.subrange(0, offset + 1) == old(buffer)@.subrange(0, offset + 1),
        decreases cur,
    {
        proof { lemma_nibble(cur); }
        let d = cur & 15;
        let ghost before = buffer@;
        buffer[offset] = digit_char(d);
        assert(buffer@.subrange(0, offset as int) =~= before.subrange(0, offset as int));
        cur = cur >> 4;
        offset = offset - 1;
    }
    buffer[offset] = 120u8;
    offset = offset - 1;
    buffer[offset] = 48u8;
    offset = offset - 1;
    &buffer[offset + 1..len]
}

/// Whether `c` is one of the sixteen characters `0-9a-f`.
pub open spec fn is_hex_char(c: u8) -> bool {
    (48 <= c <= 57) || (97 <= c <= 102)
}

/// The number that the hexadecimal character `c` stands for.
pub open spec fn hex_char_value(c: u8) -> int {
    if c <= 57 {
        c - 48
    } else {
        c - 87
    }
}

/// The number that a sequence of hexadecimal characters denotes, most
/// significant digit first.
pub open spec fn numeral_value(s: Seq<u8>) -> int
    decreases s.len(),
{
    if s.len() == 0 {
        0
    } else {
        numeral_value(s.drop_last()) * 16 + hex_char_value(s.last())
    }
}

/// Rendering is exact: the text is `0x` and then a non-empty run of
/// lowercase hexadecimal characters that denotes `v`, with no leading zero
/// unless `v` is zero (then it is the single digit `0`).
pub proof fn lemma_hex_text_denotes_value(v: nat)
    ensures
        hex_text(v).len() >= 3,
        hex_text(v)[0] == 48u8,
        hex_text(v)[1] == 120u8,
        hex_text(v).subrange(2, hex_text(v).len() as int) == hex_digits(v),
        forall|i: int| 0 <= i < hex_digits(v).len() ==> is_hex_char(#[trigger] hex_digits(v)[i]),
        numeral_value(hex_digits(v)) == v,
        hex_digits(v)[0] == 48u8 <==> v == 0,
    decreases v,
{
    assert(hex_text(v).subrange(2, hex_text(v).len() as int) =~= hex_digits(v));
    if v < 16 {
        assert(hex_digits(v).drop_last() =~= Seq::<u8>::empty());
        assert(numeral_value(Seq::<u8>::empty()) == 0);
    } else {
        lemma_hex_text_denotes_value(v / 16);
        assert(hex_digits(v).drop_last() =~= hex_digits(v / 16));
        assert(hex_digits(v)[0] == hex_digits(v / 16)[0]);
        assert(hex_char_value(hex_digit_char(v % 16)) == v % 16);
        assert((v / 16) * 16 + v % 16 == v);
    }
}

/// Sixteen to the power `k`.
pub open spec fn pow16(k: nat) -> nat
    decreases k,
{
    if k == 0 {
        1
    } else {
        16 * pow16((k - 1) as nat)
    }
}

/// A value below `16^k` has at most `k` hexadecimal digits.
pub proof fn lemma_hex_digits_len_bound(v: nat, k: nat)
    requires
        k >= 1,
        v < pow16(k),
    ensures
        hex_digits(v).len() <= k,
    decreases k,
{
    if v >= 16 {
        assert(k >= 2) by {
            reveal_with_fuel(pow16, 2);
        }
        assert(v / 16 < pow16((k - 1) as nat));
        lemma_hex_digits_len_bound(v / 16, (k - 1) as nat);
    }
}

/// Every `usize` has at most sixteen hexadecimal digits.
pub proof fn lemma_usize_hex_digits(v: usize)
    ensures
        hex_digits(v as nat).len() <= 16,
{
    reveal_with_fuel(pow16, 17);
    assert(pow16(16) == 0x1_0000_0000_0000_0000);
    lemma_hex_digits_len_bound(v as nat, 16);
}

} // verus!
