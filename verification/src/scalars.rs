//! How values are written for which bencode has no type of its own: a
//! truth value as the integer 0 or 1, a floating-point number as the bytes
//! of its bits, and a character as a text of one character.
use vstd::prelude::*;

verus! {

/// The number that the bytes write, the first byte first.
pub open spec fn big_endian(bytes: Seq<u8>) -> nat
    decreases bytes.len(),
{
    if bytes.len() == 0 {
        0
    } else {
        big_endian(bytes.drop_last()) * 256 + bytes.last() as nat
    }
}

/// The integer that is written for a truth value: 1 for true, 0 for false.
pub fn number_of_bool(value: bool) -> (r: u8)
    ensures
        r == (if value {
            1u8
        } else {
            0u8
        }),
{
    if value {
        1
    } else {
        0
    }
}

/// The truth value that the text of an integer stands for: `0` for false
/// and `1` for true; any other text stands for none.
pub fn bool_of_number(text: &str) -> (r: Option<bool>)
    ensures
        r == (if text@ == seq!['0'] {
            Some(false)
        } else if text@ == seq!['1'] {
            Some(true)
        } else {
            None
        }),
{
    let bytes = text.as_bytes();
    proof {
        vstd::utf8::encode_utf8_decode_utf8(text@);
        vstd::utf8::encode_utf8_decode_utf8(seq!['0']);
        vstd::utf8::encode_utf8_decode_utf8(seq!['1']);
        one_ascii_char('0');
        one_ascii_char('1');
    }
    if bytes.len() == 1 && bytes[0] == 48 {
        proof {
            assert(bytes@ =~= seq![48u8]);
        }
        Some(false)
    } else if bytes.len() == 1 && bytes[0] == 49 {
        proof {
            assert(bytes@ =~= seq![49u8]);
        }
        Some(true)
    } else {
        None
    }
}

/// The text of one ASCII character is written as the one byte of the
/// character.
proof fn one_ascii_char(c: char)
    requires
        (c as u32) < 128,
    ensures
        vstd::utf8::encode_utf8(seq![c]) == seq![c as u8],
{
    let text = seq![c];
    assert(vstd::utf8::is_ascii_chars(text));
    vstd::utf8::is_ascii_chars_encode_utf8(text);
    assert(vstd::utf8::encode_utf8(text) =~= seq![c as u8]);
}

/// The four bytes of `bits`, the highest first.
pub fn bytes_of_bits32(bits: u32) -> (r: [u8; 4])
    ensures
        big_endian(r@) == bits,
{
    let r = [(bits >> 24) as u8, ((bits >> 16) & 0xff) as u8, ((bits >> 8) & 0xff) as u8, (bits
        & 0xff) as u8];
    proof {
        let b0 = (bits >> 24) as u8;
        let b1 = ((bits >> 16) & 0xff) as u8;
        let b2 = ((bits >> 8) & 0xff) as u8;
        let b3 = (bits & 0xff) as u8;
        assert(bits == ((b0 as u32 * 256 + b1 as u32) * 256 + b2 as u32) * 256 + b3 as u32)
            by (bit_vector)
            requires
                b0 == (bits >> 24) as u8,
                b1 == ((bits >> 16) & 0xff) as u8,
                b2 == ((bits >> 8) & 0xff) as u8,
                b3 == (bits & 0xff) as u8,
        ;
        four_bytes(r@);
    }
    r
}

/// The number that four bytes write.
proof fn four_bytes(bytes: Seq<u8>)
    requires
        bytes.len() == 4,
    ensures
        big_endian(bytes) == ((bytes[0] as nat * 256 + bytes[1] as nat) * 256 + bytes[2] as nat)
            * 256 + bytes[3] as nat,
{
    let three = bytes.drop_last();
    let two = three.drop_last();
    let one = two.drop_last();
    assert(one.drop_last() =~= Seq::<u8>::empty());
    assert(big_endian(one.drop_last()) == 0);
    assert(big_endian(one) == bytes[0] as nat);
    assert(big_endian(two) == big_endian(one) * 256 + bytes[1] as nat);
    assert(big_endian(three) == big_endian(two) * 256 + bytes[2] as nat);
}

/// The bits that four bytes write, the highest first; for any other number
/// of bytes, that number.
pub fn bits32_of_bytes(bytes: &[u8]) -> (r: Result<u32, usize>)
    ensures
        bytes@.len() == 4 ==> r == Ok::<u32, usize>(big_endian(bytes@) as u32) && big_endian(
            bytes@,
        ) <= u32::MAX,
        bytes@.len() != 4 ==> r == Err::<u32, usize>(bytes@.len() as usize),
{
    if bytes.len() != 4 {
        return Err(bytes.len());
    }
    proof {
        four_bytes(bytes@);
    }
    let high: u32 = bytes[0] as u32 * 256 + bytes[1] as u32;
    let low: u32 = bytes[2] as u32 * 256 + bytes[3] as u32;
    Ok(high * 65536 + low)
}

/// The eight bytes of `bits`, the highest first.
pub fn bytes_of_bits64(bits: u64) -> (r: [u8; 8])
    ensures
        big_endian(r@) == bits,
{
    let high = bytes_of_bits32((bits >> 32) as u32);
    let low = bytes_of_bits32((bits & 0xffff_ffff) as u32);
    let r = [high[0], high[1], high[2], high[3], low[0], low[1], low[2], low[3]];
    proof {
        let h = (bits >> 32) as u32;
        let l = (bits & 0xffff_ffff) as u32;
        assert(bits == h as u64 * 0x1_0000_0000 + l as u64) by (bit_vector)
            requires
                h == (bits >> 32) as u32,
                l == (bits & 0xffff_ffff) as u32,
        ;
        four_bytes(high@);
        four_bytes(low@);
        eight_bytes(r@);
        assert(r@.subrange(0, 4) =~= high@);
        assert(r@.subrange(4, 8) =~= low@);
    }
    r
}

/// The number that eight bytes write is that of the first four, over that
/// of the last four.
proof fn eight_bytes(bytes: Seq<u8>)
    requires
        bytes.len() == 8,
    ensures
        big_endian(bytes) == big_endian(bytes.subrange(0, 4)) * 0x1_0000_0000 + big_endian(
            bytes.subrange(4, 8),
        ),
{
    let high = bytes.subrange(0, 4);
    let low = bytes.subrange(4, 8);
    four_bytes(high);
    four_bytes(low);
    let seven = bytes.drop_last();
    let six = seven.drop_last();
    let five = six.drop_last();
    let four = five.drop_last();
    assert(four =~= high);
    assert(big_endian(five) == big_endian(four) * 256 + bytes[4] as nat);
    assert(big_endian(six) == big_endian(five) * 256 + bytes[5] as nat);
    assert(big_endian(seven) == big_endian(six) * 256 + bytes[6] as nat);
    assert(big_endian(bytes) == big_endian(seven) * 256 + bytes[7] as nat);
    assert(low[0] == bytes[4] && low[1] == bytes[5] && low[2] == bytes[6] && low[3] == bytes[7]);
}

/// The bits that eight bytes write, the highest first; for any other
/// number of bytes, that number.
pub fn bits64_of_bytes(bytes: &[u8]) -> (r: Result<u64, usize>)
    ensures
        bytes@.len() == 8 ==> r == Ok::<u64, usize>(big_endian(bytes@) as u64) && big_endian(
            bytes@,
        ) <= u64::MAX,
        bytes@.len() != 8 ==> r == Err::<u64, usize>(bytes@.len() as usize),
{
    if bytes.len() != 8 {
        return Err(bytes.len());
    }
    let high = match bits32_of_bytes(vstd::slice::slice_subrange(bytes, 0, 4)) {
        Ok(high) => high,
        Err(_) => return Err(bytes.len()),
    };
    let low = match bits32_of_bytes(vstd::slice::slice_subrange(bytes, 4, 8)) {
        Ok(low) => low,
        Err(_) => return Err(bytes.len()),
    };
    proof {
        eight_bytes(bytes@);
    }
    Ok(high as u64 * 0x1_0000_0000 + low as u64)
}

/// The index of the first colon of `bytes` from `from` on, if there is one.
pub open spec fn first_colon(bytes: Seq<u8>, from: int) -> Option<int>
    decreases bytes.len() - from,
{
    if from < 0 || from >= bytes.len() {
        None
    } else if bytes[from] == 58 {
        Some(from)
    } else {
        first_colon(bytes, from + 1)
    }
}

/// The content of the byte string that `encoded` is the encoding of: what
/// follows the first colon, where `encoded` begins with a digit. For the
/// encoding of anything but a byte string there is none.
pub fn byte_string_content(encoded: &[u8]) -> (r: Option<&[u8]>)
    ensures
        r matches Some(content) ==> {
            &&& encoded@.len() > 0
            &&& 48 <= encoded@[0] <= 57
            &&& first_colon(encoded@, 0) matches Some(colon)
            &&& content@ == encoded@.skip(colon + 1)
        },
        r is None ==> encoded@.len() == 0 || !(48 <= encoded@[0] <= 57) || first_colon(
            encoded@,
            0,
        ) is None,
{
    if encoded.len() == 0 || encoded[0] < 48 || encoded[0] > 57 {
        return None;
    }
    let mut i: usize = 0;
    while i < encoded.len()
        invariant
            i <= encoded.len(),
            encoded@.len() > 0,
            48 <= encoded@[0] <= 57,
            first_colon(encoded@, i as int) == first_colon(encoded@, 0),
        decreases encoded.len() - i,
    {
        if encoded[i] == 58 {
            let content = vstd::slice::slice_subrange(encoded, i + 1, encoded.len());
            proof {
                assert(content@ =~= encoded@.skip(i + 1));
            }
            return Some(content);
        }
        i = i + 1;
    }
    None
}

/// The character that a text of one character holds; for any other text,
/// the number of its characters.
pub fn single_char(text: &str) -> (r: Result<char, usize>)
    ensures
        text@.len() == 1 ==> r == Ok::<char, usize>(text@[0]),
        text@.len() != 1 ==> r == Err::<char, usize>(text@.len() as usize),
{
    let count = text.unicode_len();
    if count != 1 {
        return Err(count);
    }
    Ok(text.get_char(0))
}

} // verus!
