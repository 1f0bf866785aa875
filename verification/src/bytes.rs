//! Numbers and text as bytes.

use vstd::prelude::*;
use vstd::utf8::decode_utf8;
use vstd::utf8::valid_utf8;

verus! {

/// The four bytes of a number, the least significant first.
pub open spec fn le32(number: u32) -> Seq<u8> {
    seq![
        (number % 256) as u8,
        ((number / 256) % 256) as u8,
        ((number / 65536) % 256) as u8,
        (number / 16777216) as u8,
    ]
}

/// The number that four bytes denote, the least significant first.
pub open spec fn from_le32(bytes: Seq<u8>) -> u32 {
    (bytes[0] + 256 * bytes[1] + 65536 * bytes[2] + 16777216 * bytes[3]) as u32
}

/// The eight bytes of a number, the least significant first.
pub open spec fn le64(number: u64) -> Seq<u8> {
    le32((number % 4294967296) as u32) + le32((number / 4294967296) as u32)
}

/// The number that eight bytes denote, the least significant first.
pub open spec fn from_le64(bytes: Seq<u8>) -> u64 {
    (from_le32(bytes.take(4)) + 4294967296 * from_le32(bytes.skip(4))) as u64
}

/// Four bytes read back as the number they were written from.
pub proof fn le32_reads_back(number: u32)
    ensures
        from_le32(le32(number)) == number,
        le32(number).len() == 4,
{
}

/// Eight bytes read back as the number they were written from.
pub proof fn le64_reads_back(number: u64)
    ensures
        from_le64(le64(number)) == number,
        le64(number).len() == 8,
{
    let low = (number % 4294967296) as u32;
    let high = (number / 4294967296) as u32;
    assert(le64(number).take(4) =~= le32(low));
    assert(le64(number).skip(4) =~= le32(high));
    le32_reads_back(low);
    le32_reads_back(high);
}

/// Appends the four bytes of `number`.
pub fn push_le32(out: &mut Vec<u8>, number: u32)
    ensures
        final(out)@ == old(out)@ + le32(number),
{
    out.push((number % 256) as u8);
    out.push(((number / 256) % 256) as u8);
    out.push(((number / 65536) % 256) as u8);
    out.push((number / 16777216) as u8);
    assert(out@ =~= old(out)@ + le32(number));
}

/// Appends the eight bytes of `number`.
pub fn push_le64(out: &mut Vec<u8>, number: u64)
    ensures
        final(out)@ == old(out)@ + le64(number),
{
    push_le32(out, (number % 4294967296) as u32);
    push_le32(out, (number / 4294967296) as u32);
    assert(out@ =~= old(out)@ + le64(number));
}

/// Appends `bytes[from..to]`.
pub fn push_bytes(out: &mut Vec<u8>, bytes: &[u8], from: usize, to: usize)
    requires
        from <= to <= bytes@.len(),
    ensures
        final(out)@ == old(out)@ + bytes@.subrange(from as int, to as int),
{
    let mut at: usize = from;
    assert(out@ =~= old(out)@ + bytes@.subrange(from as int, from as int));
    while at < to
        invariant
            from <= at <= to <= bytes@.len(),
            out@ == old(out)@ + bytes@.subrange(from as int, at as int),
        decreases to - at,
    {
        out.push(bytes[at]);
        at = at + 1;
        assert(out@ =~= old(out)@ + bytes@.subrange(from as int, at as int));
    }
}

/// Reads the number in `bytes[at..at + 4]`.
pub fn read_le32(bytes: &[u8], at: usize) -> (number: u32)
    requires
        at + 4 <= bytes@.len(),
    ensures
        number == from_le32(bytes@.subrange(at as int, at + 4)),
{
    let ghost part = bytes@.subrange(at as int, at + 4);
    assert(part[0] == bytes@[at as int] && part[1] == bytes@[at + 1]);
    assert(part[2] == bytes@[at + 2] && part[3] == bytes@[at + 3]);
    let low: u32 = bytes[at] as u32 + 256 * (bytes[at + 1] as u32);
    let high: u32 = bytes[at + 2] as u32 + 256 * (bytes[at + 3] as u32);
    low + 65536 * high
}

/// Reads the number in `bytes[at..at + 8]`.
pub fn read_le64(bytes: &[u8], at: usize) -> (number: u64)
    requires
        at + 8 <= bytes@.len(),
    ensures
        number == from_le64(bytes@.subrange(at as int, at + 8)),
{
    let ghost part = bytes@.subrange(at as int, at + 8);
    assert(part.take(4) =~= bytes@.subrange(at as int, at + 4));
    assert(part.skip(4) =~= bytes@.subrange(at + 4, at + 8));
    assert(at + 8 <= bytes.len());
    let low = read_le32(bytes, at);
    let high = read_le32(bytes, at + 4);
    low as u64 + 4294967296 * (high as u64)
}

/// `String::from_utf8`: the text that the bytes encode, where they are UTF-8.
#[verifier::external_body]
fn text_of(bytes: Vec<u8>) -> (text: Option<String>)
    ensures
        text is Some <==> valid_utf8(bytes@),
        text matches Some(string) ==> string@ == decode_utf8(bytes@),
{
    String::from_utf8(bytes).ok()
}

/// The text that `bytes[from..to]` encode, where they are UTF-8.
pub fn read_text(bytes: &[u8], from: usize, to: usize) -> (text: Option<String>)
    requires
        from <= to <= bytes@.len(),
    ensures
        text is Some <==> valid_utf8(bytes@.subrange(from as int, to as int)),
        text matches Some(string) ==> string@ == decode_utf8(
            bytes@.subrange(from as int, to as int),
        ),
{
    let mut part: Vec<u8> = Vec::new();
    push_bytes(&mut part, bytes, from, to);
    assert(part@ =~= bytes@.subrange(from as int, to as int));
    text_of(part)
}

} // verus!
