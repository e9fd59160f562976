//! Message framing: every message travels as its length, four bytes
//! little-endian, followed by its bytes.
use vstd::prelude::*;

verus! {

/// The four little-endian bytes of `n`.
pub open spec fn le_bytes(n: u32) -> Seq<u8> {
    seq![
        (n % 256) as u8,
        ((n / 256) % 256) as u8,
        ((n / 65536) % 256) as u8,
        (n / 16777216) as u8,
    ]
}

/// The number whose four little-endian bytes are `b`.
pub open spec fn le_value(b: Seq<u8>) -> int {
    b[0] + 256 * b[1] + 65536 * b[2] + 16777216 * b[3]
}

/// The header announcing a message of `len` bytes.
pub fn frame_header(len: u32) -> (r: [u8; 4])
    ensures
        r@ == le_bytes(len),
{
    let r = [
        (len % 256) as u8,
        ((len / 256) % 256) as u8,
        ((len / 65536) % 256) as u8,
        (len / 16777216) as u8,
    ];
    assert(r@ =~= le_bytes(len));
    r
}

/// The length that a header announces.
pub fn header_len(h: [u8; 4]) -> (r: u32)
    ensures
        r == le_value(h@),
{
    h[0] as u32 + (h[1] as u32) * 256 + (h[2] as u32) * 65536 + (h[3] as u32) * 16777216
}

/// A message framed for sending: its header, then its bytes. `None` when the
/// message is too long for a four-byte length.
pub fn encode_frame(bytes: &[u8]) -> (r: Option<Vec<u8>>)
    ensures
        r is None <==> bytes@.len() > u32::MAX,
        r matches Some(v) ==> v@ == le_bytes(bytes@.len() as u32) + bytes@,
{
    if bytes.len() > u32::MAX as usize {
        return None;
    }
    let h = frame_header(bytes.len() as u32);
    let mut v: Vec<u8> = Vec::new();
    let mut i: usize = 0;
    while i < 4
        invariant
            i <= 4,
            h@.len() == 4,
            v@ == h@.take(i as int),
        decreases 4 - i,
    {
        v.push(h[i]);
        assert(h@.take(i + 1) == h@.take(i as int).push(h@[i as int]));
        i += 1;
    }
    assert(h@.take(4) == h@);
    let mut k: usize = 0;
    while k < bytes.len()
        invariant
            k <= bytes@.len(),
            v@ == h@ + bytes@.take(k as int),
        decreases bytes@.len() - k,
    {
        v.push(bytes[k]);
        assert(bytes@.take(k + 1) == bytes@.take(k as int).push(bytes@[k as int]));
        k += 1;
    }
    assert(bytes@.take(bytes@.len() as int) == bytes@);
    Some(v)
}

/// Decoding inverts encoding: the header of a length announces that length.
pub proof fn lemma_header_round_trip(n: u32)
    ensures
        le_value(le_bytes(n)) == n,
{
    let b = le_bytes(n);
    assert(b[0] + 256 * b[1] + 65536 * b[2] + 16777216 * b[3] == n) by (nonlinear_arith)
        requires
            b[0] == n % 256,
            b[1] == (n / 256) % 256,
            b[2] == (n / 65536) % 256,
            b[3] == n / 16777216,
            n <= u32::MAX,
    ;
}

} // verus!
