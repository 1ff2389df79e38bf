use vstd::prelude::*;
use crate::host::Addr;

verus! {

/// The greeting record a manager server sends to each worker: where to
/// paint, and with how many painter threads.
pub struct Target {
    pub addr: Vec<Addr>,
    pub port: u16,
    pub threads: usize,
}

// ---------------------------------------------------------------------------
// The manager wire format: every message is a 4-byte big-endian length
// followed by that many bytes of zstd-compressed payload.
// ---------------------------------------------------------------------------

/// What zstd makes of a byte string at the default level used here; a
/// function of the bytes alone.
pub uninterp spec fn zstd_frame(data: Seq<u8>) -> Seq<u8>;

/// What decompressing a byte string yields: the uncompressed bytes for a valid
/// zstd frame, nothing otherwise; a function of the bytes alone.
pub uninterp spec fn zstd_unframe(data: Seq<u8>) -> Option<Seq<u8>>;

/// Relies on zstd's encode_all at level 3: compression only reads the input
/// bytes, writing into memory cannot fail, and decode_all inverts it (the
/// zstd frame format is lossless).
#[verifier::external_body]
fn compress(data: &Vec<u8>) -> (r: Vec<u8>)
    ensures
        r@ == zstd_frame(data@),
        zstd_unframe(r@) == Some(data@),
{
    zstd::encode_all(&data[..], 3).expect("compressing into memory cannot fail")
}

/// Relies on zstd's decode_all: whether and what it decodes depends on the
/// input bytes alone.
#[verifier::external_body]
fn decompress(data: &Vec<u8>) -> (r: Option<Vec<u8>>)
    ensures
        match zstd_unframe(data@) {
            Some(d) => r matches Some(v) && v@ == d,
            None => r is None,
        },
{
    zstd::decode_all(&data[..]).ok()
}

/// The length announced by a 4-byte big-endian header.
pub open spec fn be32(h: Seq<u8>) -> int {
    h[0] * 0x1000000 + h[1] * 0x10000 + h[2] * 0x100 + h[3]
}

/// A length-prefixed wire message around a body.
pub open spec fn framed(body: Seq<u8>) -> Seq<u8> {
    seq![
        (body.len() as int / 0x1000000 % 256) as u8,
        (body.len() as int / 0x10000 % 256) as u8,
        (body.len() as int / 0x100 % 256) as u8,
        (body.len() as int % 256) as u8,
    ] + body
}

/// Read the length header of a wire message.
pub fn frame_len(header: &[u8; 4]) -> (n: u32)
    ensures
        n == be32(header@),
{
    let n = (header[0] as u32) * 0x1000000 + (header[1] as u32) * 0x10000 + (header[2] as u32)
        * 0x100 + (header[3] as u32);
    n
}

/// Build one wire message around a payload: compress it, then prefix the
/// compressed body with its big-endian length. Fails only when the
/// compressed body would not fit the 4-byte length field. The message
/// carries its body intact: stripping the header and decompressing gives
/// the payload back.
pub fn encode_message(payload: &Vec<u8>) -> (r: Option<Vec<u8>>)
    ensures
        r is None <==> zstd_frame(payload@).len() > u32::MAX,
        r matches Some(v) ==> {
            &&& v@ == framed(zstd_frame(payload@))
            &&& be32(v@.take(4)) == zstd_frame(payload@).len()
            &&& v@.skip(4) == zstd_frame(payload@)
            &&& zstd_unframe(v@.skip(4)) == Some(payload@)
        },
{
    let body = compress(payload);
    if (body.len() as u64) > 0xffff_ffffu64 {
        return None;
    }
    let len = body.len() as u32;
    let b0 = ((len >> 24) & 0xff) as u8;
    let b1 = ((len >> 16) & 0xff) as u8;
    let b2 = ((len >> 8) & 0xff) as u8;
    let b3 = (len & 0xff) as u8;
    proof {
        assert((len >> 24) & 0xff == len / 0x1000000 % 256 && (len >> 16) & 0xff == len / 0x10000
            % 256 && (len >> 8) & 0xff == len / 0x100 % 256 && len & 0xff == len % 256)
            by (bit_vector);
    }
    let mut v: Vec<u8> = Vec::new();
    v.push(b0);
    v.push(b1);
    v.push(b2);
    v.push(b3);
    v.extend_from_slice(body.as_slice());
    proof {
        assert(v@ =~= framed(zstd_frame(payload@)));
        assert(v@.take(4) =~= framed(zstd_frame(payload@)).take(4));
        assert(v@.skip(4) =~= zstd_frame(payload@));
    }
    Some(v)
}

/// Decode the body of one wire message (after its length header was read
/// and that many bytes were received): decompress it.
pub fn decode_message(body: &Vec<u8>) -> (r: Option<Vec<u8>>)
    ensures
        match zstd_unframe(body@) {
            Some(d) => r matches Some(v) && v@ == d,
            None => r is None,
        },
{
    decompress(body)
}

} // verus!
