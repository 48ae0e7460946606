//! Packet framing and packing: one fully field-encoded packet becomes the
//! final wire frame, plain or compressed.
use vstd::prelude::*;
use crate::varint::{varint_bytes, encode_varint};

verus! {

/// Compression configuration of a connection: packets of at least
/// `threshold` bytes are deflated at `level`; mutable only by explicit
/// protocol negotiation.
pub struct Compression {
    pub threshold: u32,
    pub level: u32,
}

impl Compression {
    /// Well-formedness: the level is one the deflate codec accepts.
    pub open spec fn wf(&self) -> bool {
        self.level <= 9
    }
}

/// Names the zlib image the compressor assigns to `data` at `level`: a
/// deterministic function of the level and bytes alone.
pub uninterp spec fn deflate_of(level: int, data: Seq<u8>) -> Seq<u8>;

/// Relies on flate2's ZlibEncoder: deflates `data` at `level` into a fresh
/// buffer; writing to an owned buffer cannot fail.  The result depends on
/// the level and the bytes alone.
#[verifier::external_body]
fn zlib_compress(data: &Vec<u8>, level: u32) -> (r: Vec<u8>)
    requires
        level <= 9,
    ensures
        r@ == deflate_of(level as int, data@),
{
    let mut enc = flate2::write::ZlibEncoder::new(
        Vec::new(),
        flate2::Compression::new(level),
    );
    std::io::Write::write_all(&mut enc, data.as_slice()).unwrap();
    enc.finish().unwrap()
}

/// The frame of payload `p` with compression absent: the payload length as
/// a variable-length integer, then the payload unchanged.
pub open spec fn plain_frame(p: Seq<u8>) -> Seq<u8> {
    varint_bytes((p.len() as u32) as u128) + p
}

/// The frame of payload `p` under compression with the given threshold:
/// below the threshold, total length then a zero marker meaning
/// "uncompressed despite compression", then the payload unchanged; at or
/// above it, total length, the uncompressed length, then the deflated
/// bytes.
pub open spec fn compressed_frame(level: int, threshold: int, p: Seq<u8>) -> Seq<u8> {
    if p.len() < threshold {
        varint_bytes(((p.len() + 1) as u32) as u128) + seq![0u8] + p
    } else {
        let inner = varint_bytes((p.len() as u32) as u128);
        let c = deflate_of(level, p);
        varint_bytes(((c.len() + inner.len()) as u32) as u128) + inner + c
    }
}

/// The frame of payload `p` under the connection's compression
/// configuration.
pub open spec fn frame_of(compression: Option<Compression>, p: Seq<u8>) -> Seq<u8> {
    match compression {
        None => plain_frame(p),
        Some(c) => compressed_frame(c.level as int, c.threshold as int, p),
    }
}

/// The byte output of encoding one packet's fields, not yet framed;
/// produced once per outbound packet and consumed exactly once by packing.
pub struct EncodedData {
    pub bytes: Vec<u8>,
}

impl EncodedData {
    /// Wraps one packet's encoded bytes.
    pub fn new(bytes: Vec<u8>) -> (r: EncodedData)
        ensures
            r.bytes@ == bytes@,
    {
        EncodedData { bytes }
    }

    /// Packs this packet into its final frame.  With compression absent the
    /// payload is framed unchanged; under compression a below-threshold
    /// payload travels unchanged behind a zero marker, and an at-threshold
    /// payload is deflated through the reusable scratch buffer, whose
    /// previous contents are overwritten, never read.  The payload must fit
    /// the frame's 32-bit length prefix.
    pub fn split_pack(self, compression: Option<&Compression>, compress_buf: &mut Vec<u8>) -> (r:
        Vec<u8>)
        requires
            self.bytes@.len() <= 0x7fffffff,
            match compression {
                Some(c) => c.wf(),
                None => true,
            },
        ensures
            match compression {
                None => r@ == plain_frame(self.bytes@),
                Some(c) => r@ == compressed_frame(
                    c.level as int,
                    c.threshold as int,
                    self.bytes@,
                ),
            },
    {
        let ghost p = self.bytes@;
        let mut b = self.bytes;
        match compression {
            None => {
                let mut out: Vec<u8> = Vec::new();
                encode_varint((#[verifier::truncate] (b.len() as u32)) as u128, &mut out);
                out.append(&mut b);
                proof {
                    assert(out@ =~= plain_frame(p));
                }
                out
            },
            Some(c) => {
                if (b.len() as u64) < (c.threshold as u64) {
                    let mut out: Vec<u8> = Vec::new();
                    encode_varint(
                        (#[verifier::truncate] (((b.len() as u128) + 1) as u32)) as u128,
                        &mut out,
                    );
                    out.push(0u8);
                    out.append(&mut b);
                    proof {
                        assert(out@ =~= compressed_frame(
                            c.level as int,
                            c.threshold as int,
                            p,
                        ));
                    }
                    out
                } else {
                    let compressed = zlib_compress(&b, c.level);
                    *compress_buf = compressed;
                    let mut inner: Vec<u8> = Vec::new();
                    encode_varint((#[verifier::truncate] (b.len() as u32)) as u128, &mut inner);
                    let mut out: Vec<u8> = Vec::new();
                    encode_varint(
                        (#[verifier::truncate] (((compress_buf.len() as u128) + (
                        inner.len() as u128)) as u32)) as u128,
                        &mut out,
                    );
                    out.append(&mut inner);
                    let mut cb: Vec<u8> = Vec::new();
                    let n = compress_buf.len();
                    let mut i: usize = 0;
                    while i < n
                        invariant
                            i <= n == compress_buf@.len(),
                            cb@ == compress_buf@.take(i as int),
                        decreases n - i,
                    {
                        cb.push(compress_buf[i]);
                        proof {
                            assert(cb@ =~= compress_buf@.take(i + 1));
                        }
                        i = i + 1;
                    }
                    proof {
                        assert(cb@ =~= compress_buf@);
                    }
                    out.append(&mut cb);
                    proof {
                        assert(out@ =~= compressed_frame(
                            c.level as int,
                            c.threshold as int,
                            p,
                        ));
                    }
                    out
                }
            },
        }
    }
}

} // verus!
