//! The write half of one connection: it serializes every outbound packet
//! through packing, then through the streaming cipher once encryption is
//! enabled; the underlying transport write itself happens outside.
use vstd::prelude::*;
use crate::packing::{Compression, EncodedData, frame_of};

verus! {

/// The keyed CFB-8-over-AES-128 cipher context of a connection's write
/// half.  The verifier refuses the mode type's generic declaration, so the
/// context is held opaquely behind this struct.
#[verifier::external_body]
pub struct CipherState {
    enc: cfb8::Encryptor<aes::Aes128>,
}

impl CipherState {
    /// Relies on cfb8::Encryptor::new_from_slices over aes::Aes128: a
    /// keyed CFB-8 context from a 16-byte key and a 16-byte initialisation
    /// vector; those lengths are the only ones the constructor accepts.
    #[verifier::external_body]
    pub fn new(key: &Vec<u8>, iv: &Vec<u8>) -> (r: CipherState)
        requires
            key@.len() == 16,
            iv@.len() == 16,
    {
        CipherState {
            enc: <cfb8::Encryptor<aes::Aes128> as cfb8::cipher::KeyIvInit>::new_from_slices(
                key.as_slice(),
                iv.as_slice(),
            ).unwrap(),
        }
    }
}

/// Relies on cfb8::Encryptor::encrypt: ciphers `buf` in place, byte by
/// byte in order, advancing the feedback register with each byte; the
/// length never changes.  What the bytes become depends on the hidden
/// cipher state.
#[verifier::external_body]
fn cipher_encrypt(enc: &mut CipherState, buf: &mut Vec<u8>)
    ensures
        final(buf)@.len() == old(buf)@.len(),
{
    enc.enc.encrypt(buf.as_mut_slice());
}

/// Default capacity of the reusable compression scratch buffer.
pub const DEFAULT_COMPRESS_BUF_CAPACITY: usize = 4096;

/// The write half of one connection: the underlying transport sink, the
/// compression configuration, the reusable compression scratch buffer and,
/// once negotiated, the cipher state.  Exclusively owned by one task.
pub struct WriteHalf<W> {
    /// The underlying transport sink; the caller performs the actual
    /// (asynchronous) writes of prepared frames.
    pub writer: W,
    compression: Option<Compression>,
    compress_buf: Vec<u8>,
    cipher: Option<CipherState>,
}

impl<W> WriteHalf<W> {
    /// Whether encryption has been enabled; the transition is one-way and
    /// one-time.
    pub closed spec fn encrypting(&self) -> bool {
        self.cipher is Some
    }

    /// The current compression configuration.
    pub closed spec fn spec_compression(&self) -> Option<Compression> {
        self.compression
    }

    /// Well-formedness: any configured compression level is one the
    /// deflate codec accepts.
    pub closed spec fn wf(&self) -> bool {
        match self.compression {
            Some(c) => c.wf(),
            None => true,
        }
    }

    /// A write half over `inner`, with compression and encryption off.
    pub fn new(inner: W) -> (r: WriteHalf<W>)
        ensures
            !r.encrypting(),
            r.spec_compression() is None,
            r.wf(),
    {
        WriteHalf {
            writer: inner,
            compression: None,
            compress_buf: Vec::with_capacity(DEFAULT_COMPRESS_BUF_CAPACITY),
            cipher: None,
        }
    }

    /// A write half over `inner` with a chosen scratch capacity; the
    /// capacity is a pre-sizing hint only.
    pub fn new_with_capacity(inner: W, capacity: u32) -> (r: WriteHalf<W>)
        ensures
            !r.encrypting(),
            r.spec_compression() is None,
            r.wf(),
    {
        WriteHalf {
            writer: inner,
            compression: None,
            compress_buf: Vec::with_capacity(capacity as usize),
            cipher: None,
        }
    }

    /// One-way, one-time transition into the encrypting state with the
    /// negotiated keyed cipher context; there is no way back and no
    /// re-keying.
    pub fn enable_encryption(&mut self, encryptor: CipherState)
        requires
            !old(self).encrypting(),
        ensures
            final(self).encrypting(),
            final(self).spec_compression() == old(self).spec_compression(),
            final(self).wf() == old(self).wf(),
    {
        self.cipher = Some(encryptor);
    }

    /// Sets or changes the compression configuration; independent of the
    /// encryption state.
    pub fn set_compression(&mut self, compression: Option<Compression>)
        requires
            match compression {
                Some(c) => c.wf(),
                None => true,
            },
        ensures
            final(self).spec_compression() == compression,
            final(self).encrypting() == old(self).encrypting(),
            final(self).wf(),
    {
        self.compression = compression;
    }

    /// Packs one packet into its frame and, once encryption is enabled,
    /// ciphers every framed byte, length prefixes included, in byte order.
    /// The result is exactly what must reach the transport next.
    pub fn prepare(&mut self, encoded: EncodedData) -> (r: Vec<u8>)
        requires
            old(self).wf(),
            encoded.bytes@.len() <= 0x7fffffff,
        ensures
            final(self).encrypting() == old(self).encrypting(),
            final(self).spec_compression() == old(self).spec_compression(),
            final(self).wf(),
            !old(self).encrypting() ==> r@ == frame_of(
                old(self).spec_compression(),
                encoded.bytes@,
            ),
            old(self).encrypting() ==> r@.len() == frame_of(
                old(self).spec_compression(),
                encoded.bytes@,
            ).len(),
    {
        let mut frame = encoded.split_pack(self.compression.as_ref(), &mut self.compress_buf);
        match &mut self.cipher {
            Some(enc) => {
                cipher_encrypt(enc, &mut frame);
            },
            None => {},
        }
        frame
    }
}

} // verus!
