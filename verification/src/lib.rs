//! A lossless byte-stream compressor: a bounded-window dictionary stage
//! (backward copy records) combined with Huffman coding of literal runs.

use vstd::prelude::*;

pub mod decode;
pub mod encode;
pub mod error;
pub mod file_io;
pub mod header;
pub mod helpers;
pub mod huffman;
pub mod offset_len;
pub mod output_stream;
mod pqueue;

pub use error::LizardError;
pub use offset_len::OffsetLen;

verus! {

/// Bytes kept in the lookback dictionary window.
pub const MAX_LOOKBACK_BUFFER_LEN: usize = 1000;

/// Bytes of not-yet-encoded input held for match comparison.
pub const MAX_READ_BUFFER_LEN: usize = 400;

/// Matches shorter than this are emitted as literals: a copy record would
/// take more space than it saves.
pub const MIN_MATCH_SIZE: usize = 4;

/// The most packed bytes one literal chunk record can carry: its marker
/// byte keeps two bits for the `11` tag and six for this length.
pub const MAX_CHUNK_PAYLOAD_LEN: usize = 63;

/// One decision of the encoder: a literal byte to be Huffman-coded, or
/// a backward copy record written raw.
pub enum EncodedValue {
    OffsetLen(OffsetLen),
    RawU8(u8),
}

impl EncodedValue {
    /// The bytes this decision stands for on the wire, before any
    /// Huffman coding: the byte itself, or the copy record's wire form.
    pub fn to_bytes(&self) -> (r: Vec<u8>)
        ensures
            match self {
                EncodedValue::RawU8(v) => r@ == seq![*v],
                EncodedValue::OffsetLen(ol) => r@ == offset_len::spec_offset_len_to_bytes(
                    ol.offset,
                    ol.len,
                ),
            },
    {
        match self {
            EncodedValue::RawU8(v) => {
                let mut out = Vec::<u8>::new();
                out.push(*v);
                proof {
                    assert(out@ =~= seq![*v]);
                }
                out
            },
            EncodedValue::OffsetLen(offset_len) => offset_len.to_bytes_new(),
        }
    }
}

/// The marker byte of a literal chunk record: `11` in the top two bits,
/// the payload byte count in the low six.
pub struct ChunkMarker {
    pub len: u8,
}

impl ChunkMarker {
    /// The marker's wire form: 192 plus the payload length.
    pub fn to_u8(&self) -> (r: u8)
        requires
            self.len <= 63,
        ensures
            r == 192 + self.len,
    {
        192 + self.len
    }

    /// Reads the payload length back out of a marker byte, dropping the
    /// top two tag bits.
    pub fn from_encoded_u8(v: u8) -> (r: Self)
        ensures
            r.len == v % 64,
    {
        Self { len: v % 64 }
    }

    /// The debug transcript's note for a chunk: its length between
    /// angle brackets.
    pub fn to_debug_bytes(&self) -> (r: Vec<u8>)
        ensures
            r@ == seq![60u8] + helpers::spec_dec_bytes(self.len as int) + seq![62u8],
    {
        let mut s = Vec::<u8>::new();
        s.push(60);
        helpers::push_dec(self.len as u64, &mut s);
        s.push(62);
        proof {
            assert(s@ =~= seq![60u8] + helpers::spec_dec_bytes(self.len as int) + seq![62u8]);
        }
        s
    }
}

} // verus!
