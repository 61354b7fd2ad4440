//! The encode-side serializer: literal bytes gather in a pending buffer
//! and leave as Huffman-packed, length-prefixed chunk records; copy
//! records flush the buffer and are written raw.

use vstd::prelude::*;

use crate::error::LizardError;
use crate::header::{spec_header_bytes, Header};
use crate::helpers::{push_range, spec_bin_bytes};
use crate::huffman::{pack_to_u8, spec_pack, CodeMap};
use crate::offset_len::spec_offset_len_to_bytes;
use crate::{ChunkMarker, EncodedValue};

verus! {

/// The chunk records that carry a packed literal run: segments of at
/// most 63 bytes, each preceded by its marker byte.
pub open spec fn spec_chunked(packed: Seq<u8>) -> Seq<u8>
    decreases packed.len(),
{
    if packed.len() == 0 {
        Seq::empty()
    } else if packed.len() <= 63 {
        seq![(192 + packed.len()) as u8] + packed
    } else {
        (seq![255u8] + packed.take(63)) + spec_chunked(packed.skip(63))
    }
}

/// How many chunk records carry a packed literal run.
pub open spec fn spec_chunk_count(packed: Seq<u8>) -> int
    decreases packed.len(),
{
    if packed.len() == 0 {
        0
    } else if packed.len() <= 63 {
        1
    } else {
        1 + spec_chunk_count(packed.skip(63))
    }
}

/// Law: the chunk cap falls exactly at 63 packed bytes. A literal run
/// whose packed form is at most 63 bytes leaves as one chunk record;
/// 64 packed bytes leave as two, split after the 63rd, and together the
/// records carry every packed byte unchanged.
pub proof fn lemma_chunk_boundary(packed: Seq<u8>)
    ensures
        1 <= packed.len() <= 63 ==> spec_chunk_count(packed) == 1 && spec_chunked(packed) == seq![
            (192 + packed.len()) as u8,
        ] + packed,
        packed.len() == 64 ==> spec_chunk_count(packed) == 2 && spec_chunked(packed) == (seq![
            255u8,
        ] + packed.take(63)) + (seq![193u8] + packed.skip(63)),
{
    if 1 <= packed.len() <= 63 {
        assert(spec_chunk_count(packed) == 1);
    }
    if packed.len() == 64 {
        let tail = packed.skip(63);
        assert(tail.len() == 1);
        assert(spec_chunk_count(tail) == 1);
        assert(spec_chunked(tail) == seq![(192 + tail.len()) as u8] + tail);
        assert((192 + tail.len()) as u8 == 193u8);
        assert(spec_chunked(packed) =~= (seq![255u8] + packed.take(63)) + (seq![193u8]
            + packed.skip(63)));
    }
}

/// The debug transcript for one flushed literal run: for each chunk, the
/// marker in angle brackets, the chunk's bytes in binary, then the raw
/// literal bytes of the whole run.
pub open spec fn spec_chunk_debug(packed: Seq<u8>, literals: Seq<u8>) -> Seq<u8>
    decreases packed.len(),
{
    if packed.len() == 0 {
        Seq::empty()
    } else if packed.len() <= 63 {
        spec_marker_debug(packed.len() as u8) + spec_bin_concat(packed) + literals
    } else {
        (spec_marker_debug(63) + spec_bin_concat(packed.take(63)) + literals) + spec_chunk_debug(
            packed.skip(63),
            literals,
        )
    }
}

/// A chunk marker's debug note: its length between angle brackets.
pub open spec fn spec_marker_debug(len: u8) -> Seq<u8> {
    seq![60u8] + crate::helpers::spec_dec_bytes(len as int) + seq![62u8]
}

/// The binary renderings of a run of bytes, with nothing between them.
pub open spec fn spec_bin_concat(s: Seq<u8>) -> Seq<u8>
    decreases s.len(),
{
    if s.len() == 0 {
        Seq::empty()
    } else {
        spec_bin_concat(s.drop_last()) + spec_bin_bytes(s.last())
    }
}

/// Appends each byte's eight binary digits, with nothing between them.
fn push_bin_concat(bytes: &Vec<u8>, start: usize, end: usize, out: &mut Vec<u8>)
    requires
        start <= end <= bytes@.len(),
    ensures
        final(out)@ == old(out)@ + spec_bin_concat(bytes@.subrange(start as int, end as int)),
{
    let mut j: usize = start;
    while j < end
        invariant
            start <= j <= end <= bytes@.len(),
            out@ == old(out)@ + spec_bin_concat(bytes@.subrange(start as int, j as int)),
        decreases end - j,
    {
        crate::helpers::push_bin(bytes[j], out);
        proof {
            let t = bytes@.subrange(start as int, j as int + 1);
            assert(t.drop_last() =~= bytes@.subrange(start as int, j as int));
            assert(t.last() == bytes@[j as int]);
        }
        j = j + 1;
    }
    proof {
        if start == end {
            assert(old(out)@ + spec_bin_concat(bytes@.subrange(start as int, start as int))
                =~= old(out)@);
        }
    }
}

/// Appends one chunk's transcript: the marker in angle brackets, the
/// chunk's bytes in binary, then the raw literal bytes of the run.
fn push_chunk_debug(
    d: &mut Vec<u8>,
    chunk_len: u8,
    packed: &Vec<u8>,
    pos: usize,
    end: usize,
    literals: &Vec<u8>,
)
    requires
        pos <= end <= packed@.len(),
    ensures
        final(d)@ == old(d)@ + (spec_marker_debug(chunk_len) + spec_bin_concat(
            packed@.subrange(pos as int, end as int),
        ) + literals@),
{
    let marker = ChunkMarker { len: chunk_len };
    let mut mdbg = marker.to_debug_bytes();
    d.append(&mut mdbg);
    push_bin_concat(packed, pos, end, d);
    push_range(d, literals, 0, literals.len());
    proof {
        assert(literals@.subrange(0, literals@.len() as int) =~= literals@);
        assert(d@ =~= old(d)@ + (spec_marker_debug(chunk_len) + spec_bin_concat(
            packed@.subrange(pos as int, end as int),
        ) + literals@));
    }
}

/// What one decision adds to the emitted bytes and the pending
/// literals: a literal joins the pending buffer; a copy record first
/// flushes the buffer as chunk records, then its own bytes. Nothing
/// when a pending byte has no code.
pub open spec fn spec_add_value(cm: CodeMap, out: Seq<u8>, buf: Seq<u8>, v: EncodedValue) -> Option<
    (Seq<u8>, Seq<u8>),
> {
    match v {
        EncodedValue::RawU8(b) => Some((out, buf.push(b))),
        EncodedValue::OffsetLen(ol) => {
            if buf.len() == 0 {
                Some((out + spec_offset_len_to_bytes(ol.offset, ol.len), Seq::empty()))
            } else {
                match spec_pack(cm, buf) {
                    None => None,
                    Some(p) => Some(
                        (
                            out + spec_chunked(p) + spec_offset_len_to_bytes(ol.offset, ol.len),
                            Seq::empty(),
                        ),
                    ),
                }
            }
        },
    }
}

/// A run of decisions folded through `spec_add_value`, starting from
/// the given emitted bytes and pending buffer.
pub open spec fn spec_add_values(
    cm: CodeMap,
    out: Seq<u8>,
    buf: Seq<u8>,
    values: Seq<EncodedValue>,
) -> Option<(Seq<u8>, Seq<u8>)>
    decreases values.len(),
{
    if values.len() == 0 {
        Some((out, buf))
    } else {
        match spec_add_value(cm, out, buf, values[0]) {
            None => None,
            Some(st) => spec_add_values(cm, st.0, st.1, values.drop_first()),
        }
    }
}

/// The bytes a whole decision sequence serializes to: every decision
/// taken in order, then the pending literals flushed as final chunk
/// records. Nothing when a literal has no code.
pub open spec fn spec_serialize(cm: CodeMap, values: Seq<EncodedValue>) -> Option<Seq<u8>> {
    match spec_add_values(cm, Seq::empty(), Seq::empty(), values) {
        None => None,
        Some(st) => {
            if st.1.len() == 0 {
                Some(st.0)
            } else {
                match spec_pack(cm, st.1) {
                    None => None,
                    Some(p) => Some(st.0 + spec_chunked(p)),
                }
            }
        },
    }
}

/// Sequences the encoder's decisions into container bytes: an internal
/// buffer of pending literals, the container bytes built so far, and an
/// optional human-readable transcript alongside.
pub struct OutputStream {
    pub buf: Vec<u8>,
    pub output: Vec<u8>,
    pub debug_output: Option<Vec<u8>>,
    pub code_map: CodeMap,
}

impl OutputStream {
    /// What the optional transcript holds, as a sequence; an absent
    /// transcript reads as absent forever.
    pub open spec fn spec_debug(&self) -> Option<Seq<u8>> {
        match self.debug_output {
            None => None,
            Some(d) => Some(d@),
        }
    }

    pub fn new(code_map: CodeMap, with_debug: bool) -> (r: Self)
        ensures
            r.buf@ == Seq::<u8>::empty(),
            r.output@ == Seq::<u8>::empty(),
            r.code_map == code_map,
            r.spec_debug() == if with_debug {
                Some(Seq::<u8>::empty())
            } else {
                None::<Seq<u8>>
            },
    {
        Self {
            buf: Vec::new(),
            output: Vec::new(),
            debug_output: if with_debug {
                Some(Vec::new())
            } else {
                None
            },
            code_map,
        }
    }

    /// Packs the pending literals and emits them as chunk records of at
    /// most 63 payload bytes each. Fails with `MissingCode`, leaving
    /// everything unchanged, when some pending byte has no code.
    #[verifier::rlimit(100)]
    fn end_chunk(&mut self) -> (r: Result<(), LizardError>)
        requires
            old(self).code_map.wf(),
        ensures
            final(self).code_map == old(self).code_map,
            match r {
                Ok(()) => {
                    &&& spec_pack(old(self).code_map, old(self).buf@) is Some
                    &&& final(self).output@ == old(self).output@ + spec_chunked(
                        spec_pack(old(self).code_map, old(self).buf@)->0,
                    )
                    &&& final(self).buf@ == Seq::<u8>::empty()
                    &&& final(self).spec_debug() == match old(self).spec_debug() {
                        None => None::<Seq<u8>>,
                        Some(d) => Some(
                            d + spec_chunk_debug(
                                spec_pack(old(self).code_map, old(self).buf@)->0,
                                old(self).buf@,
                            ),
                        ),
                    }
                },
                Err(e) => {
                    &&& spec_pack(old(self).code_map, old(self).buf@) is None
                    &&& e == LizardError::MissingCode
                    &&& *final(self) == *old(self)
                },
            },
    {
        let packed = match pack_to_u8(&self.code_map, &self.buf) {
            Ok(p) => p,
            Err(e) => {
                return Err(e);
            },
        };
        let ghost literals = self.buf@;
        let ghost out0 = self.output@;
        let ghost dbg0 = self.spec_debug();
        let ghost mut emitted: Seq<u8> = Seq::empty();
        let ghost mut demitted: Seq<u8> = Seq::empty();
        proof {
            assert(packed@.skip(0) =~= packed@);
            assert(out0 + emitted =~= out0);
            assert(emitted + spec_chunked(packed@) =~= spec_chunked(packed@));
            assert(demitted + spec_chunk_debug(packed@, literals) =~= spec_chunk_debug(
                packed@,
                literals,
            ));
            if dbg0 is Some {
                assert(dbg0->0 + demitted =~= dbg0->0);
            }
        }
        let mut pos: usize = 0;
        while pos < packed.len()
            invariant
                pos <= packed@.len(),
                self.code_map == old(self).code_map,
                self.buf == old(self).buf,
                self.buf@ == literals,
                self.output@ == out0 + emitted,
                emitted + spec_chunked(packed@.skip(pos as int)) == spec_chunked(packed@),
                match dbg0 {
                    None => self.spec_debug() is None,
                    Some(d) => self.spec_debug() == Some(d + demitted) && demitted
                        + spec_chunk_debug(packed@.skip(pos as int), literals) == spec_chunk_debug(
                        packed@,
                        literals,
                    ),
                },
            decreases packed@.len() - pos,
        {
            let remaining = packed.len() - pos;
            let chunk_len: usize = if remaining > 63 {
                63
            } else {
                remaining
            };
            let marker = ChunkMarker { len: chunk_len as u8 };
            let ghost rem_seq = packed@.skip(pos as int);
            let m = marker.to_u8();
            self.output.push(m);
            push_range(&mut self.output, &packed, pos, pos + chunk_len);
            proof {
                assert(rem_seq.take(chunk_len as int) =~= packed@.subrange(
                    pos as int,
                    pos + chunk_len,
                ));
                assert(rem_seq.skip(chunk_len as int) =~= packed@.skip(pos + chunk_len));
                if remaining <= 63 {
                    assert(rem_seq.take(chunk_len as int) =~= rem_seq);
                }
                let piece = seq![m] + packed@.subrange(pos as int, pos + chunk_len);
                assert(spec_chunked(rem_seq) == piece + spec_chunked(packed@.skip(
                    pos + chunk_len,
                )));
                assert(self.output@ =~= out0 + (emitted + piece));
                assert((emitted + piece) + spec_chunked(packed@.skip(pos + chunk_len))
                    =~= emitted + spec_chunked(rem_seq));
                emitted = emitted + piece;
            }
            if let Some(d) = &mut self.debug_output {
                let ghost dmark = d@;
                push_chunk_debug(d, chunk_len as u8, &packed, pos, pos + chunk_len, &self.buf);
                proof {
                    let dpiece = spec_marker_debug(chunk_len as u8) + spec_bin_concat(
                        packed@.subrange(pos as int, pos + chunk_len),
                    ) + literals;
                    assert(d@ =~= dmark + dpiece);
                    assert(spec_chunk_debug(rem_seq, literals) == dpiece + spec_chunk_debug(
                        packed@.skip(pos + chunk_len),
                        literals,
                    ));
                    assert((demitted + dpiece) + spec_chunk_debug(
                        packed@.skip(pos + chunk_len),
                        literals,
                    ) =~= demitted + spec_chunk_debug(rem_seq, literals));
                    assert(d@ =~= dbg0->0 + (demitted + dpiece));
                    demitted = demitted + dpiece;
                }
            } else {
                proof {
                    let dpiece = spec_marker_debug(chunk_len as u8) + spec_bin_concat(
                        packed@.subrange(pos as int, pos + chunk_len),
                    ) + literals;
                    if dbg0 is Some {
                        assert(false);
                    }
                    demitted = demitted + dpiece;
                }
            }
            pos = pos + chunk_len;
        }
        proof {
            assert(packed@.skip(packed@.len() as int) =~= Seq::<u8>::empty());
            assert(emitted + Seq::<u8>::empty() =~= emitted);
            if dbg0 is Some {
                assert(demitted + Seq::<u8>::empty() =~= demitted);
            }
        }
                self.buf.clear();
        Ok(())
    }

    /// Emits the header's bytes, mirrored to the transcript in readable
    /// form. Fails with `MalformedHeader`, leaving everything unchanged,
    /// when the serialized tree overflows the two-byte length prefix.
    pub fn write_header(&mut self, header: &Header) -> (r: Result<(), LizardError>)
        ensures
            final(self).code_map == old(self).code_map,
            final(self).buf == old(self).buf,
            match r {
                Ok(()) => {
                    &&& crate::header::spec_tree_bytes(header.huffman_tree).len() + 10 <= 0xffff
                    &&& final(self).output@ == old(self).output@ + spec_header_bytes(*header)
                    &&& final(self).spec_debug() == match old(self).spec_debug() {
                        None => None::<Seq<u8>>,
                        Some(d) => Some(d + crate::header::spec_header_debug(*header)),
                    }
                },
                Err(e) => {
                    &&& e == LizardError::MalformedHeader
                    &&& crate::header::spec_tree_bytes(header.huffman_tree).len() + 10 > 0xffff
                    &&& *final(self) == *old(self)
                },
            },
    {
        let mut bytes = match header.to_bytes() {
            Ok(b) => b,
            Err(e) => {
                return Err(e);
            },
        };
        self.output.append(&mut bytes);
        if let Some(d) = &mut self.debug_output {
            let mut dbg = header.to_debug_bytes();
            d.append(&mut dbg);
        }
        Ok(())
    }

    /// Takes one encoder decision: a literal joins the pending buffer; a
    /// copy record first flushes the buffer as chunk records, then is
    /// written raw, so no copy record ever lands inside an open chunk.
    pub fn add(&mut self, value: &EncodedValue) -> (r: Result<(), LizardError>)
        requires
            old(self).code_map.wf(),
        ensures
            final(self).code_map == old(self).code_map,
            match r {
                Ok(()) => match value {
                    EncodedValue::RawU8(v) => final(self).buf@ == old(self).buf@.push(*v)
                        && final(self).output@ == old(self).output@
                        && final(self).spec_debug() == old(self).spec_debug(),
                    EncodedValue::OffsetLen(ol) => {
                        &&& final(self).buf@ == Seq::<u8>::empty()
                        &&& (old(self).buf@.len() > 0 ==> spec_pack(
                            old(self).code_map,
                            old(self).buf@,
                        ) is Some)
                        &&& final(self).output@ == old(self).output@ + (if old(self).buf@.len()
                            > 0 {
                            spec_chunked(spec_pack(old(self).code_map, old(self).buf@)->0)
                        } else {
                            Seq::<u8>::empty()
                        }) + spec_offset_len_to_bytes(ol.offset, ol.len)
                        &&& final(self).spec_debug() == match old(self).spec_debug() {
                            None => None::<Seq<u8>>,
                            Some(d) => Some(
                                d + (if old(self).buf@.len() > 0 {
                                    spec_chunk_debug(
                                        spec_pack(old(self).code_map, old(self).buf@)->0,
                                        old(self).buf@,
                                    )
                                } else {
                                    Seq::<u8>::empty()
                                }) + ol.spec_to_bytes_debug(),
                            ),
                        }
                    },
                },
                Err(e) => {
                    &&& e == LizardError::MissingCode
                    &&& value is OffsetLen
                    &&& old(self).buf@.len() > 0
                    &&& spec_pack(old(self).code_map, old(self).buf@) is None
                    &&& *final(self) == *old(self)
                },
            },
    {
        match value {
            EncodedValue::RawU8(v) => {
                self.buf.push(*v);
                Ok(())
            },
            EncodedValue::OffsetLen(offset_len) => {
                let ghost mid_output = old(self).output@;
                if self.buf.len() > 0 {
                    match self.end_chunk() {
                        Ok(()) => {},
                        Err(e) => {
                            return Err(e);
                        },
                    }
                }
                let mut rec = offset_len.to_bytes_new();
                self.output.append(&mut rec);
                if let Some(d) = &mut self.debug_output {
                    let mut dbg = offset_len.to_bytes_debug();
                    d.append(&mut dbg);
                }
                proof {
                    if old(self).buf@.len() == 0 {
                        assert(old(self).output@ + Seq::<u8>::empty() + spec_offset_len_to_bytes(
                            offset_len.offset,
                            offset_len.len,
                        ) =~= old(self).output@ + spec_offset_len_to_bytes(
                            offset_len.offset,
                            offset_len.len,
                        ));
                        if old(self).spec_debug() is Some {
                            assert(old(self).spec_debug()->0 + Seq::<u8>::empty()
                                + offset_len.spec_to_bytes_debug() =~= old(self).spec_debug()->0
                                + offset_len.spec_to_bytes_debug());
                        }
                    }
                }
                Ok(())
            },
        }
    }

    /// Flushes any pending literals as final chunk records; the stream's
    /// bytes are then complete.
    pub fn finalise(&mut self) -> (r: Result<(), LizardError>)
        requires
            old(self).code_map.wf(),
        ensures
            final(self).code_map == old(self).code_map,
            match r {
                Ok(()) => {
                    &&& final(self).buf@ == Seq::<u8>::empty()
                    &&& (old(self).buf@.len() > 0 ==> spec_pack(
                        old(self).code_map,
                        old(self).buf@,
                    ) is Some)
                    &&& final(self).output@ == old(self).output@ + (if old(self).buf@.len() > 0 {
                        spec_chunked(spec_pack(old(self).code_map, old(self).buf@)->0)
                    } else {
                        Seq::<u8>::empty()
                    })
                    &&& final(self).spec_debug() == match old(self).spec_debug() {
                        None => None::<Seq<u8>>,
                        Some(d) => Some(
                            d + (if old(self).buf@.len() > 0 {
                                spec_chunk_debug(
                                    spec_pack(old(self).code_map, old(self).buf@)->0,
                                    old(self).buf@,
                                )
                            } else {
                                Seq::<u8>::empty()
                            }),
                        ),
                    }
                },
                Err(e) => {
                    &&& e == LizardError::MissingCode
                    &&& old(self).buf@.len() > 0
                    &&& spec_pack(old(self).code_map, old(self).buf@) is None
                    &&& *final(self) == *old(self)
                },
            },
    {
        if self.buf.len() > 0 {
            match self.end_chunk() {
                Ok(()) => {},
                Err(e) => {
                    return Err(e);
                },
            }
        }
        proof {
            if old(self).buf@.len() == 0 {
                assert(old(self).output@ + Seq::<u8>::empty() =~= old(self).output@);
                if old(self).spec_debug() is Some {
                    assert(old(self).spec_debug()->0 + Seq::<u8>::empty() =~= old(
                        self,
                    ).spec_debug()->0);
                }
            }
        }
        Ok(())
    }
}

} // verus!