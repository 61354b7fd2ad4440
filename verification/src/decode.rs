//! The decoder: replays a container's records into a bounded trailing
//! window, flushing bytes older than the lookback length to the final
//! output, and rejects malformed or truncated containers.

use std::collections::VecDeque;

use vstd::prelude::*;

use crate::error::LizardError;
use crate::header::{be_value_of, spec_be_value, spec_header_of_bytes, Header};
use crate::helpers::push_range;
use crate::huffman::{spec_bits_of_bytes, spec_unpack, unpack_bytes, HuffmanTree};
use crate::offset_len::{spec_offset_len_of_bytes, OffsetLen};
use crate::ChunkMarker;

verus! {

/// Evicts every byte beyond the window's capacity from its front to
/// the final output, oldest first: the pair (window, output) after.
pub open spec fn spec_drain(window: Seq<u8>, out: Seq<u8>, lookback: int) -> (Seq<u8>, Seq<u8>) {
    if window.len() > lookback {
        let excess = window.len() - lookback;
        (window.skip(excess), out + window.take(excess))
    } else {
        (window, out)
    }
}

/// The window after an accumulated literal run is unpacked into it;
/// nothing when bytes are pending but the tree has no fork to walk.
pub open spec fn spec_flush(window: Seq<u8>, lit: Seq<u8>, tree: HuffmanTree) -> Option<Seq<u8>> {
    if lit.len() == 0 {
        Some(window)
    } else if tree is Node {
        Some(window + spec_unpack(spec_bits_of_bytes(lit), tree))
    } else {
        None
    }
}

/// The record loop, one record at a time: a marker whose top bits are
/// `10` heads a copy record (its widths say how many more bytes to
/// take); top bits `11` head a literal chunk whose payload joins the
/// pending run; anything else is unknown. A copy first flushes the
/// pending run and the window's excess, then must land inside the
/// materialized window. The input may only end between records.
pub open spec fn spec_decode_records(
    s: Seq<u8>,
    pos: int,
    tree: HuffmanTree,
    lookback: int,
    window: Seq<u8>,
    out: Seq<u8>,
    lit: Seq<u8>,
) -> Result<Seq<u8>, LizardError>
    decreases s.len() - pos,
{
    if pos < 0 || pos >= s.len() {
        match spec_flush(window, lit, tree) {
            None => Err(LizardError::MalformedHeader),
            Some(w) => Ok(out + w),
        }
    } else {
        let marker = s[pos];
        if marker / 64 == 2 {
            let no = (marker / 8) % 8 + 1;
            let nl = marker % 8 + 1;
            if pos + 1 + no + nl > s.len() {
                Err(LizardError::TruncatedStream)
            } else {
                match spec_flush(window, lit, tree) {
                    None => Err(LizardError::MalformedHeader),
                    Some(w1) => {
                        let drained = spec_drain(w1, out, lookback);
                        let rec = spec_offset_len_of_bytes(
                            s.subrange(pos, pos + 1 + no + nl),
                        )->0;
                        if rec.0 + rec.1 > drained.0.len() {
                            Err(LizardError::RangeOutOfBounds)
                        } else {
                            spec_decode_records(
                                s,
                                pos + 1 + no + nl,
                                tree,
                                lookback,
                                drained.0 + drained.0.subrange(
                                    rec.0 as int,
                                    rec.0 + rec.1,
                                ),
                                drained.1,
                                Seq::empty(),
                            )
                        }
                    },
                }
            }
        } else if marker / 64 == 3 {
            let clen = (marker % 64) as int;
            if pos + 1 + clen > s.len() {
                Err(LizardError::TruncatedStream)
            } else {
                spec_decode_records(
                    s,
                    pos + 1 + clen,
                    tree,
                    lookback,
                    window,
                    out,
                    lit + s.subrange(pos + 1, pos + 1 + clen),
                )
            }
        } else {
            Err(LizardError::UnknownRecordMarker)
        }
    }
}

/// What decoding a whole container yields: nothing from nothing, the
/// header parsed from its declared length, then the records replayed.
pub open spec fn spec_decode(s: Seq<u8>) -> Result<Seq<u8>, LizardError> {
    if s.len() == 0 {
        Ok(Seq::empty())
    } else if s.len() == 1 {
        Err(LizardError::TruncatedStream)
    } else {
        let hlen = spec_be_value(s.take(2));
        if s.len() < hlen {
            Err(LizardError::TruncatedStream)
        } else {
            match spec_header_of_bytes(s.take(hlen)) {
                None => Err(LizardError::MalformedHeader),
                Some(h) => spec_decode_records(
                    s,
                    hlen,
                    h.huffman_tree,
                    h.lookback_buffer_len as int,
                    Seq::empty(),
                    Seq::empty(),
                    Seq::empty(),
                ),
            }
        }
    }
}

/// Performs one copy record against the decode window: appends the
/// `len` window bytes starting `offset` from its front, or rejects the
/// record when its range runs past what the window holds.
pub fn finalise_match(read_buffer: &mut VecDeque<u8>, offset_len: &OffsetLen) -> (r: Result<
    (),
    LizardError,
>)
    ensures
        match r {
            Ok(()) => offset_len.offset + offset_len.len <= old(read_buffer)@.len()
                && final(read_buffer)@ == old(read_buffer)@ + old(read_buffer)@.subrange(
                offset_len.offset as int,
                offset_len.offset + offset_len.len,
            ),
            Err(e) => {
                &&& e == LizardError::RangeOutOfBounds
                &&& offset_len.offset + offset_len.len > old(read_buffer)@.len()
                &&& final(read_buffer)@ == old(read_buffer)@
            },
        },
{
    let wlen = read_buffer.len() as u64;
    if offset_len.offset > wlen || offset_len.len > wlen - offset_len.offset {
        return Err(LizardError::RangeOutOfBounds);
    }
    let off = offset_len.offset as usize;
    let l = offset_len.len as usize;
    let wlen_us = read_buffer.len();
    proof {
        assert(off + l <= wlen_us);
    }
    let ghost w0 = read_buffer@;
    let mut k: usize = 0;
    while k < l
        invariant
            off + l <= w0.len(),
            off + l <= usize::MAX,
            k <= l,
            read_buffer@ == w0 + w0.subrange(off as int, off + k),
        decreases l - k,
    {
        let b = read_buffer[off + k];
        proof {
            assert(read_buffer@[off + k] == w0[off + k]);
        }
        read_buffer.push_back(b);
        proof {
            assert(w0 + w0.subrange(off as int, off + k + 1) =~= (w0 + w0.subrange(
                off as int,
                off + k,
            )).push(w0[off + k]));
        }
        k = k + 1;
    }
    proof {
        if l == 0 {
            assert(w0 + w0.subrange(off as int, off as int) =~= w0);
        }
    }
    Ok(())
}

/// Unpacks the pending literal run into the window and empties the run;
/// fails when bytes are pending but the tree has no fork to walk.
fn flush_literals(lit: &mut Vec<u8>, window: &mut VecDeque<u8>, tree: &HuffmanTree) -> (r: Result<
    (),
    LizardError,
>)
    ensures
        match r {
            Ok(()) => {
                &&& spec_flush(old(window)@, old(lit)@, *tree) == Some(final(window)@)
                &&& final(lit)@ == Seq::<u8>::empty()
            },
            Err(e) => {
                &&& e == LizardError::MalformedHeader
                &&& spec_flush(old(window)@, old(lit)@, *tree) is None
                &&& final(window)@ == old(window)@
                &&& final(lit)@ == old(lit)@
            },
        },
{
    if lit.len() == 0 {
        return Ok(());
    }
    match tree {
        HuffmanTree::Node(_, _) => {},
        _ => {
            return Err(LizardError::MalformedHeader);
        },
    }
    let unpacked = unpack_bytes(lit, tree);
    let ghost w0 = window@;
    let mut k: usize = 0;
    while k < unpacked.len()
        invariant
            k <= unpacked@.len(),
            window@ == w0 + unpacked@.take(k as int),
        decreases unpacked@.len() - k,
    {
        window.push_back(unpacked[k]);
        proof {
            assert(w0 + unpacked@.take(k + 1) =~= (w0 + unpacked@.take(k as int)).push(
                unpacked@[k as int],
            ));
        }
        k = k + 1;
    }
    proof {
        assert(unpacked@.take(unpacked@.len() as int) =~= unpacked@);
    }
    lit.clear();
    Ok(())
}

/// Evicts bytes beyond the window's capacity from its front to the
/// final output, oldest first.
fn drain_window(window: &mut VecDeque<u8>, out: &mut Vec<u8>, lookback: u64)
    ensures
        final(window)@ == spec_drain(old(window)@, old(out)@, lookback as int).0,
        final(out)@ == spec_drain(old(window)@, old(out)@, lookback as int).1,
{
    let ghost w0 = window@;
    let ghost o0 = out@;
    while (window.len() as u64) > lookback
        invariant
            window@.len() <= w0.len(),
            window@ == w0.skip(w0.len() - window@.len()),
            out@ == o0 + w0.take(w0.len() - window@.len()),
            w0.len() - window@.len() <= vstd::math::max(w0.len() - lookback, 0),
        decreases window@.len(),
    {
        let ghost k = w0.len() - window@.len();
        match window.pop_front() {
            Some(v) => {
                proof {
                    assert(v == w0[k]);
                    assert(w0.skip(k).drop_first() =~= w0.skip(k + 1));
                    assert((o0 + w0.take(k)).push(w0[k]) =~= o0 + w0.take(k + 1));
                }
                out.push(v);
            },
            None => {
                proof {
                    assert(false);
                }
            },
        }
    }
    proof {
        if w0.len() > lookback {
            let excess = w0.len() - lookback as int;
            assert(w0.len() - window@.len() == excess);
        } else {
            assert(window@ =~= w0);
            assert(out@ =~= o0);
        }
    }
}

/// Decodes a whole container: parses the header from its two-byte
/// declared length, then replays copy records and literal chunks into
/// the window, evicting bytes past the header's lookback length to the
/// output. Every failure names what was wrong: a truncated record, an
/// unusable header, an unknown marker, or a copy past the window.
pub fn decode(bytes: &Vec<u8>) -> (r: Result<Vec<u8>, LizardError>)
    ensures
        match r {
            Ok(v) => spec_decode(bytes@) == Ok::<Seq<u8>, LizardError>(v@),
            Err(e) => spec_decode(bytes@) == Err::<Seq<u8>, LizardError>(e),
        },
{
    if bytes.len() == 0 {
        let empty_out = Vec::<u8>::new();
        proof {
            assert(spec_decode(bytes@) == Ok::<Seq<u8>, LizardError>(Seq::empty()));
        }
        return Ok(empty_out);
    }
    if bytes.len() == 1 {
        return Err(LizardError::TruncatedStream);
    }
    let hlen64 = be_value_of(bytes, 0, 2);
    proof {
        assert(bytes@.take(2) =~= bytes@.subrange(0, 2));
        crate::header::lemma_be_value_bound(bytes@.subrange(0, 2));
        crate::offset_len::lemma_pow256_values();
    }
    let hlen = hlen64 as usize;
    if bytes.len() < hlen {
        return Err(LizardError::TruncatedStream);
    }
    let mut header_vec: Vec<u8> = Vec::new();
    push_range(&mut header_vec, bytes, 0, hlen);
    proof {
        assert(header_vec@ =~= bytes@.take(hlen as int));
    }
    let header = match Header::from_bytes(&header_vec) {
        Err(_) => {
            return Err(LizardError::MalformedHeader);
        },
        Ok(h) => h,
    };
    let tree = header.huffman_tree;
    let lookback = header.lookback_buffer_len;

    let mut window: VecDeque<u8> = VecDeque::new();
    let mut out: Vec<u8> = Vec::new();
    let mut lit: Vec<u8> = Vec::new();
    let mut pos: usize = hlen;
    proof {
        assert(spec_decode(bytes@) == spec_decode_records(
            bytes@,
            hlen as int,
            tree,
            lookback as int,
            Seq::<u8>::empty(),
            Seq::<u8>::empty(),
            Seq::<u8>::empty(),
        ));
    }

    while pos < bytes.len()
        invariant
            pos <= bytes@.len(),
            spec_decode(bytes@) == spec_decode_records(
                bytes@,
                pos as int,
                tree,
                lookback as int,
                window@,
                out@,
                lit@,
            ),
        decreases bytes@.len() - pos,
    {
        let ghost state0 = (pos as int, window@, out@, lit@);
        let marker = bytes[pos];
        if 128 <= marker && marker < 192 {
            proof {
                assert(marker / 64 == 2);
            }
            let (no, nl) = OffsetLen::read_header_byte(marker);
            let need = 1 + no + nl;
            if need > bytes.len() - pos {
                return Err(LizardError::TruncatedStream);
            }
            let mut rec_vec: Vec<u8> = Vec::new();
            push_range(&mut rec_vec, bytes, pos, pos + need);
            proof {
                assert(rec_vec@ =~= bytes@.subrange(pos as int, pos as int + need));
                assert(rec_vec@[0] == marker);
                assert(rec_vec@.len() == 1 + ((marker / 8) % 8 + 1) + (marker % 8 + 1));
                assert(spec_offset_len_of_bytes(rec_vec@) is Some);
            }
            let ol = match OffsetLen::of_bytes_new(&rec_vec) {
                Ok(o) => o,
                Err(_) => {
                    proof {
                        assert(false);
                    }
                    return Err(LizardError::TruncatedStream);
                },
            };
            match flush_literals(&mut lit, &mut window, &tree) {
                Ok(()) => {},
                Err(e) => {
                    return Err(e);
                },
            }
            drain_window(&mut window, &mut out, lookback);
            match finalise_match(&mut window, &ol) {
                Ok(()) => {},
                Err(e) => {
                    return Err(e);
                },
            }
            pos = pos + need;
            proof {
                assert(spec_decode_records(
                    bytes@,
                    state0.0,
                    tree,
                    lookback as int,
                    state0.1,
                    state0.2,
                    state0.3,
                ) == spec_decode_records(
                    bytes@,
                    pos as int,
                    tree,
                    lookback as int,
                    window@,
                    out@,
                    lit@,
                ));
            }
        } else if marker >= 192 {
            proof {
                assert(marker / 64 == 3);
            }
            let cm = ChunkMarker::from_encoded_u8(marker);
            let clen = cm.len as usize;
            if 1 + clen > bytes.len() - pos {
                return Err(LizardError::TruncatedStream);
            }
            let ghost lit0 = lit@;
            push_range(&mut lit, bytes, pos + 1, pos + 1 + clen);
            pos = pos + 1 + clen;
            proof {
                assert(lit@ == lit0 + bytes@.subrange(
                    state0.0 + 1,
                    state0.0 + 1 + clen as int,
                ));
                assert(spec_decode_records(
                    bytes@,
                    state0.0,
                    tree,
                    lookback as int,
                    state0.1,
                    state0.2,
                    state0.3,
                ) == spec_decode_records(
                    bytes@,
                    pos as int,
                    tree,
                    lookback as int,
                    window@,
                    out@,
                    lit@,
                ));
            }
        } else {
            proof {
                assert(marker / 64 == 0 || marker / 64 == 1);
            }
            return Err(LizardError::UnknownRecordMarker);
        }
    }

    // End of input: flush any complete pending run, then hand the whole
    // window over to the output.
    match flush_literals(&mut lit, &mut window, &tree) {
        Ok(()) => {},
        Err(e) => {
            return Err(e);
        },
    }
    let ghost out_before = out@;
    let ghost w_before = window@;
    loop
        invariant_except_break
            out@ + window@ == out_before + w_before,
        ensures
            out@ == out_before + w_before,
        decreases window@.len(),
    {
        let ghost w_top = window@;
        let ghost o_top = out@;
        match window.pop_front() {
            Some(v) => {
                out.push(v);
                proof {
                    assert(w_top == seq![v] + window@) by {
                        assert(w_top.drop_first() == window@);
                        assert(w_top =~= seq![w_top[0]] + w_top.drop_first());
                    }
                    assert(out@ + window@ =~= o_top + w_top);
                }
            },
            None => {
                proof {
                    assert(w_top.len() == 0);
                    assert(out@ =~= out@ + window@);
                }
                break ;
            },
        }
    }
    Ok(out)
}

} // verus!