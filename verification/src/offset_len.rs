//! The self-describing variable-byte-width encoding of a backward copy
//! record: an (offset, length) pair.
//!
//! The wire form is one marker byte whose top two bits are `10`, whose next
//! three bits hold `offset_width - 1` and whose low three bits hold
//! `len_width - 1`, followed by the offset's bytes and then the length's
//! bytes, each least-significant first.

use vstd::prelude::*;

use crate::error::LizardError;
use crate::helpers::{push_byte_list_dec, push_dec, spec_byte_list_dec, spec_dec_bytes};

verus! {

/// 256 raised to `n`: the number of values `n` little-endian bytes can hold.
pub open spec fn pow256(n: nat) -> int
    decreases n,
{
    if n == 0 {
        1
    } else {
        256 * pow256((n - 1) as nat)
    }
}

/// The minimal byte width (1 through 8) able to represent `v`.
pub open spec fn spec_num_bytes(v: u64) -> int {
    if v <= 0xff {
        1
    } else if v <= 0xffff {
        2
    } else if v <= 0xff_ffff {
        3
    } else if v <= 0xffff_ffff {
        4
    } else if v <= 0xff_ffff_ffff {
        5
    } else if v <= 0xffff_ffff_ffff {
        6
    } else if v <= 0xff_ffff_ffff_ffff {
        7
    } else {
        8
    }
}

/// The `n` low bytes of `v`, least significant first.
pub open spec fn spec_le_bytes(v: int, n: nat) -> Seq<u8>
    decreases n,
{
    if n == 0 {
        Seq::empty()
    } else {
        seq![(v % 256) as u8] + spec_le_bytes(v / 256, (n - 1) as nat)
    }
}

/// The value a little-endian byte string stands for.
pub open spec fn spec_le_value(s: Seq<u8>) -> int
    decreases s.len(),
{
    if s.len() == 0 {
        0
    } else {
        s[0] + 256 * spec_le_value(s.drop_first())
    }
}

/// The marker byte for the given offset and length widths (each 1 to 8):
/// `10` in the top bits, then `no - 1`, then `nl - 1`.
pub open spec fn spec_marker_byte(no: int, nl: int) -> u8 {
    (128 + (no - 1) * 8 + (nl - 1)) as u8
}

/// The full wire form of an (offset, length) pair.
pub open spec fn spec_offset_len_to_bytes(offset: u64, len: u64) -> Seq<u8> {
    let no = spec_num_bytes(offset) as nat;
    let nl = spec_num_bytes(len) as nat;
    seq![spec_marker_byte(no as int, nl as int)] + spec_le_bytes(offset as int, no) + spec_le_bytes(
        len as int,
        nl,
    )
}

/// Decoding of a whole copy record, marker byte included. `None` when the
/// byte count disagrees with the widths the marker byte declares.
pub open spec fn spec_offset_len_of_bytes(s: Seq<u8>) -> Option<(u64, u64)> {
    if s.len() == 0 {
        None
    } else {
        let no = (s[0] / 8) % 8 + 1;
        let nl = s[0] % 8 + 1;
        if s.len() == 1 + no + nl {
            Some(
                (
                    spec_le_value(s.subrange(1, 1 + no)) as u64,
                    spec_le_value(s.subrange(1 + no, s.len() as int)) as u64,
                ),
            )
        } else {
            None
        }
    }
}

/// A backward copy instruction: copy `len` bytes starting `offset` bytes
/// from the front of the currently materialized window. `matched_bytes`
/// records the matched text for diagnostics only and never reaches the wire.
#[derive(Debug, PartialEq)]
pub struct OffsetLen {
    pub offset: u64,
    pub len: u64,
    pub matched_bytes: Option<Vec<u8>>,
}

impl OffsetLen {
    pub fn new_with_match(offset: u64, len: u64, matched_bytes: Option<Vec<u8>>) -> (r: Self)
        ensures
            r.offset == offset,
            r.len == len,
            r.matched_bytes == matched_bytes,
    {
        Self { offset, len, matched_bytes }
    }

    pub fn new(offset: u64, len: u64) -> (r: Self)
        ensures
            r.offset == offset,
            r.len == len,
            r.matched_bytes is None,
    {
        Self::new_with_match(offset, len, None)
    }

    /// The minimal byte width (1 through 8) able to represent `v`.
    fn find_num_bytes(v: u64) -> (r: usize)
        ensures
            r == spec_num_bytes(v),
            1 <= r <= 8,
    {
        if v <= 0xff {
            1
        } else if v <= 0xffff {
            2
        } else if v <= 0xff_ffff {
            3
        } else if v <= 0xffff_ffff {
            4
        } else if v <= 0xff_ffff_ffff {
            5
        } else if v <= 0xffff_ffff_ffff {
            6
        } else if v <= 0xff_ffff_ffff_ffff {
            7
        } else {
            8
        }
    }

    /// The `num_bytes` low bytes of `value`, least significant first.
    fn take_bytes(value: u64, num_bytes: usize) -> (r: Vec<u8>)
        ensures
            r@ == spec_le_bytes(value as int, num_bytes as nat),
    {
        let mut output = Vec::<u8>::new();
        let mut cur: u64 = value;
        let mut i: usize = 0;
        while i < num_bytes
            invariant
                i <= num_bytes,
                output@ + spec_le_bytes(cur as int, (num_bytes - i) as nat) == spec_le_bytes(
                    value as int,
                    num_bytes as nat,
                ),
            decreases num_bytes - i,
        {
            proof {
                assert(spec_le_bytes(cur as int, (num_bytes - i) as nat) == seq![
                    (cur % 256) as u8,
                ] + spec_le_bytes(cur as int / 256, (num_bytes - i - 1) as nat));
                assert(output@.push((cur % 256) as u8) + spec_le_bytes(
                    cur as int / 256,
                    (num_bytes - i - 1) as nat,
                ) =~= output@ + spec_le_bytes(cur as int, (num_bytes - i) as nat));
            }
            output.push((cur % 256) as u8);
            cur = cur / 256;
            i = i + 1;
        }
        proof {
            assert(output@ + spec_le_bytes(cur as int, 0) =~= output@);
        }
        output
    }

    /// The value of the little-endian bytes `bytes[start..end]`.
    fn value_of_bytes(bytes: &Vec<u8>, start: usize, end: usize) -> (r: u64)
        requires
            start <= end <= bytes@.len(),
            end - start <= 8,
        ensures
            r == spec_le_value(bytes@.subrange(start as int, end as int)),
    {
        proof {
            lemma_le_value_bound(bytes@.subrange(start as int, end as int));
            lemma_pow256_values();
        }
        let mut result: u64 = 0;
        let mut j: usize = end;
        while j > start
            invariant
                start <= j <= end <= bytes@.len(),
                end - start <= 8,
                result == spec_le_value(bytes@.subrange(j as int, end as int)),
                result < pow256((end - j) as nat),
            decreases j,
        {
            proof {
                lemma_pow256_values();
                let s = bytes@.subrange(j as int - 1, end as int);
                assert(s.drop_first() =~= bytes@.subrange(j as int, end as int));
                lemma_le_value_bound(bytes@.subrange(j as int - 1, end as int));
            }
            j = j - 1;
            result = result * 256 + (bytes[j] as u64);
        }
        proof {
            assert(bytes@.subrange(start as int, end as int) == bytes@.subrange(
                j as int,
                end as int,
            ));
        }
        result
    }

    /// The wire form: marker byte, then offset bytes, then length bytes.
    pub fn to_bytes_new(&self) -> (r: Vec<u8>)
        ensures
            r@ == spec_offset_len_to_bytes(self.offset, self.len),
            1 <= r@.len() <= 17,
    {
        let num_bytes_for_offset = Self::find_num_bytes(self.offset);
        let num_bytes_for_len = Self::find_num_bytes(self.len);

        let num_byte: u8 = 128 + ((num_bytes_for_offset as u8) - 1) * 8 + ((num_bytes_for_len
            as u8) - 1);
        let mut result = Vec::<u8>::new();
        result.push(num_byte);
        let mut offset_bytes = Self::take_bytes(self.offset, num_bytes_for_offset);
        let mut len_bytes = Self::take_bytes(self.len, num_bytes_for_len);
        proof {
            lemma_le_bytes_len(self.offset as int, num_bytes_for_offset as nat);
            lemma_le_bytes_len(self.len as int, num_bytes_for_len as nat);
        }
        result.append(&mut offset_bytes);
        result.append(&mut len_bytes);
        proof {
            assert(result@ =~= spec_offset_len_to_bytes(self.offset, self.len));
        }
        result
    }

    /// Splits a marker byte into the two byte widths it declares,
    /// offset width first.
    pub fn read_header_byte(header_byte: u8) -> (r: (usize, usize))
        ensures
            r.0 == (header_byte / 8) % 8 + 1,
            r.1 == header_byte % 8 + 1,
            1 <= r.0 <= 8,
            1 <= r.1 <= 8,
    {
        let num_bytes_for_offset = ((header_byte / 8) % 8) as usize + 1;
        let num_bytes_for_len = (header_byte % 8) as usize + 1;
        (num_bytes_for_offset, num_bytes_for_len)
    }

    /// Rebuilds the pair from its wire form. The byte count must match the
    /// widths the marker byte declares, else the record is rejected.
    pub fn of_bytes_new(bytes: &Vec<u8>) -> (r: Result<Self, LizardError>)
        requires
            bytes@.len() >= 1,
        ensures
            match r {
                Ok(ol) => spec_offset_len_of_bytes(bytes@) == Some((ol.offset, ol.len))
                    && ol.matched_bytes is None,
                Err(e) => spec_offset_len_of_bytes(bytes@) is None && e
                    == LizardError::TruncatedStream,
            },
    {
        let len_byte = bytes[0];
        let (num_bytes_for_offset, num_bytes_for_len) = Self::read_header_byte(len_byte);
        let expected_num_bytes = 1 + num_bytes_for_offset + num_bytes_for_len;
        if bytes.len() != expected_num_bytes {
            return Err(LizardError::TruncatedStream);
        }
        let offset = Self::value_of_bytes(bytes, 1, 1 + num_bytes_for_offset);
        let len = Self::value_of_bytes(bytes, 1 + num_bytes_for_offset, bytes.len());
        Ok(Self { offset, len, matched_bytes: None })
    }

    /// The debug transcript's note for `matched_bytes`: the matched text
    /// between quotes where it is printable, its bytes in decimal between
    /// brackets otherwise, or a fixed sentence where none was recorded.
    pub open spec fn spec_matched_debug(matched: Option<Seq<u8>>) -> Seq<u8> {
        match matched {
            None => seq![
                78u8, 111u8, 32u8, 109u8, 97u8, 116u8, 99u8, 104u8, 101u8, 100u8, 32u8, 98u8,
                121u8, 116u8, 101u8, 115u8, 32u8, 114u8, 101u8, 99u8, 111u8, 114u8, 100u8, 101u8,
                100u8,
            ],
            Some(bs) => {
                if forall|i: int| 0 <= i < bs.len() ==> 32 <= #[trigger] bs[i] < 127 {
                    seq![34u8] + bs + seq![34u8]
                } else {
                    seq![91u8] + spec_byte_list_dec(bs) + seq![93u8]
                }
            },
        }
    }

    /// The debug transcript's line for a copy record:
    /// `(offset,len: matched)`.
    pub open spec fn spec_to_bytes_debug(&self) -> Seq<u8> {
        seq![40u8] + spec_dec_bytes(self.offset as int) + seq![44u8] + spec_dec_bytes(
            self.len as int,
        ) + seq![58u8, 32u8] + Self::spec_matched_debug(
            match self.matched_bytes {
                None => None,
                Some(v) => Some(v@),
            },
        ) + seq![41u8]
    }

    /// Renders the record for the debug transcript.
    #[verifier::rlimit(60)]
    pub fn to_bytes_debug(&self) -> (r: Vec<u8>)
        ensures
            r@ == self.spec_to_bytes_debug(),
    {
        let mut s = Vec::<u8>::new();
        s.push(40);
        push_dec(self.offset, &mut s);
        s.push(44);
        push_dec(self.len, &mut s);
        s.push(58);
        s.push(32);
        match &self.matched_bytes {
            None => {
                let ghost mark = s@;
                s.push(78);
                s.push(111);
                s.push(32);
                s.push(109);
                s.push(97);
                s.push(116);
                s.push(99);
                s.push(104);
                s.push(101);
                s.push(100);
                s.push(32);
                s.push(98);
                s.push(121);
                s.push(116);
                s.push(101);
                s.push(115);
                s.push(32);
                s.push(114);
                s.push(101);
                s.push(99);
                s.push(111);
                s.push(114);
                s.push(100);
                s.push(101);
                s.push(100);
                proof {
                    assert(s@ =~= mark + Self::spec_matched_debug(None));
                }
            },
            Some(bs) => {
                let mut printable = true;
                let mut i: usize = 0;
                while i < bs.len()
                    invariant
                        i <= bs@.len(),
                        printable == (forall|j: int| 0 <= j < i ==> 32 <= #[trigger] bs@[j] < 127),
                    decreases bs@.len() - i,
                {
                    if bs[i] < 32 || bs[i] >= 127 {
                        printable = false;
                    }
                    i = i + 1;
                }
                if printable {
                    s.push(34);
                    crate::helpers::push_range(&mut s, bs, 0, bs.len());
                    proof {
                        assert(bs@.subrange(0, bs@.len() as int) =~= bs@);
                    }
                    s.push(34);
                } else {
                    s.push(91);
                    push_byte_list_dec(bs, &mut s);
                    s.push(93);
                }
            },
        }
        s.push(41);
        proof {
            assert(s@ =~= self.spec_to_bytes_debug());
        }
        s
    }

    /// Start and end of the copy's source range in the decode window.
    pub fn to_range(&self) -> (r: (usize, usize))
        requires
            self.offset + self.len <= usize::MAX,
        ensures
            r.0 == self.offset,
            r.1 == self.offset + self.len,
    {
        (self.offset as usize, self.range_end())
    }

    /// One past the last byte the copy reads: `offset + len`.
    pub fn range_end(&self) -> (r: usize)
        requires
            self.offset + self.len <= usize::MAX,
        ensures
            r == self.offset + self.len,
    {
        (self.offset + self.len) as usize
    }
}

/// `spec_le_bytes` yields exactly as many bytes as asked for.
proof fn lemma_le_bytes_len(v: int, n: nat)
    ensures
        spec_le_bytes(v, n).len() == n,
    decreases n,
{
    if n > 0 {
        lemma_le_bytes_len(v / 256, (n - 1) as nat);
    }
}

/// The value of a byte string fits in as many bytes as it has.
proof fn lemma_le_value_bound(s: Seq<u8>)
    ensures
        0 <= spec_le_value(s) < pow256(s.len()),
    decreases s.len(),
{
    if s.len() > 0 {
        lemma_le_value_bound(s.drop_first());
    }
}

/// The concrete values of `pow256` up to the eight bytes of a `u64`.
pub proof fn lemma_pow256_values()
    ensures
        pow256(0) == 1,
        pow256(1) == 0x100,
        pow256(2) == 0x1_0000,
        pow256(3) == 0x100_0000,
        pow256(4) == 0x1_0000_0000,
        pow256(5) == 0x100_0000_0000,
        pow256(6) == 0x1_0000_0000_0000,
        pow256(7) == 0x100_0000_0000_0000,
        pow256(8) == 0x1_0000_0000_0000_0000,
{
    reveal_with_fuel(pow256, 9);
}

/// Reading back the `n` low bytes of `v` gives `v` itself whenever `v`
/// fits in `n` bytes.
proof fn lemma_le_round_trip(v: int, n: nat)
    requires
        0 <= v < pow256(n),
    ensures
        spec_le_value(spec_le_bytes(v, n)) == v,
    decreases n,
{
    if n == 0 {
    } else {
        let rest = spec_le_bytes(v / 256, (n - 1) as nat);
        assert(spec_le_bytes(v, n).drop_first() =~= rest);
        vstd::arithmetic::div_mod::lemma_mod_pos_bound(v, 256);
        assert(v / 256 < pow256((n - 1) as nat)) by {
            vstd::arithmetic::div_mod::lemma_fundamental_div_mod(v, 256);
        };
        assert(v / 256 >= 0) by {
            vstd::arithmetic::div_mod::lemma_div_pos_is_pos(v, 256);
        };
        lemma_le_round_trip(v / 256, (n - 1) as nat);
        assert(spec_le_value(spec_le_bytes(v, n)) == v % 256 + 256 * (v / 256));
        vstd::arithmetic::div_mod::lemma_fundamental_div_mod(v, 256);
    }
}

/// Law: a copy record survives the byte codec unchanged. Encoding any
/// (offset, length) pair and decoding the result gives the pair back.
pub proof fn lemma_offset_len_round_trip(offset: u64, len: u64)
    ensures
        spec_offset_len_of_bytes(spec_offset_len_to_bytes(offset, len)) == Some((offset, len)),
{
    let no = spec_num_bytes(offset);
    let nl = spec_num_bytes(len);
    let ob = spec_le_bytes(offset as int, no as nat);
    let lb = spec_le_bytes(len as int, nl as nat);
    let s = spec_offset_len_to_bytes(offset, len);
    lemma_le_bytes_len(offset as int, no as nat);
    lemma_le_bytes_len(len as int, nl as nat);
    lemma_pow256_values();

    let m = spec_marker_byte(no, nl) as int;
    assert(m == 8 * (16 + no - 1) + (nl - 1));
    vstd::arithmetic::div_mod::lemma_fundamental_div_mod_converse(m, 8, 16 + no - 1, nl - 1);
    assert((16 + no - 1) == 8 * 2 + (no - 1));
    vstd::arithmetic::div_mod::lemma_fundamental_div_mod_converse(16 + no - 1, 8, 2, no - 1);
    assert(s[0] == spec_marker_byte(no, nl));
    assert((s[0] / 8) % 8 + 1 == no);
    assert(s[0] % 8 + 1 == nl);

    assert(s.len() == 1 + no + nl);
    assert(s.subrange(1, 1 + no) =~= ob);
    assert(s.subrange(1 + no, s.len() as int) =~= lb);
    lemma_le_round_trip(offset as int, no as nat);
    lemma_le_round_trip(len as int, nl as nat);
}

} // verus!
