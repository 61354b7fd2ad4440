//! Small formatting helpers for the human-readable debug transcript:
//! decimal and binary renderings built byte by byte, and the one
//! conversion from ASCII bytes to a `String`.

use std::collections::VecDeque;

use vstd::prelude::*;

use crate::huffman::spec_byte_bit;

verus! {

/// The decimal digits of `n` as ASCII bytes, most significant first.
pub open spec fn spec_dec_bytes(n: int) -> Seq<u8>
    decreases n,
{
    if n < 0 {
        Seq::empty()
    } else if n < 10 {
        seq![(48 + n) as u8]
    } else {
        spec_dec_bytes(n / 10) + seq![(48 + n % 10) as u8]
    }
}

/// Appends the decimal digits of `n`, most significant first.
pub fn push_dec(n: u64, out: &mut Vec<u8>)
    ensures
        final(out)@ == old(out)@ + spec_dec_bytes(n as int),
    decreases n,
{
    if n < 10 {
        out.push(48 + (n as u8));
        proof {
            assert(old(out)@.push((48 + n as int) as u8) =~= old(out)@ + spec_dec_bytes(n as int));
        }
    } else {
        push_dec(n / 10, out);
        out.push(48 + ((n % 10) as u8));
        proof {
            assert((old(out)@ + spec_dec_bytes(n as int / 10)).push((48 + n as int % 10) as u8)
                =~= old(out)@ + spec_dec_bytes(n as int));
        }
    }
}

/// The eight bits of a byte as ASCII `0`/`1`, most significant first.
pub open spec fn spec_bin_bytes(b: u8) -> Seq<u8> {
    Seq::new(8, |k: int| if spec_byte_bit(b, k) {
        49u8
    } else {
        48u8
    })
}

/// Appends the eight binary digits of `b`, most significant first.
pub fn push_bin(b: u8, out: &mut Vec<u8>)
    ensures
        final(out)@ == old(out)@ + spec_bin_bytes(b),
{
    let mut k: usize = 0;
    while k < 8
        invariant
            k <= 8,
            out@ == old(out)@ + spec_bin_bytes(b).take(k as int),
        decreases 8 - k,
    {
        let w = crate::huffman::bit_weight_exec(k);
        let bit: u8 = if (b / w) % 2 == 1 {
            49
        } else {
            48
        };
        proof {
            assert(bit == spec_bin_bytes(b)[k as int]);
            assert((old(out)@ + spec_bin_bytes(b).take(k as int)).push(bit) =~= old(out)@
                + spec_bin_bytes(b).take(k as int + 1));
        }
        out.push(bit);
        k = k + 1;
    }
    proof {
        assert(spec_bin_bytes(b).take(8) =~= spec_bin_bytes(b));
    }
}

/// Appends `src[start..end]` to `out`.
pub fn push_range(out: &mut Vec<u8>, src: &Vec<u8>, start: usize, end: usize)
    requires
        start <= end <= src@.len(),
    ensures
        final(out)@ == old(out)@ + src@.subrange(start as int, end as int),
{
    let mut j: usize = start;
    while j < end
        invariant
            start <= j <= end <= src@.len(),
            out@ == old(out)@ + src@.subrange(start as int, j as int),
        decreases end - j,
    {
        out.push(src[j]);
        proof {
            assert((old(out)@ + src@.subrange(start as int, j as int)).push(src@[j as int])
                =~= old(out)@ + src@.subrange(start as int, j as int + 1));
        }
        j = j + 1;
    }
    proof {
        if start == end {
            assert(old(out)@ + src@.subrange(start as int, start as int) =~= old(out)@);
        }
    }
}

/// The decimal renderings of a run of bytes, joined by a comma and a
/// space, between square brackets.
pub open spec fn spec_byte_list_dec(s: Seq<u8>) -> Seq<u8>
    decreases s.len(),
{
    if s.len() == 0 {
        Seq::empty()
    } else if s.len() == 1 {
        spec_dec_bytes(s[0] as int)
    } else {
        spec_byte_list_dec(s.drop_last()) + seq![44u8, 32u8] + spec_dec_bytes(s.last() as int)
    }
}

/// Appends each byte in decimal, joined by ", ".
pub fn push_byte_list_dec(bytes: &Vec<u8>, out: &mut Vec<u8>)
    ensures
        final(out)@ == old(out)@ + spec_byte_list_dec(bytes@),
{
    let mut i: usize = 0;
    while i < bytes.len()
        invariant
            i <= bytes@.len(),
            out@ == old(out)@ + spec_byte_list_dec(bytes@.take(i as int)),
        decreases bytes@.len() - i,
    {
        if i > 0 {
            out.push(44);
            out.push(32);
        }
        push_dec(bytes[i] as u64, &mut *out);
        proof {
            let t = bytes@.take(i as int + 1);
            assert(t.drop_last() =~= bytes@.take(i as int));
            assert(t.last() == bytes@[i as int]);
            if i > 0 {
                assert(out@ =~= old(out)@ + (spec_byte_list_dec(bytes@.take(i as int)) + seq![
                    44u8,
                    32u8,
                ] + spec_dec_bytes(bytes@[i as int] as int)));
            } else {
                assert(t.len() == 1);
                assert(out@ =~= old(out)@ + spec_byte_list_dec(t));
            }
        }
        i = i + 1;
    }
    proof {
        assert(bytes@.take(bytes@.len() as int) =~= bytes@);
        if bytes@.len() == 0 {
            assert(old(out)@ + spec_byte_list_dec(bytes@) =~= old(out)@);
        }
    }
}

/// Every byte of the run is ASCII.
pub open spec fn all_ascii(s: Seq<u8>) -> bool {
    forall|i: int| 0 <= i < s.len() ==> #[trigger] s[i] < 128
}

/// ASCII runs concatenate to an ASCII run.
pub proof fn lemma_concat_ascii(a: Seq<u8>, b: Seq<u8>)
    requires
        all_ascii(a),
        all_ascii(b),
    ensures
        all_ascii(a + b),
{
    assert forall|i: int| 0 <= i < (a + b).len() implies #[trigger] (a + b)[i] < 128 by {
        if i < a.len() {
            assert((a + b)[i] == a[i]);
        } else {
            assert((a + b)[i] == b[i - a.len()]);
        }
    }
}

/// The binary digits of a byte are ASCII.
pub proof fn lemma_bin_bytes_ascii(b: u8)
    ensures
        all_ascii(spec_bin_bytes(b)),
{
    assert forall|i: int| 0 <= i < spec_bin_bytes(b).len() implies #[trigger] spec_bin_bytes(
        b,
    )[i] < 128 by {
        assert(spec_bin_bytes(b)[i] == 48 || spec_bin_bytes(b)[i] == 49);
    }
}

/// The decimal digits of a number are ASCII.
pub proof fn lemma_dec_ascii(n: int)
    ensures
        all_ascii(spec_dec_bytes(n)),
    decreases n,
{
    if n >= 10 {
        lemma_dec_ascii(n / 10);
        assert(0 <= n % 10 < 10);
        assert(all_ascii(seq![(48 + n % 10) as u8])) by {
            assert(seq![(48 + n % 10) as u8][0] < 128);
        }
        lemma_concat_ascii(spec_dec_bytes(n / 10), seq![(48 + n % 10) as u8]);
    } else if 0 <= n {
        assert(spec_dec_bytes(n) =~= seq![(48 + n) as u8]);
        assert(spec_dec_bytes(n)[0] < 128);
    }
}

/// The characters that a run of ASCII bytes spells.
pub open spec fn ascii_chars(s: Seq<u8>) -> Seq<char> {
    Seq::new(s.len(), |i: int| s[i] as char)
}

/// Relies on String::from_utf8: ASCII bytes are valid UTF-8 and decode
/// one character per byte.
#[verifier::external_body]
pub(crate) fn ascii_to_string(v: &Vec<u8>) -> (r: String)
    requires
        forall|i: int| 0 <= i < v@.len() ==> v@[i] < 128,
    ensures
        r@ == ascii_chars(v@),
{
    match String::from_utf8(v.clone()) {
        Ok(s) => s,
        Err(_) => String::new(),
    }
}

/// The binary renderings of a run of bytes, joined by a comma and a
/// space.
pub open spec fn spec_bytes_bin(s: Seq<u8>) -> Seq<u8>
    decreases s.len(),
{
    if s.len() == 0 {
        Seq::empty()
    } else if s.len() == 1 {
        spec_bin_bytes(s[0])
    } else {
        spec_bytes_bin(s.drop_last()) + seq![44u8, 32u8] + spec_bin_bytes(s.last())
    }
}

/// Every rendered byte is an ASCII digit, comma or space.
proof fn lemma_bin_ascii(s: Seq<u8>)
    ensures
        forall|i: int| 0 <= i < spec_bytes_bin(s).len() ==> #[trigger] spec_bytes_bin(s)[i] < 128,
    decreases s.len(),
{
    if s.len() == 1 {
        assert forall|i: int| 0 <= i < spec_bytes_bin(s).len() implies #[trigger] spec_bytes_bin(
            s,
        )[i] < 128 by {
            assert(spec_bytes_bin(s) == spec_bin_bytes(s[0]));
            assert(spec_bin_bytes(s[0])[i] == 48 || spec_bin_bytes(s[0])[i] == 49);
        }
    } else if s.len() > 1 {
        lemma_bin_ascii(s.drop_last());
        let pre = spec_bytes_bin(s.drop_last());
        let sep = seq![44u8, 32u8];
        let last = spec_bin_bytes(s.last());
        assert forall|i: int| 0 <= i < spec_bytes_bin(s).len() implies #[trigger] spec_bytes_bin(
            s,
        )[i] < 128 by {
            if i < pre.len() {
                assert(spec_bytes_bin(s)[i] == pre[i]);
            } else if i < pre.len() + 2 {
                assert(spec_bytes_bin(s)[i] == sep[i - pre.len()]);
            } else {
                assert(spec_bytes_bin(s)[i] == last[i - pre.len() - 2]);
                assert(last[i - pre.len() - 2] == 48 || last[i - pre.len() - 2] == 49);
            }
        }
    }
}

/// Renders each byte in binary, eight digits apiece, joined by ", ".
pub fn u8_iter_str(bytes: &Vec<u8>) -> (r: String)
    ensures
        r@ == ascii_chars(spec_bytes_bin(bytes@)),
{
    let mut out: Vec<u8> = Vec::new();
    let mut i: usize = 0;
    while i < bytes.len()
        invariant
            i <= bytes@.len(),
            out@ == spec_bytes_bin(bytes@.take(i as int)),
        decreases bytes@.len() - i,
    {
        if i > 0 {
            out.push(44);
            out.push(32);
        }
        push_bin(bytes[i], &mut out);
        proof {
            let t = bytes@.take(i as int + 1);
            assert(t.drop_last() =~= bytes@.take(i as int));
            assert(t.last() == bytes@[i as int]);
            if i > 0 {
                assert(spec_bytes_bin(bytes@.take(i as int)) + seq![44u8, 32u8] + spec_bin_bytes(
                    bytes@[i as int],
                ) =~= out@);
            } else {
                assert(t.len() == 1);
            }
        }
        i = i + 1;
    }
    proof {
        assert(bytes@.take(bytes@.len() as int) =~= bytes@);
        lemma_bin_ascii(bytes@);
    }
    ascii_to_string(&out)
}

/// Reads a decode window out as text. The window must hold ASCII bytes:
/// each one becomes the character it spells.
pub fn read_buffer_to_string(vec: &VecDeque<u8>) -> (r: String)
    requires
        forall|i: int| 0 <= i < vec@.len() ==> vec@[i] < 128,
    ensures
        r@ == ascii_chars(vec@),
{
    let mut v: Vec<u8> = Vec::new();
    let mut i: usize = 0;
    while i < vec.len()
        invariant
            i <= vec@.len(),
            v@ == vec@.take(i as int),
            forall|j: int| 0 <= j < vec@.len() ==> vec@[j] < 128,
        decreases vec@.len() - i,
    {
        v.push(vec[i]);
        proof {
            assert(vec@.take(i as int).push(vec@[i as int]) =~= vec@.take(i as int + 1));
        }
        i = i + 1;
    }
    proof {
        assert(vec@.take(vec@.len() as int) =~= vec@);
    }
    ascii_to_string(&v)
}

} // verus!
