//! The container's header: a two-byte big-endian total length, the
//! eight-byte big-endian lookback-window length, and the serialized
//! Huffman tree, written as a tagged preorder walk.

use vstd::prelude::*;

use crate::error::LizardError;
use crate::huffman::HuffmanTree;
use crate::offset_len::pow256;

verus! {

/// The `n` low bytes of `v`, most significant first.
pub open spec fn spec_be_bytes(v: int, n: nat) -> Seq<u8>
    decreases n,
{
    if n == 0 {
        Seq::empty()
    } else {
        spec_be_bytes(v / 256, (n - 1) as nat).push((v % 256) as u8)
    }
}

/// The value a big-endian byte string stands for.
pub open spec fn spec_be_value(s: Seq<u8>) -> int
    decreases s.len(),
{
    if s.len() == 0 {
        0
    } else {
        256 * spec_be_value(s.drop_last()) + s.last()
    }
}

/// `spec_be_bytes` yields exactly as many bytes as asked for.
pub proof fn lemma_be_bytes_len(v: int, n: nat)
    ensures
        spec_be_bytes(v, n).len() == n,
    decreases n,
{
    if n > 0 {
        lemma_be_bytes_len(v / 256, (n - 1) as nat);
    }
}

/// The value of a byte string fits in as many bytes as it has.
pub proof fn lemma_be_value_bound(s: Seq<u8>)
    ensures
        0 <= spec_be_value(s) < pow256(s.len()),
    decreases s.len(),
{
    if s.len() > 0 {
        lemma_be_value_bound(s.drop_last());
    }
}

/// Reading back the `n` low bytes of `v` gives `v` itself whenever `v`
/// fits in `n` bytes.
pub proof fn lemma_be_round_trip(v: int, n: nat)
    requires
        0 <= v < pow256(n),
    ensures
        spec_be_value(spec_be_bytes(v, n)) == v,
    decreases n,
{
    if n > 0 {
        let s = spec_be_bytes(v, n);
        lemma_be_bytes_len(v / 256, (n - 1) as nat);
        assert(s.drop_last() =~= spec_be_bytes(v / 256, (n - 1) as nat));
        vstd::arithmetic::div_mod::lemma_mod_pos_bound(v, 256);
        assert(v / 256 < pow256((n - 1) as nat)) by {
            vstd::arithmetic::div_mod::lemma_fundamental_div_mod(v, 256);
        };
        assert(v / 256 >= 0) by {
            vstd::arithmetic::div_mod::lemma_div_pos_is_pos(v, 256);
        };
        lemma_be_round_trip(v / 256, (n - 1) as nat);
        vstd::arithmetic::div_mod::lemma_fundamental_div_mod(v, 256);
    }
}

/// Appends the `n` low bytes of `v`, most significant first.
fn push_be(v: u64, n: usize, out: &mut Vec<u8>)
    requires
        n <= 8,
    ensures
        final(out)@ == old(out)@ + spec_be_bytes(v as int, n as nat),
{
    proof {
        crate::offset_len::lemma_pow256_values();
    }
    let mut i: usize = 0;
    while i < n
        invariant
            i <= n <= 8,
            out@ == old(out)@ + spec_be_bytes(v as int / pow256((n - i) as nat), i as nat),
        decreases n - i,
    {
        proof {
            crate::offset_len::lemma_pow256_values();
        }
        let p = pow256_exec(n - 1 - i);
        let byte = ((v / p) % 256) as u8;
        proof {
            let x = v as int / pow256((n - 1 - i) as nat);
            assert(pow256((n - i) as nat) == 256 * pow256((n - 1 - i) as nat));
            vstd::arithmetic::div_mod::lemma_div_denominator(
                v as int,
                pow256((n - 1 - i) as nat),
                256,
            );
            assert(x / 256 == v as int / pow256((n - i) as nat));
            assert(spec_be_bytes(x, (i + 1) as nat) == spec_be_bytes(x / 256, i as nat).push(
                (x % 256) as u8,
            ));
            assert(out@.push(byte) =~= old(out)@ + spec_be_bytes(x, (i + 1) as nat));
        }
        out.push(byte);
        i = i + 1;
    }
    proof {
        assert(pow256(0) == 1);
        assert(v as int / 1 == v as int);
    }
}

/// 256 to the `k`, as a run-time value.
fn pow256_exec(k: usize) -> (r: u64)
    requires
        k <= 7,
    ensures
        r as int == pow256(k as nat),
        r >= 1,
{
    proof {
        crate::offset_len::lemma_pow256_values();
    }
    if k == 0 {
        1
    } else if k == 1 {
        0x100
    } else if k == 2 {
        0x1_0000
    } else if k == 3 {
        0x100_0000
    } else if k == 4 {
        0x1_0000_0000
    } else if k == 5 {
        0x100_0000_0000
    } else if k == 6 {
        0x1_0000_0000_0000
    } else {
        0x100_0000_0000_0000
    }
}

/// The value of the big-endian bytes `bytes[start..end]`.
pub fn be_value_of(bytes: &Vec<u8>, start: usize, end: usize) -> (r: u64)
    requires
        start <= end <= bytes@.len(),
        end - start <= 8,
    ensures
        r == spec_be_value(bytes@.subrange(start as int, end as int)),
{
    proof {
        crate::offset_len::lemma_pow256_values();
        assert(bytes@.subrange(start as int, start as int) =~= Seq::<u8>::empty());
    }
    let mut result: u64 = 0;
    let mut j: usize = start;
    while j < end
        invariant
            start <= j <= end <= bytes@.len(),
            end - start <= 8,
            result == spec_be_value(bytes@.subrange(start as int, j as int)),
            result < pow256((j - start) as nat),
        decreases end - j,
    {
        proof {
            crate::offset_len::lemma_pow256_values();
            let s = bytes@.subrange(start as int, j as int + 1);
            assert(s.drop_last() =~= bytes@.subrange(start as int, j as int));
            assert(s.last() == bytes@[j as int]);
            lemma_be_value_bound(s);
        }
        result = result * 256 + (bytes[j] as u64);
        j = j + 1;
    }
    result
}

/// The tagged preorder byte form of a tree: a leaf is a 0 tag and its
/// byte, the end sentinel a lone 1 tag, an internal node a 2 tag
/// followed by both children.
pub open spec fn spec_tree_bytes(t: HuffmanTree) -> Seq<u8>
    decreases t,
{
    match t {
        HuffmanTree::Leaf(b) => seq![0u8, b],
        HuffmanTree::End => seq![1u8],
        HuffmanTree::Node(l, r) => seq![2u8] + spec_tree_bytes(*l) + spec_tree_bytes(*r),
    }
}

/// A serialized tree's length: one tag per node plus one byte per
/// byte-leaf.
pub proof fn lemma_tree_bytes_len(t: HuffmanTree)
    ensures
        spec_tree_bytes(t).len() == t.spec_size() + t.spec_leaf_total(),
    decreases t,
{
    match t {
        HuffmanTree::Node(l, r) => {
            lemma_tree_bytes_len(*l);
            lemma_tree_bytes_len(*r);
        },
        _ => {},
    }
}

/// One step of parsing a tree at `pos`, with explicit recursion fuel.
pub open spec fn spec_parse_fuel(s: Seq<u8>, pos: int, fuel: nat) -> Option<(HuffmanTree, int)>
    decreases fuel,
{
    if fuel == 0 || pos < 0 || pos >= s.len() {
        None
    } else if s[pos] == 0 {
        if pos + 1 < s.len() {
            Some((HuffmanTree::Leaf(s[pos + 1]), pos + 2))
        } else {
            None
        }
    } else if s[pos] == 1 {
        Some((HuffmanTree::End, pos + 1))
    } else if s[pos] == 2 {
        match spec_parse_fuel(s, pos + 1, (fuel - 1) as nat) {
            None => None,
            Some(lp) => match spec_parse_fuel(s, lp.1, (fuel - 1) as nat) {
                None => None,
                Some(rp) => Some((HuffmanTree::Node(Box::new(lp.0), Box::new(rp.0)), rp.1)),
            },
        }
    } else {
        None
    }
}

/// A parsed tree always consumes at least one byte and stays in bounds.
proof fn lemma_parse_bounds(s: Seq<u8>, pos: int, fuel: nat)
    ensures
        spec_parse_fuel(s, pos, fuel) is Some ==> pos < (spec_parse_fuel(s, pos, fuel)->0).1
            <= s.len(),
    decreases fuel,
{
    if fuel > 0 && 0 <= pos < s.len() && s[pos] == 2 {
        lemma_parse_bounds(s, pos + 1, (fuel - 1) as nat);
        match spec_parse_fuel(s, pos + 1, (fuel - 1) as nat) {
            Some(lp) => {
                lemma_parse_bounds(s, lp.1, (fuel - 1) as nat);
            },
            None => {},
        }
    }
}

/// Beyond the fuel a parse actually needs, more fuel changes nothing:
/// one unit per remaining byte always suffices.
proof fn lemma_parse_saturated(s: Seq<u8>, pos: int, fuel: nat)
    requires
        0 <= pos,
        fuel >= s.len() - pos,
    ensures
        spec_parse_fuel(s, pos, fuel) == spec_parse_fuel(s, pos, (s.len() - pos) as nat),
    decreases fuel,
{
    let base = (s.len() - pos) as nat;
    if pos >= s.len() || fuel == 0 {
    } else if s[pos] == 2 {
        lemma_parse_saturated(s, pos + 1, (fuel - 1) as nat);
        lemma_parse_saturated(s, pos + 1, (base - 1) as nat);
        match spec_parse_fuel(s, pos + 1, (fuel - 1) as nat) {
            Some(lp) => {
                lemma_parse_bounds(s, pos + 1, (fuel - 1) as nat);
                lemma_parse_saturated(s, lp.1, (fuel - 1) as nat);
                lemma_parse_saturated(s, lp.1, (base - 1) as nat);
            },
            None => {},
        }
    }
}

/// Parsing a tree at `pos` with fuel enough for the whole rest.
pub open spec fn spec_parse_at(s: Seq<u8>, pos: int) -> Option<(HuffmanTree, int)> {
    spec_parse_fuel(s, pos, if s.len() >= pos {
        (s.len() - pos) as nat
    } else {
        0
    })
}

/// A serialized tree planted anywhere in a byte string parses back to
/// the same tree, ending exactly at its own end.
pub proof fn lemma_tree_parse_round(t: HuffmanTree, s: Seq<u8>, pos: int)
    requires
        0 <= pos,
        pos + spec_tree_bytes(t).len() <= s.len(),
        s.subrange(pos, pos + spec_tree_bytes(t).len() as int) == spec_tree_bytes(t),
    ensures
        spec_parse_at(s, pos) == Some((t, pos + spec_tree_bytes(t).len() as int)),
    decreases t,
{
    let enc = spec_tree_bytes(t);
    match t {
        HuffmanTree::Leaf(b) => {
            assert(s[pos] == enc[0]);
            assert(s[pos + 1] == enc[1]);
        },
        HuffmanTree::End => {
            assert(s[pos] == enc[0]);
        },
        HuffmanTree::Node(l, r) => {
            let el = spec_tree_bytes(*l);
            let er = spec_tree_bytes(*r);
            assert(s[pos] == enc[0]);
            assert(s[pos] == 2);
            assert(s.subrange(pos + 1, pos + 1 + el.len() as int) =~= el) by {
                assert forall|i: int| 0 <= i < el.len() implies s.subrange(
                    pos + 1,
                    pos + 1 + el.len() as int,
                )[i] == el[i] by {
                    assert(s[pos + 1 + i] == enc[1 + i]);
                    assert(enc[1 + i] == el[i]);
                }
            }
            lemma_tree_parse_round(*l, s, pos + 1);
            let mid = pos + 1 + el.len() as int;
            assert(s.subrange(mid, mid + er.len() as int) =~= er) by {
                assert forall|i: int| 0 <= i < er.len() implies s.subrange(
                    mid,
                    mid + er.len() as int,
                )[i] == er[i] by {
                    assert(s[mid + i] == enc[1 + el.len() + i]);
                    assert(enc[1 + el.len() + i] == er[i]);
                }
            }
            lemma_tree_parse_round(*r, s, mid);
            // Align the fuels of the sub-parses with the outer parse.
            lemma_parse_saturated(s, pos + 1, (s.len() - pos - 1) as nat);
            lemma_parse_saturated(s, mid, (s.len() - pos - 1) as nat);
        },
    }
}

/// Writes the tagged preorder byte form of the tree.
fn tree_write(t: &HuffmanTree, out: &mut Vec<u8>)
    ensures
        final(out)@ == old(out)@ + spec_tree_bytes(*t),
    decreases t,
{
    match t {
        HuffmanTree::Leaf(b) => {
            out.push(0);
            out.push(*b);
            proof {
                assert(old(out)@.push(0u8).push(*b) =~= old(out)@ + spec_tree_bytes(*t));
            }
        },
        HuffmanTree::End => {
            out.push(1);
            proof {
                assert(old(out)@.push(1u8) =~= old(out)@ + spec_tree_bytes(*t));
            }
        },
        HuffmanTree::Node(l, r) => {
            out.push(2);
            tree_write(l, out);
            tree_write(r, out);
            proof {
                assert(old(out)@.push(2u8) =~= old(out)@ + seq![2u8]);
                assert(old(out)@ + seq![2u8] + spec_tree_bytes(**l) + spec_tree_bytes(**r)
                    =~= old(out)@ + spec_tree_bytes(*t));
            }
        },
    }
}

/// Parses one serialized tree starting at `pos`, returning it and the
/// position of the first byte after it.
fn parse_tree(bytes: &Vec<u8>, pos: usize) -> (r: Result<(HuffmanTree, usize), LizardError>)
    requires
        pos <= bytes@.len(),
    ensures
        match r {
            Ok(te) => spec_parse_at(bytes@, pos as int) == Some((te.0, te.1 as int)) && pos < te.1
                <= bytes@.len(),
            Err(e) => spec_parse_at(bytes@, pos as int) is None && e
                == LizardError::MalformedHeader,
        },
    decreases bytes@.len() - pos,
{
    if pos >= bytes.len() {
        return Err(LizardError::MalformedHeader);
    }
    let tag = bytes[pos];
    if tag == 0 {
        if pos + 1 < bytes.len() {
            Ok((HuffmanTree::Leaf(bytes[pos + 1]), pos + 2))
        } else {
            Err(LizardError::MalformedHeader)
        }
    } else if tag == 1 {
        Ok((HuffmanTree::End, pos + 1))
    } else if tag == 2 {
        proof {
            lemma_parse_saturated(bytes@, pos as int + 1, (bytes@.len() - pos - 1) as nat);
        }
        match parse_tree(bytes, pos + 1) {
            Err(e) => Err(e),
            Ok((left, p1)) => {
                proof {
                    lemma_parse_saturated(bytes@, p1 as int, (bytes@.len() - pos - 1) as nat);
                }
                match parse_tree(bytes, p1) {
                    Err(e) => Err(e),
                    Ok((right, p2)) => Ok(
                        (HuffmanTree::Node(Box::new(left), Box::new(right)), p2),
                    ),
                }
            },
        }
    } else {
        Err(LizardError::MalformedHeader)
    }
}

/// The tree to code with plus the lookback-window length the encoder
/// used: everything the decoder needs before the first record.
#[derive(Debug, PartialEq)]
pub struct Header {
    pub huffman_tree: HuffmanTree,
    pub lookback_buffer_len: u64,
}

/// The header's whole byte form: its own total length in two big-endian
/// bytes, the lookback length in eight, then the serialized tree.
pub open spec fn spec_header_bytes(h: Header) -> Seq<u8> {
    spec_be_bytes(10 + spec_tree_bytes(h.huffman_tree).len() as int, 2) + spec_be_bytes(
        h.lookback_buffer_len as int,
        8,
    ) + spec_tree_bytes(h.huffman_tree)
}

/// The header a byte string holds, when its declared length matches the
/// bytes at hand and the tree parses to exactly the last byte.
pub open spec fn spec_header_of_bytes(s: Seq<u8>) -> Option<Header> {
    if s.len() < 10 {
        None
    } else if spec_be_value(s.subrange(0, 2)) != s.len() {
        None
    } else {
        match spec_parse_at(s, 10) {
            None => None,
            Some(tp) => {
                if tp.1 == s.len() {
                    Some(
                        Header {
                            huffman_tree: tp.0,
                            lookback_buffer_len: spec_be_value(s.subrange(2, 10)) as u64,
                        },
                    )
                } else {
                    None
                }
            },
        }
    }
}

impl Header {
    pub fn new(huffman_tree: HuffmanTree, lookback_buffer_len: u64) -> (r: Self)
        ensures
            r.huffman_tree == huffman_tree,
            r.lookback_buffer_len == lookback_buffer_len,
    {
        Self { huffman_tree, lookback_buffer_len }
    }

    /// The header's byte form. Fails with `MalformedHeader` when the
    /// serialized tree is too large for the two-byte length prefix.
    pub fn to_bytes(&self) -> (r: Result<Vec<u8>, LizardError>)
        ensures
            match r {
                Ok(v) => v@ == spec_header_bytes(*self) && spec_tree_bytes(self.huffman_tree).len()
                    + 10 <= 0xffff,
                Err(e) => spec_tree_bytes(self.huffman_tree).len() + 10 > 0xffff && e
                    == LizardError::MalformedHeader,
            },
    {
        let mut tree_bytes = Vec::<u8>::new();
        tree_write(&self.huffman_tree, &mut tree_bytes);
        if tree_bytes.len() > 0xffff - 10 {
            return Err(LizardError::MalformedHeader);
        }
        let total: u64 = (tree_bytes.len() + 10) as u64;
        let mut output = Vec::<u8>::new();
        push_be(total, 2, &mut output);
        push_be(self.lookback_buffer_len, 8, &mut output);
        output.append(&mut tree_bytes);
        proof {
            assert(output@ =~= spec_header_bytes(*self));
        }
        Ok(output)
    }

    /// Rebuilds a header from its byte form. Fails with
    /// `MalformedHeader` when the declared length disagrees with the
    /// bytes at hand or the tree does not parse.
    pub fn from_bytes(bytes: &Vec<u8>) -> (r: Result<Self, LizardError>)
        ensures
            match r {
                Ok(h) => spec_header_of_bytes(bytes@) == Some(h),
                Err(e) => spec_header_of_bytes(bytes@) is None && e
                    == LizardError::MalformedHeader,
            },
    {
        if bytes.len() < 10 {
            return Err(LizardError::MalformedHeader);
        }
        let declared = be_value_of(bytes, 0, 2);
        if declared != bytes.len() as u64 {
            proof {
                lemma_be_value_bound(bytes@.subrange(0, 2));
            }
            return Err(LizardError::MalformedHeader);
        }
        let lookback_buffer_len = be_value_of(bytes, 2, 10);
        match parse_tree(bytes, 10) {
            Err(e) => Err(e),
            Ok((huffman_tree, end)) => {
                if end != bytes.len() {
                    Err(LizardError::MalformedHeader)
                } else {
                    Ok(Self { huffman_tree, lookback_buffer_len })
                }
            },
        }
    }
}

/// The header's debug transcript: the tree's node count, the lookback
/// length, and the tree drawn as a dot graph.
pub open spec fn spec_header_debug(h: Header) -> Seq<u8> {
    spec_header_debug_open() + crate::helpers::spec_dec_bytes(
        h.huffman_tree.spec_size_sat() as int,
    ) + spec_header_debug_mid() + crate::helpers::spec_dec_bytes(h.lookback_buffer_len as int)
        + spec_header_debug_dot() + crate::huffman::spec_to_dot(h.huffman_tree) + seq![10u8, 62u8]
}

/// The transcript piece before the graph: `, Tree dotgraph: ` and a
/// line break.
pub open spec fn spec_header_debug_dot() -> Seq<u8> {
    seq![
        44u8, 32u8, 84u8, 114u8, 101u8, 101u8, 32u8, 100u8, 111u8, 116u8, 103u8, 114u8, 97u8,
        112u8, 104u8, 58u8, 32u8, 10u8,
    ]
}

/// The opening of the header transcript: `<Header: Tree(size:`.
pub open spec fn spec_header_debug_open() -> Seq<u8> {
    seq![
        60u8, 72u8, 101u8, 97u8, 100u8, 101u8, 114u8, 58u8, 32u8, 84u8, 114u8, 101u8, 101u8, 40u8,
        115u8, 105u8, 122u8, 101u8, 58u8,
    ]
}

/// The middle of the header transcript: `), lookback buffer len: `.
pub open spec fn spec_header_debug_mid() -> Seq<u8> {
    seq![
        41u8, 44u8, 32u8, 108u8, 111u8, 111u8, 107u8, 98u8, 97u8, 99u8, 107u8, 32u8, 98u8, 117u8,
        102u8, 102u8, 101u8, 114u8, 32u8, 108u8, 101u8, 110u8, 58u8, 32u8,
    ]
}

impl Header {
    /// Renders the header for the debug transcript: the tree's node
    /// count, the configured lookback length, and the tree's dot graph.
    #[verifier::rlimit(100)]
    pub fn to_debug_bytes(&self) -> (r: Vec<u8>)
        ensures
            r@ == spec_header_debug(*self),
    {
        let mut s = Vec::<u8>::new();
        let ghost empty0 = s@;
        s.push(60);
        s.push(72);
        s.push(101);
        s.push(97);
        s.push(100);
        s.push(101);
        s.push(114);
        s.push(58);
        s.push(32);
        s.push(84);
        s.push(114);
        s.push(101);
        s.push(101);
        s.push(40);
        s.push(115);
        s.push(105);
        s.push(122);
        s.push(101);
        s.push(58);
        proof {
            assert(s@ =~= spec_header_debug_open());
        }
        crate::helpers::push_dec(self.huffman_tree.size_saturating(), &mut s);
        let ghost before_mid = s@;
        s.push(41);
        s.push(44);
        s.push(32);
        s.push(108);
        s.push(111);
        s.push(111);
        s.push(107);
        s.push(98);
        s.push(97);
        s.push(99);
        s.push(107);
        s.push(32);
        s.push(98);
        s.push(117);
        s.push(102);
        s.push(102);
        s.push(101);
        s.push(114);
        s.push(32);
        s.push(108);
        s.push(101);
        s.push(110);
        s.push(58);
        s.push(32);
        proof {
            assert(s@ =~= before_mid + spec_header_debug_mid());
        }
        crate::helpers::push_dec(self.lookback_buffer_len, &mut s);
        let ghost before_dot = s@;
        s.push(44);
        s.push(32);
        s.push(84);
        s.push(114);
        s.push(101);
        s.push(101);
        s.push(32);
        s.push(100);
        s.push(111);
        s.push(116);
        s.push(103);
        s.push(114);
        s.push(97);
        s.push(112);
        s.push(104);
        s.push(58);
        s.push(32);
        s.push(10);
        proof {
            assert(s@ =~= before_dot + spec_header_debug_dot());
        }
        let dot_bytes = self.huffman_tree.dot_bytes();
        crate::helpers::push_range(&mut s, &dot_bytes, 0, dot_bytes.len());
        proof {
            assert(dot_bytes@.subrange(0, dot_bytes@.len() as int) =~= dot_bytes@);
        }
        s.push(10);
        s.push(62);
        proof {
            assert(s@ =~= spec_header_debug(*self));
        }
        s
    }
}

/// Law: a header survives its byte form unchanged. Serializing any
/// header whose tree fits the two-byte length prefix and parsing the
/// result gives the header back.
pub proof fn lemma_header_round_trip(h: Header)
    requires
        spec_tree_bytes(h.huffman_tree).len() + 10 <= 0xffff,
    ensures
        spec_header_of_bytes(spec_header_bytes(h)) == Some(h),
{
    crate::offset_len::lemma_pow256_values();
    let enc = spec_tree_bytes(h.huffman_tree);
    let total = 10 + enc.len() as int;
    let s = spec_header_bytes(h);
    lemma_be_bytes_len(total, 2);
    lemma_be_bytes_len(h.lookback_buffer_len as int, 8);
    assert(s.len() == total);
    assert(s.subrange(0, 2) =~= spec_be_bytes(total, 2));
    lemma_be_round_trip(total, 2);
    assert(s.subrange(2, 10) =~= spec_be_bytes(h.lookback_buffer_len as int, 8));
    lemma_be_round_trip(h.lookback_buffer_len as int, 8);
    assert(s.subrange(10, 10 + enc.len() as int) =~= enc);
    lemma_tree_parse_round(h.huffman_tree, s, 10);
}

} // verus!
