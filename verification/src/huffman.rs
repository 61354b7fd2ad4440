//! The entropy-coding stage: a Huffman tree built from byte frequencies,
//! the byte-to-code map derived from it, and the bit packer and unpacker
//! that turn literal runs into packed bytes and back.

use vstd::arithmetic::div_mod::{
    lemma_div_denominator, lemma_div_pos_is_pos, lemma_fundamental_div_mod,
    lemma_fundamental_div_mod_converse, lemma_mod_pos_bound,
};
use vstd::arithmetic::power2::{
    lemma2_to64, lemma_pow2_adds, lemma_pow2_pos, lemma_pow2_strictly_increases,
    lemma_pow2_unfold, pow2,
};
use vstd::multiset::Multiset;
use vstd::prelude::*;

use crate::error::LizardError;
use crate::pqueue::{dpq_contents, dpq_len, dpq_new, dpq_pop_min, dpq_push};

verus! {

/// The frequency table an encode pass gathers: slot `b` counts how often
/// byte `b` occurred in the input.
pub type ByteStats = Vec<u64>;

/// Bit `k` of `v`, counting from the least significant end.
pub open spec fn u64_bit(v: u64, k: int) -> bool {
    (v as int / pow2(k as nat) as int) % 2 == 1
}

/// An encoded bit pattern of up to 64 bits. The low `bit_size` bits of
/// `set_bits` are the code, read most significant first.
#[derive(Debug, Clone, Copy, PartialEq, Eq, Hash, Structural)]
pub struct Bits {
    pub set_bits: u64,
    pub bit_size: usize,
}

impl Bits {
    /// The code as a sequence of bits, first-assigned bit first.
    pub open spec fn view(&self) -> Seq<bool> {
        Seq::new(self.bit_size as nat, |i: int| u64_bit(self.set_bits, self.bit_size - 1 - i))
    }

    /// No stray bits above the declared size.
    pub open spec fn wf(&self) -> bool {
        self.bit_size <= 64 && (self.set_bits as nat) < pow2(self.bit_size as nat)
    }

    /// The code one level deeper in the tree: a 0 appended for a left
    /// descent, a 1 for a right descent.
    pub fn clone_with_increase(&self, is_left: bool) -> (r: Self)
        requires
            self.wf(),
            self.bit_size < 64,
        ensures
            r.wf(),
            r.bit_size == self.bit_size + 1,
            r.view() == self.view().push(!is_left),
    {
        let one_or_zero: u64 = if is_left {
            0
        } else {
            1
        };
        proof {
            lemma_pow2_values();
            if self.bit_size < 63 {
                lemma_pow2_strictly_increases(self.bit_size as nat, 63);
            }
            lemma_pow2_unfold((self.bit_size + 1) as nat);
        }
        let new_set_bits: u64 = self.set_bits * 2 + one_or_zero;
        let r = Self { set_bits: new_set_bits, bit_size: self.bit_size + 1 };
        proof {
            lemma_shift_in(self.set_bits, one_or_zero);
            assert(r.view() =~= self.view().push(!is_left)) by {
                assert forall|i: int| 0 <= i < self.bit_size implies r.view()[i] == self.view()[i] by {
                    assert(u64_bit(new_set_bits, self.bit_size - i) == u64_bit(
                        self.set_bits,
                        self.bit_size - 1 - i,
                    ));
                }
                assert(u64_bit(new_set_bits, 0) == (one_or_zero == 1));
            }
        }
        r
    }
}

impl Default for Bits {
    /// The empty code at the root of the tree.
    fn default() -> (r: Self)
        ensures
            r.set_bits == 0,
            r.bit_size == 0,
            r.wf(),
            r.view() == Seq::<bool>::empty(),
    {
        proof {
            lemma_pow2_values();
            assert(Seq::new(0, |i: int| u64_bit(0, 0 - 1 - i)) =~= Seq::<bool>::empty());
        }
        Self { set_bits: 0, bit_size: 0 }
    }
}

impl From<(u8, usize)> for Bits {
    /// A code given directly as its low bits and their count.
    fn from(pair: (u8, usize)) -> (r: Self) {
        Self { set_bits: pair.0 as u64, bit_size: pair.1 }
    }
}

impl vstd::std_specs::convert::FromSpecImpl<(u8, usize)> for Bits {
    open spec fn obeys_from_spec() -> bool {
        true
    }

    open spec fn from_spec(t: (u8, usize)) -> Bits {
        Bits { set_bits: t.0 as u64, bit_size: t.1 }
    }
}

/// Appending a bit to a code shifts every earlier bit up one place.
proof fn lemma_shift_in(v: u64, b: u64)
    requires
        b <= 1,
        v < pow2(63),
    ensures
        u64_bit((2 * v + b) as u64, 0) == (b == 1),
        forall|k: int| 1 <= k <= 63 ==> #[trigger] u64_bit((2 * v + b) as u64, k) == u64_bit(
            v,
            k - 1,
        ),
{
    lemma_pow2_values();
    assert((2 * v + b) as u64 == 2 * v + b);
    let w = (2 * v + b) as int;
    lemma_fundamental_div_mod_converse(w, 2, v as int, b as int);
    assert(w % 2 == b);
    assert(w / pow2(0) as int == w);
    assert(u64_bit((2 * v + b) as u64, 0) == (b == 1));
    assert forall|k: int| 1 <= k <= 63 implies #[trigger] u64_bit((2 * v + b) as u64, k)
        == u64_bit(v, k - 1) by {
        lemma_pow2_unfold(k as nat);
        lemma_pow2_pos((k - 1) as nat);
        let p = pow2((k - 1) as nat) as int;
        lemma_div_denominator(w, 2, p);
        assert(w / (2 * p) == (w / 2) / p);
        assert(w / 2 == v);
    }
}

/// The concrete values of small powers of two used throughout.
proof fn lemma_pow2_values()
    ensures
        pow2(0) == 1,
        pow2(1) == 2,
        pow2(2) == 4,
        pow2(3) == 8,
        pow2(4) == 16,
        pow2(5) == 32,
        pow2(6) == 64,
        pow2(7) == 128,
        pow2(8) == 256,
        pow2(63) == 0x8000_0000_0000_0000,
        pow2(64) == 0x1_0000_0000_0000_0000,
{
    lemma2_to64();
    vstd::arithmetic::power2::lemma2_to64_rest();
}

/// A node of the prefix-code tree: a literal byte, the reserved
/// end-of-block sentinel, or an internal fork.
#[derive(Debug, PartialEq)]
pub enum HuffmanTree {
    Leaf(u8),
    End,
    Node(Box<HuffmanTree>, Box<HuffmanTree>),
}

impl HuffmanTree {
    /// Edges on the longest root-to-leaf path; also the longest code length.
    pub open spec fn spec_height(&self) -> nat
        decreases self,
    {
        match self {
            HuffmanTree::Leaf(_) => 0,
            HuffmanTree::End => 0,
            HuffmanTree::Node(l, r) => 1 + vstd::math::max(
                l.spec_height() as int,
                r.spec_height() as int,
            ) as nat,
        }
    }

    /// Total node count, internal nodes and leaves alike.
    pub open spec fn spec_size(&self) -> nat
        decreases self,
    {
        match self {
            HuffmanTree::Leaf(_) => 1,
            HuffmanTree::End => 1,
            HuffmanTree::Node(l, r) => 1 + l.spec_size() + r.spec_size(),
        }
    }

    /// Does some leaf carry the byte `b`?
    pub open spec fn spec_has_leaf(&self, b: u8) -> bool
        decreases self,
    {
        match self {
            HuffmanTree::Leaf(v) => v == b,
            HuffmanTree::End => false,
            HuffmanTree::Node(l, r) => l.spec_has_leaf(b) || r.spec_has_leaf(b),
        }
    }

    /// How many end-of-block sentinel leaves the tree holds.
    pub open spec fn spec_end_count(&self) -> nat
        decreases self,
    {
        match self {
            HuffmanTree::Leaf(_) => 0,
            HuffmanTree::End => 1,
            HuffmanTree::Node(l, r) => l.spec_end_count() + r.spec_end_count(),
        }
    }

    /// How many leaves carry the byte `b`.
    pub open spec fn spec_leaf_count(&self, b: u8) -> nat
        decreases self,
    {
        match self {
            HuffmanTree::Leaf(v) => if v == b {
                1nat
            } else {
                0
            },
            HuffmanTree::End => 0,
            HuffmanTree::Node(l, r) => l.spec_leaf_count(b) + r.spec_leaf_count(b),
        }
    }

    /// How many byte leaves the tree holds in all.
    pub open spec fn spec_leaf_total(&self) -> nat
        decreases self,
    {
        match self {
            HuffmanTree::Leaf(_) => 1,
            HuffmanTree::End => 0,
            HuffmanTree::Node(l, r) => l.spec_leaf_total() + r.spec_leaf_total(),
        }
    }

    /// Does the end-of-block sentinel occur somewhere below?
    pub open spec fn spec_has_end(&self) -> bool
        decreases self,
    {
        match self {
            HuffmanTree::Leaf(_) => false,
            HuffmanTree::End => true,
            HuffmanTree::Node(l, r) => l.spec_has_end() || r.spec_has_end(),
        }
    }

    /// Total node count, internal nodes and leaves alike.
    pub fn size(&self) -> (r: usize)
        requires
            self.spec_size() <= usize::MAX,
        ensures
            r == self.spec_size(),
        decreases self,
    {
        match self {
            HuffmanTree::Leaf(_) => 1,
            HuffmanTree::End => 1,
            HuffmanTree::Node(l, r) => {
                let left_size = l.size();
                1 + left_size + r.size()
            },
        }
    }

    /// Total node count, capped at the largest `u64`: the transcript's
    /// tree-size note for trees of any size.
    pub open spec fn spec_size_sat(&self) -> nat {
        if self.spec_size() > u64::MAX {
            u64::MAX as nat
        } else {
            self.spec_size()
        }
    }

    /// Counts nodes without overflowing, stopping the count at the
    /// largest `u64`.
    pub fn size_saturating(&self) -> (r: u64)
        ensures
            r == self.spec_size_sat(),
        decreases self,
    {
        match self {
            HuffmanTree::Leaf(_) => 1,
            HuffmanTree::End => 1,
            HuffmanTree::Node(l, r) => {
                let a = l.size_saturating();
                let b = r.size_saturating();
                let sum = match a.checked_add(b) {
                    Some(s) => s,
                    None => u64::MAX,
                };
                match sum.checked_add(1) {
                    Some(s) => s,
                    None => u64::MAX,
                }
            },
        }
    }

    /// Is every root-to-leaf path at most `limit` edges long?
    pub fn height_le(&self, limit: u64) -> (r: bool)
        ensures
            r == (self.spec_height() <= limit),
        decreases self,
    {
        match self {
            HuffmanTree::Leaf(_) => true,
            HuffmanTree::End => true,
            HuffmanTree::Node(l, r) => limit > 0 && l.height_le(limit - 1) && r.height_le(
                limit - 1,
            ),
        }
    }

    /// A structural deep copy.
    pub fn duplicate(&self) -> (r: Self)
        ensures
            r == *self,
        decreases self,
    {
        match self {
            HuffmanTree::Leaf(v) => HuffmanTree::Leaf(*v),
            HuffmanTree::End => HuffmanTree::End,
            HuffmanTree::Node(l, r) => HuffmanTree::Node(
                Box::new(l.duplicate()),
                Box::new(r.duplicate()),
            ),
        }
    }
}

/// A symbol the tree can encode: a literal byte or the end-of-block mark.
pub enum TreeSymbol {
    Byte(u8),
    EndOfBlock,
}

/// `bits` is exactly a root-to-leaf path in `t` ending at `sym`:
/// 0 descends left, 1 descends right.
pub open spec fn leads_to(t: HuffmanTree, bits: Seq<bool>, sym: TreeSymbol) -> bool
    decreases t,
{
    match t {
        HuffmanTree::Leaf(v) => bits.len() == 0 && sym == TreeSymbol::Byte(v),
        HuffmanTree::End => bits.len() == 0 && sym == TreeSymbol::EndOfBlock,
        HuffmanTree::Node(l, r) => bits.len() > 0 && if bits[0] {
            leads_to(*r, bits.drop_first(), sym)
        } else {
            leads_to(*l, bits.drop_first(), sym)
        },
    }
}

/// Following `path` from `t` arrives at the subtree `sub`.
pub open spec fn reaches(t: HuffmanTree, path: Seq<bool>, sub: HuffmanTree) -> bool
    decreases path.len(),
{
    if path.len() == 0 {
        t == sub
    } else {
        match t {
            HuffmanTree::Node(l, r) => {
                if path[0] {
                    reaches(*r, path.drop_first(), sub)
                } else {
                    reaches(*l, path.drop_first(), sub)
                }
            },
            _ => false,
        }
    }
}

/// A path to a subtree followed by a path within it is a path in the whole.
proof fn lemma_reaches_leads_to(t: HuffmanTree, path: Seq<bool>, sub: HuffmanTree, q: Seq<bool>, sym: TreeSymbol)
    requires
        reaches(t, path, sub),
        leads_to(sub, q, sym),
    ensures
        leads_to(t, path + q, sym),
    decreases path.len(),
{
    if path.len() == 0 {
        assert(path + q =~= q);
    } else {
        match t {
            HuffmanTree::Node(l, r) => {
                assert((path + q).drop_first() =~= path.drop_first() + q);
                if path[0] {
                    lemma_reaches_leads_to(*r, path.drop_first(), sub, q, sym);
                } else {
                    lemma_reaches_leads_to(*l, path.drop_first(), sub, q, sym);
                }
            },
            _ => {
                assert(false);
            },
        }
    }
}

/// One more step down extends a path to a subtree.
proof fn lemma_reaches_step(t: HuffmanTree, path: Seq<bool>, l: HuffmanTree, r: HuffmanTree, right: bool)
    requires
        reaches(t, path, HuffmanTree::Node(Box::new(l), Box::new(r))),
    ensures
        reaches(t, path.push(right), if right { r } else { l }),
    decreases path.len(),
{
    if path.len() == 0 {
        let stepped = path.push(right);
        assert(stepped.len() == 1 && stepped[0] == right);
        assert(stepped.drop_first() =~= Seq::<bool>::empty());
        let sub = if right {
            r
        } else {
            l
        };
        assert(reaches(sub, stepped.drop_first(), sub));
        assert(t == HuffmanTree::Node(Box::new(l), Box::new(r)));
    } else {
        match t {
            HuffmanTree::Node(tl, tr) => {
                assert(path.push(right).drop_first() =~= path.drop_first().push(right));
                if path[0] {
                    lemma_reaches_step(*tr, path.drop_first(), l, r, right);
                } else {
                    lemma_reaches_step(*tl, path.drop_first(), l, r, right);
                }
            },
            _ => {
                assert(false);
            },
        }
    }
}

/// The byte-to-code assignment read off a tree, plus the distinguished
/// code of the end-of-block sentinel. Slot `b` of `codes` holds byte
/// `b`'s code, or nothing where the tree has no such leaf.
#[derive(Debug)]
pub struct CodeMap {
    pub codes: Vec<Option<Bits>>,
    pub end_code: Bits,
}

impl CodeMap {
    /// One slot for each of the 256 byte values.
    pub open spec fn wf(&self) -> bool {
        &&& self.codes@.len() == 256
        &&& forall|b: int|
            0 <= b < 256 && self.codes@[b] is Some ==> (#[trigger] self.codes@[b])->0.wf()
        &&& self.end_code.wf()
    }

    /// Every code in the map is a path in `t` to its own byte, and the
    /// end code is a path to the sentinel.
    pub open spec fn consistent_with(&self, t: HuffmanTree) -> bool {
        &&& forall|b: int|
            0 <= b < 256 && self.codes@[b] is Some ==> leads_to(
                t,
                (#[trigger] self.codes@[b])->0.view(),
                TreeSymbol::Byte(b as u8),
            )
        &&& leads_to(t, self.end_code.view(), TreeSymbol::EndOfBlock)
    }

    pub fn new(codes: Vec<Option<Bits>>, end_code: Bits) -> (r: Self)
        ensures
            r.codes == codes,
            r.end_code == end_code,
    {
        Self { codes, end_code }
    }
}

/// Depth-first walk that assigns each leaf the code spelled by the path
/// to it: 0 for each left descent, 1 for each right descent.
fn assign_codes(
    root: Ghost<HuffmanTree>,
    bits: Bits,
    node: &HuffmanTree,
    code_map: &mut Vec<Option<Bits>>,
    end_code: &mut Option<Bits>,
)
    requires
        old(code_map)@.len() == 256,
        bits.wf(),
        bits.bit_size + node.spec_height() <= 64,
        root@ is Node ==> bits.bit_size as int + node.spec_height() <= 64,
        reaches(root@, bits.view(), *node),
        forall|b: int|
            0 <= b < 256 && old(code_map)@[b] is Some ==> (#[trigger] old(code_map)@[b])->0.wf()
                && leads_to(root@, old(code_map)@[b]->0.view(), TreeSymbol::Byte(b as u8)),
        (*old(end_code)) is Some ==> (*old(end_code))->0.wf() && leads_to(
            root@,
            (*old(end_code))->0.view(),
            TreeSymbol::EndOfBlock,
        ),
    ensures
        final(code_map)@.len() == 256,
        forall|b: int|
            0 <= b < 256 && final(code_map)@[b] is Some ==> (#[trigger] final(code_map)@[b])->0.wf()
                && leads_to(root@, final(code_map)@[b]->0.view(), TreeSymbol::Byte(b as u8)),
        (*final(end_code)) is Some ==> (*final(end_code))->0.wf() && leads_to(
            root@,
            (*final(end_code))->0.view(),
            TreeSymbol::EndOfBlock,
        ),
        forall|b: int| 0 <= b < 256 && old(code_map)@[b] is Some ==> final(code_map)@[b] is Some,
        (*old(end_code)) is Some ==> (*final(end_code)) is Some,
        forall|b: u8| node.spec_has_leaf(b) ==> final(code_map)@[b as int] is Some,
        node.spec_has_end() ==> (*final(end_code)) is Some,
    decreases node,
{
    match node {
        HuffmanTree::Leaf(v) => {
            proof {
                lemma_reaches_leads_to(
                    root@,
                    bits.view(),
                    *node,
                    Seq::empty(),
                    TreeSymbol::Byte(*v),
                );
                assert(bits.view() + Seq::<bool>::empty() =~= bits.view());
            }
            code_map.set(*v as usize, Some(bits));
            proof {
                assert forall|b: u8| node.spec_has_leaf(b) implies code_map@[b as int] is Some by {
                    assert(b == *v);
                }
            }
        },
        HuffmanTree::End => {
            proof {
                lemma_reaches_leads_to(
                    root@,
                    bits.view(),
                    *node,
                    Seq::empty(),
                    TreeSymbol::EndOfBlock,
                );
                assert(bits.view() + Seq::<bool>::empty() =~= bits.view());
            }
            *end_code = Some(bits);
        },
        HuffmanTree::Node(l, r) => {
            let left_bits = bits.clone_with_increase(true);
            let right_bits = bits.clone_with_increase(false);
            proof {
                assert(*node == HuffmanTree::Node(Box::new(**l), Box::new(**r)));
                lemma_reaches_step(root@, bits.view(), **l, **r, false);
                lemma_reaches_step(root@, bits.view(), **l, **r, true);
            }
            assign_codes(root, left_bits, l, code_map, end_code);
            let ghost mid_map = code_map@;
            assign_codes(root, right_bits, r, code_map, end_code);
            proof {
                assert forall|b: u8| node.spec_has_leaf(b) implies code_map@[b as int] is Some by {
                    if l.spec_has_leaf(b) {
                        assert(mid_map[b as int] is Some);
                    } else {
                        assert(r.spec_has_leaf(b));
                    }
                }
            }
        },
    }
}

/// Derives the byte-to-code map of a tree: each code is the path to its
/// leaf, and the end-of-block sentinel's path becomes the end code.
///
/// The tree must hold an end sentinel (so an end code exists at all) and
/// be at most 64 levels deep, the most a 64-bit code can spell.
pub fn tree_to_code_map(tree: &HuffmanTree) -> (r: CodeMap)
    requires
        tree.spec_height() <= 64,
        tree.spec_has_end(),
    ensures
        r.wf(),
        r.consistent_with(*tree),
        forall|b: u8| tree.spec_has_leaf(b) ==> r.codes@[b as int] is Some,
{
    let mut codes: Vec<Option<Bits>> = Vec::new();
    let mut i: usize = 0;
    while i < 256
        invariant
            codes@.len() == i,
            i <= 256,
            forall|b: int| 0 <= b < i ==> codes@[b] is None,
        decreases 256 - i,
    {
        codes.push(None);
        i = i + 1;
    }
    let mut end_code: Option<Bits> = None;
    assign_codes(Ghost(*tree), Bits::default(), tree, &mut codes, &mut end_code);
    match end_code {
        Some(end) => CodeMap { codes, end_code: end },
        None => {
            proof {
                assert(false);
            }
            CodeMap { codes, end_code: Bits { set_bits: 0, bit_size: 0 } }
        },
    }
}

/// The place value of bit `k` within a byte, most significant first.
pub open spec fn bit_weight(k: int) -> u8 {
    if k == 0 {
        128
    } else if k == 1 {
        64
    } else if k == 2 {
        32
    } else if k == 3 {
        16
    } else if k == 4 {
        8
    } else if k == 5 {
        4
    } else if k == 6 {
        2
    } else {
        1
    }
}

/// Bit `k` of a byte, most significant first.
pub open spec fn spec_byte_bit(byte: u8, k: int) -> bool {
    (byte / bit_weight(k)) % 2 == 1
}

/// A byte string laid out as its bits, most significant bit of each
/// byte first.
pub open spec fn spec_bits_of_bytes(bytes: Seq<u8>) -> Seq<bool> {
    Seq::new(bytes.len() * 8, |i: int| spec_byte_bit(bytes[i / 8], i % 8))
}

/// 1 when bit `i` of the stream is set, 0 when clear or past the end.
pub open spec fn bit_in(bs: Seq<bool>, i: int) -> int {
    if 0 <= i < bs.len() && bs[i] {
        1
    } else {
        0
    }
}

/// The value of the first `k` of the eight bits starting at `start`,
/// in their byte place values.
pub open spec fn spec_byte_partial(bs: Seq<bool>, start: int, k: int) -> int
    decreases k,
{
    if k <= 0 {
        0
    } else {
        spec_byte_partial(bs, start, k - 1) + bit_weight(k - 1) * bit_in(bs, start + k - 1)
    }
}

/// The byte formed by the eight bits starting at `start`, bits past the
/// end of the stream reading as 0.
pub open spec fn spec_byte_of(bs: Seq<bool>, start: int) -> u8 {
    spec_byte_partial(bs, start, 8) as u8
}

/// A bit stream packed into bytes, the last byte zero-padded.
pub open spec fn spec_bytes_of_bits(bs: Seq<bool>) -> Seq<u8> {
    Seq::new(((bs.len() + 7) / 8) as nat, |j: int| spec_byte_of(bs, 8 * j))
}

/// The concatenation of the codes of all bytes of `input`, or nothing
/// when some byte has no code.
pub open spec fn spec_code_bits(cm: CodeMap, input: Seq<u8>) -> Option<Seq<bool>>
    decreases input.len(),
{
    if input.len() == 0 {
        Some(Seq::empty())
    } else {
        match cm.codes[input[0] as int] {
            None => None,
            Some(code) => match spec_code_bits(cm, input.drop_first()) {
                None => None,
                Some(rest) => Some(code.view() + rest),
            },
        }
    }
}

/// A run whose every byte has a code always concatenates to a code
/// string: nothing is missing.
pub proof fn lemma_code_bits_total(cm: CodeMap, s: Seq<u8>)
    requires
        forall|j: int| 0 <= j < s.len() ==> (#[trigger] cm.codes[s[j] as int]) is Some,
    ensures
        spec_code_bits(cm, s) is Some,
    decreases s.len(),
{
    if s.len() > 0 {
        assert(cm.codes[s[0] as int] is Some);
        assert forall|j: int|
            0 <= j < s.drop_first().len() implies (#[trigger] cm.codes[s.drop_first()[j] as int]) is Some by {
            assert(s.drop_first()[j] == s[j + 1]);
        }
        lemma_code_bits_total(cm, s.drop_first());
    }
}

/// What packing a literal run yields: every code in order, then the end
/// code if it fits in the residue of the last 64-bit accumulator, all
/// packed into bytes. Nothing when a byte has no code.
pub open spec fn spec_pack(cm: CodeMap, input: Seq<u8>) -> Option<Seq<u8>> {
    match spec_code_bits(cm, input) {
        None => None,
        Some(cb) => {
            let residue = if cb.len() % 64 == 0 {
                64int
            } else {
                64 - cb.len() % 64
            };
            let bs = if cm.end_code.view().len() <= residue {
                cb + cm.end_code.view()
            } else {
                cb
            };
            Some(spec_bytes_of_bits(bs))
        },
    }
}

/// Each bit place value is the matching power of two.
proof fn lemma_bit_weight_pow2()
    ensures
        forall|k: int| 0 <= k < 8 ==> #[trigger] bit_weight(k) == pow2((7 - k) as nat),
{
    lemma_pow2_values();
}

/// The running byte value stays below the part of the range its bits
/// can reach.
proof fn lemma_partial_bounds(bs: Seq<bool>, start: int, k: int)
    requires
        0 <= k <= 8,
    ensures
        0 <= spec_byte_partial(bs, start, k) <= 256 - pow2((8 - k) as nat),
    decreases k,
{
    lemma_pow2_values();
    if k > 0 {
        lemma_partial_bounds(bs, start, k - 1);
        lemma_bit_weight_pow2();
        assert(bit_weight(k - 1) == pow2((8 - k) as nat));
        assert(pow2((8 - k + 1) as nat) == 2 * pow2((8 - k) as nat)) by {
            lemma_pow2_unfold((9 - k) as nat);
        }
        let w = bit_weight(k - 1) as int;
        let b = bit_in(bs, start + k - 1);
        assert(b == 0 || b == 1);
        assert(w * b == if b == 1 { w } else { 0int });
    }
}

/// Bits past the end of the stream contribute nothing.
proof fn lemma_partial_padding(bs: Seq<bool>, start: int, k: int)
    requires
        0 <= k <= 8,
        start + k >= bs.len(),
    ensures
        spec_byte_partial(bs, start, 8) == spec_byte_partial(bs, start, k),
    decreases 8 - k,
{
    if k < 8 {
        lemma_partial_padding(bs, start, k + 1);
        assert(bit_in(bs, start + k) == 0);
    }
}

/// 2 to the `k`, as a run-time value.
fn pow2_u64(k: usize) -> (r: u64)
    requires
        k <= 63,
    ensures
        r as nat == pow2(k as nat),
        r >= 1,
{
    proof {
        lemma_pow2_values();
    }
    let mut r: u64 = 1;
    let mut i: usize = 0;
    while i < k
        invariant
            i <= k <= 63,
            r as nat == pow2(i as nat),
        decreases k - i,
    {
        proof {
            lemma_pow2_values();
            if i < 63 {
                lemma_pow2_strictly_increases(i as nat, 63);
            }
            lemma_pow2_unfold((i + 1) as nat);
        }
        r = r * 2;
        i = i + 1;
    }
    proof {
        lemma_pow2_pos(k as nat);
    }
    r
}

/// Appends the bits of one code, first-assigned bit first.
fn push_code_bits(bits: &mut Vec<bool>, code: &Bits)
    requires
        code.wf(),
    ensures
        final(bits)@ == old(bits)@ + code.view(),
{
    let mut k: usize = 0;
    while k < code.bit_size
        invariant
            k <= code.bit_size,
            code.wf(),
            bits@ == old(bits)@ + code.view().take(k as int),
        decreases code.bit_size - k,
    {
        let p = pow2_u64(code.bit_size - 1 - k);
        let bit = (code.set_bits / p) % 2 == 1;
        proof {
            assert(bit == code.view()[k as int]);
            assert(old(bits)@ + code.view().take(k as int + 1) =~= (old(bits)@ + code.view().take(
                k as int,
            )).push(code.view()[k as int]));
        }
        bits.push(bit);
        k = k + 1;
    }
    proof {
        assert(code.view().take(code.bit_size as int) =~= code.view());
    }
}

/// Packs the bit stream into bytes, eight bits to a byte, most
/// significant position first, the last byte zero-padded.
fn bits_to_bytes(bits: &Vec<bool>) -> (r: Vec<u8>)
    ensures
        r@ == spec_bytes_of_bits(bits@),
{
    let mut out: Vec<u8> = Vec::new();
    let mut acc: u8 = 0;
    let mut cnt: usize = 0;
    let mut i: usize = 0;
    proof {
        lemma_pow2_values();
    }
    while i < bits.len()
        invariant
            cnt < 8,
            i == 8 * out@.len() + cnt,
            i <= bits@.len(),
            forall|j: int| 0 <= j < out@.len() ==> out@[j] == spec_byte_of(bits@, 8 * j),
            (acc as int) * pow2((8 - cnt) as nat) as int == spec_byte_partial(
                bits@,
                8 * out@.len() as int,
                cnt as int,
            ),
            acc < pow2(cnt as nat),
        decreases bits@.len() - i,
    {
        let bit = bits[i];
        let ghost start = 8 * out@.len() as int;
        let ghost p7 = pow2((7 - cnt) as nat) as int;
        let ghost p8 = pow2((8 - cnt) as nat) as int;
        proof {
            lemma_pow2_values();
            lemma_pow2_strictly_increases(cnt as nat, 8);
            lemma_pow2_unfold((8 - cnt) as nat);
            lemma_pow2_unfold((cnt + 1) as nat);
            lemma_bit_weight_pow2();
            assert(bit_in(bits@, start + cnt) == if bit {
                1int
            } else {
                0int
            });
            assert(spec_byte_partial(bits@, start, cnt + 1) == spec_byte_partial(
                bits@,
                start,
                cnt as int,
            ) + p7 * bit_in(bits@, start + cnt));
            let b = if bit {
                1int
            } else {
                0int
            };
            assert((2 * (acc as int) + b) * p7 == (acc as int) * (2 * p7) + b * p7)
                by (nonlinear_arith);
            assert(p8 == 2 * p7);
        }
        let ghost acc0 = acc as int;
        acc = acc * 2 + (if bit {
            1
        } else {
            0
        });
        cnt = cnt + 1;
        i = i + 1;
        proof {
            let b = if bit {
                1int
            } else {
                0int
            };
            assert(acc as int == 2 * acc0 + b);
            assert(pow2((8 - cnt) as nat) as int == p7);
            assert((acc as int) * p7 == acc0 * p8 + b * p7) by (nonlinear_arith)
                requires
                    acc as int == 2 * acc0 + b,
                    p8 == 2 * p7,
            {}
            assert(acc0 * p8 == spec_byte_partial(bits@, start, cnt - 1));
            assert((acc as int) * p7 == spec_byte_partial(bits@, start, cnt as int));
        }
        if cnt == 8 {
            proof {
                assert((acc as int) * pow2(0) as nat as int == acc as int);
                lemma_partial_bounds(bits@, start, 8);
                assert(acc == spec_byte_of(bits@, start));
                assert forall|j: int| 0 <= j < out@.len() + 1 implies (out@.push(acc))[j]
                    == spec_byte_of(bits@, 8 * j) by {}
            }
            out.push(acc);
            acc = 0;
            cnt = 0;
            proof {
                assert(8 * out@.len() + cnt == i);
                assert(spec_byte_partial(bits@, 8 * out@.len() as int, 0) == 0);
            }
        } else {
            proof {
                assert(8 * out@.len() + cnt == i);
                assert((acc as int) * pow2((8 - cnt) as nat) as int == spec_byte_partial(
                    bits@,
                    8 * out@.len() as int,
                    cnt as int,
                ));
            }
        }
    }
    if cnt > 0 {
        let ghost start = 8 * out@.len() as int;
        let p = pow2_u64(8 - cnt);
        proof {
            lemma_pow2_values();
            lemma_pow2_adds(cnt as nat, (8 - cnt) as nat);
            lemma_partial_padding(bits@, start, cnt as int);
            lemma_partial_bounds(bits@, start, cnt as int);
            assert((acc as int) * (p as int) <= 255) by (nonlinear_arith)
                requires
                    0 <= acc,
                    0 <= p,
                    (acc as int) * (p as int) == spec_byte_partial(bits@, start, cnt as int),
                    spec_byte_partial(bits@, start, cnt as int) <= 255,
            {}
        }
        let shifted: u8 = acc * (p as u8);
        proof {
            assert(shifted == spec_byte_of(bits@, start));
        }
        out.push(shifted);
        proof {
            assert(out@.len() == (bits@.len() + 7) / 8);
        }
    }
    proof {
        assert(out@ =~= spec_bytes_of_bits(bits@));
    }
    out
}

/// Packs a run of literal bytes with the code map's codes, appends the
/// end-of-block code where it fits in the residue of the last 64-bit
/// accumulator, and emits the populated bytes.
///
/// Fails with `MissingCode` on a byte the map has no code for: the
/// model and the encoder disagree, which no input data should cause.
pub fn pack_to_u8(code_map: &CodeMap, input: &Vec<u8>) -> (r: Result<Vec<u8>, LizardError>)
    requires
        code_map.wf(),
    ensures
        match r {
            Ok(v) => spec_pack(*code_map, input@) == Some(v@),
            Err(e) => spec_pack(*code_map, input@) is None && e == LizardError::MissingCode,
        },
{
    let mut bits: Vec<bool> = Vec::new();
    let mut i: usize = 0;
    proof {
        assert(input@.skip(0) =~= input@);
        if spec_code_bits(*code_map, input@) is Some {
            assert(Seq::<bool>::empty() + spec_code_bits(*code_map, input@)->0 =~= spec_code_bits(
                *code_map,
                input@,
            )->0);
        }
    }
    while i < input.len()
        invariant
            i <= input@.len(),
            code_map.wf(),
            spec_code_bits(*code_map, input@.skip(i as int)) is Some ==> spec_code_bits(
                *code_map,
                input@,
            ) == Some(bits@ + spec_code_bits(*code_map, input@.skip(i as int))->0),
            spec_code_bits(*code_map, input@.skip(i as int)) is None ==> spec_code_bits(
                *code_map,
                input@,
            ) is None,
        decreases input@.len() - i,
    {
        let b = input[i];
        proof {
            assert(input@.skip(i as int).len() > 0);
            assert(input@.skip(i as int)[0] == input@[i as int]);
            assert(input@.skip(i as int).drop_first() =~= input@.skip(i as int + 1));
        }
        match code_map.codes[b as usize] {
            None => {
                proof {
                    assert(spec_code_bits(*code_map, input@.skip(i as int)) is None);
                }
                return Err(LizardError::MissingCode);
            },
            Some(code) => {
                proof {
                    assert(code_map.codes@[b as int] is Some);
                    assert(code.wf());
                }
                let ghost prev = bits@;
                push_code_bits(&mut bits, &code);
                proof {
                    if spec_code_bits(*code_map, input@.skip(i as int + 1)) is Some {
                        let rest = spec_code_bits(*code_map, input@.skip(i as int + 1))->0;
                        assert(spec_code_bits(*code_map, input@.skip(i as int)) == Some(
                            code.view() + rest,
                        ));
                        assert(bits@ + rest =~= prev + (code.view() + rest));
                    }
                }
            },
        }
        i = i + 1;
    }
    proof {
        assert(input@.skip(input@.len() as int) =~= Seq::<u8>::empty());
        let cb = spec_code_bits(*code_map, input@)->0;
        assert(bits@ + Seq::<bool>::empty() =~= bits@);
        assert(spec_code_bits(*code_map, input@) == Some(bits@));
    }
    let ghost cb = bits@;
    let total = bits.len();
    let rem = total % 64;
    let residue = if rem == 0 {
        64
    } else {
        64 - rem
    };
    if code_map.end_code.bit_size <= residue {
        push_code_bits(&mut bits, &code_map.end_code);
    }
    let out = bits_to_bytes(&bits);
    Ok(out)
}

/// The place value of bit `k` within a byte, as a run-time value.
pub(crate) fn bit_weight_exec(k: usize) -> (r: u8)
    requires
        k < 8,
    ensures
        r == bit_weight(k as int),
        r >= 1,
{
    if k == 0 {
        128
    } else if k == 1 {
        64
    } else if k == 2 {
        32
    } else if k == 3 {
        16
    } else if k == 4 {
        8
    } else if k == 5 {
        4
    } else if k == 6 {
        2
    } else {
        1
    }
}

/// A reader that hands out the bits of a byte string one at a time,
/// most significant bit of each byte first.
pub struct BitStream<'a> {
    pub bytes: &'a Vec<u8>,
    pub byte_idx: usize,
    pub bit_idx: usize,
}

impl<'a> BitStream<'a> {
    /// How many bits have been handed out so far.
    pub open spec fn consumed(&self) -> int {
        8 * self.byte_idx + self.bit_idx
    }

    /// The position always sits inside the stream or right at its end.
    pub open spec fn wf(&self) -> bool {
        &&& self.bit_idx < 8
        &&& self.byte_idx <= self.bytes@.len()
        &&& (self.byte_idx == self.bytes@.len() ==> self.bit_idx == 0)
    }

    pub fn new(bytes: &'a Vec<u8>) -> (r: Self)
        ensures
            r.bytes == bytes,
            r.consumed() == 0,
            r.wf(),
    {
        BitStream { bytes, byte_idx: 0, bit_idx: 0 }
    }

    /// The next bit of the stream, or nothing once every bit is read.
    pub fn next_bit(&mut self) -> (r: Option<bool>)
        requires
            old(self).wf(),
        ensures
            final(self).wf(),
            final(self).bytes == old(self).bytes,
            match r {
                Some(b) => old(self).consumed() < 8 * old(self).bytes@.len() && b
                    == spec_bits_of_bytes(old(self).bytes@)[old(self).consumed()]
                    && final(self).consumed() == old(self).consumed() + 1,
                None => old(self).consumed() == 8 * old(self).bytes@.len() && *final(self)
                    == *old(self),
            },
    {
        if self.byte_idx < self.bytes.len() {
            let byte = self.bytes[self.byte_idx];
            let w = bit_weight_exec(self.bit_idx);
            let bit = (byte / w) % 2 == 1;
            proof {
                let c = old(self).consumed();
                vstd::arithmetic::div_mod::lemma_fundamental_div_mod_converse(
                    c,
                    8,
                    self.byte_idx as int,
                    self.bit_idx as int,
                );
                assert(c / 8 == self.byte_idx && c % 8 == self.bit_idx);
                assert(spec_bits_of_bytes(self.bytes@)[c] == spec_byte_bit(
                    self.bytes@[self.byte_idx as int],
                    self.bit_idx as int,
                ));
            }
            self.bit_idx = self.bit_idx + 1;
            if self.bit_idx == 8 {
                self.bit_idx = 0;
                self.byte_idx = self.byte_idx + 1;
            }
            Some(bit)
        } else {
            None
        }
    }
}

/// The walk the unpacker takes: starting at `cur` inside the tree rooted
/// at `root`, each bit steps to a child; arriving at a leaf emits its
/// byte and restarts at the root; arriving at the end sentinel stops;
/// running out of bits stops.
pub open spec fn spec_unpack_rec(root: HuffmanTree, cur: HuffmanTree, bits: Seq<bool>) -> Seq<u8>
    decreases bits.len(),
{
    if bits.len() == 0 {
        Seq::empty()
    } else {
        match cur {
            HuffmanTree::Node(l, r) => {
                let child = if bits[0] {
                    *r
                } else {
                    *l
                };
                match child {
                    HuffmanTree::Leaf(b) => seq![b] + spec_unpack_rec(
                        root,
                        root,
                        bits.drop_first(),
                    ),
                    HuffmanTree::End => Seq::empty(),
                    HuffmanTree::Node(_, _) => spec_unpack_rec(root, child, bits.drop_first()),
                }
            },
            _ => Seq::empty(),
        }
    }
}

/// What unpacking a bit stream against a tree yields.
pub open spec fn spec_unpack(bits: Seq<bool>, t: HuffmanTree) -> Seq<u8> {
    if t is Node {
        spec_unpack_rec(t, t, bits)
    } else {
        Seq::empty()
    }
}

/// Walks the tree bit by bit, emitting a byte at each leaf, until the
/// end-of-block sentinel is reached or the bits run out.
///
/// The root must be an internal node: a tree of a single leaf spells no
/// step to take.
pub fn unpack_bytes(input_bytes: &Vec<u8>, tree: &HuffmanTree) -> (r: Vec<u8>)
    requires
        *tree is Node,
    ensures
        r@ == spec_unpack(spec_bits_of_bytes(input_bytes@), *tree),
{
    let ghost all_bits = spec_bits_of_bytes(input_bytes@);
    let mut output: Vec<u8> = Vec::new();
    let mut stream = BitStream::new(input_bytes);
    let mut current: &HuffmanTree = tree;
    proof {
        assert(all_bits.skip(0) =~= all_bits);
    }
    loop
        invariant_except_break
            stream.wf(),
            stream.bytes == input_bytes,
            *current is Node,
            0 <= stream.consumed() <= all_bits.len(),
            all_bits == spec_bits_of_bytes(input_bytes@),
            output@ + spec_unpack_rec(*tree, *current, all_bits.skip(stream.consumed()))
                == spec_unpack_rec(*tree, *tree, all_bits),
        ensures
            output@ == spec_unpack_rec(*tree, *tree, all_bits),
        decreases 8 * input_bytes@.len() - stream.consumed(),
    {
        let ghost before = stream.consumed();
        match stream.next_bit() {
            None => {
                proof {
                    assert(all_bits.skip(before) =~= Seq::<bool>::empty());
                    assert(output@ + Seq::<u8>::empty() =~= output@);
                }
                break ;
            },
            Some(bit) => {
                proof {
                    let rem = all_bits.skip(before);
                    assert(rem.len() > 0);
                    assert(rem[0] == all_bits[before]);
                    assert(all_bits[before] == bit);
                    assert(rem.drop_first() =~= all_bits.skip(before + 1));
                }
                match current {
                    HuffmanTree::Node(l, r) => {
                        let child: &HuffmanTree = if bit {
                            r
                        } else {
                            l
                        };
                        match child {
                            HuffmanTree::Leaf(v) => {
                                proof {
                                    let rem = all_bits.skip(before);
                                    assert(output@.push(*v) + spec_unpack_rec(
                                        *tree,
                                        *tree,
                                        rem.drop_first(),
                                    ) =~= output@ + (seq![*v] + spec_unpack_rec(
                                        *tree,
                                        *tree,
                                        rem.drop_first(),
                                    )));
                                }
                                output.push(*v);
                                current = tree;
                            },
                            HuffmanTree::End => {
                                proof {
                                    assert(output@ + Seq::<u8>::empty() =~= output@);
                                }
                                break ;
                            },
                            HuffmanTree::Node(_, _) => {
                                current = child;
                            },
                        }
                    },
                    _ => {
                        proof {
                            assert(false);
                        }
                        break ;
                    },
                }
            },
        }
    }
    proof {
        assert(output@ == spec_unpack(spec_bits_of_bytes(input_bytes@), *tree));
    }
    output
}

/// The running byte value written out as the sum of its bit place values.
proof fn lemma_partial_expand(bs: Seq<bool>, start: int)
    ensures
        spec_byte_partial(bs, start, 8) == 128 * bit_in(bs, start) + 64 * bit_in(bs, start + 1)
            + 32 * bit_in(bs, start + 2) + 16 * bit_in(bs, start + 3) + 8 * bit_in(bs, start + 4)
            + 4 * bit_in(bs, start + 5) + 2 * bit_in(bs, start + 6) + bit_in(bs, start + 7),
{
    assert(spec_byte_partial(bs, start, 0) == 0);
    assert(spec_byte_partial(bs, start, 1) == spec_byte_partial(bs, start, 0) + 128 * bit_in(
        bs,
        start,
    ));
    assert(spec_byte_partial(bs, start, 2) == spec_byte_partial(bs, start, 1) + 64 * bit_in(
        bs,
        start + 1,
    ));
    assert(spec_byte_partial(bs, start, 3) == spec_byte_partial(bs, start, 2) + 32 * bit_in(
        bs,
        start + 2,
    ));
    assert(spec_byte_partial(bs, start, 4) == spec_byte_partial(bs, start, 3) + 16 * bit_in(
        bs,
        start + 3,
    ));
    assert(spec_byte_partial(bs, start, 5) == spec_byte_partial(bs, start, 4) + 8 * bit_in(
        bs,
        start + 4,
    ));
    assert(spec_byte_partial(bs, start, 6) == spec_byte_partial(bs, start, 5) + 4 * bit_in(
        bs,
        start + 5,
    ));
    assert(spec_byte_partial(bs, start, 7) == spec_byte_partial(bs, start, 6) + 2 * bit_in(
        bs,
        start + 6,
    ));
    assert(spec_byte_partial(bs, start, 8) == spec_byte_partial(bs, start, 7) + 1 * bit_in(
        bs,
        start + 7,
    ));
}

/// Reading a bit back out of the byte its stretch of the stream was
/// packed into gives the original bit; bits past the end read as 0.
#[verifier::rlimit(60)]
proof fn lemma_byte_extract(bs: Seq<bool>, start: int)
    ensures
        forall|k: int|
            0 <= k < 8 ==> #[trigger] spec_byte_bit(spec_byte_of(bs, start), k) == (bit_in(
                bs,
                start + k,
            ) == 1),
{
    lemma_partial_expand(bs, start);
    lemma_partial_bounds(bs, start, 8);
    let b0 = bit_in(bs, start);
    let b1 = bit_in(bs, start + 1);
    let b2 = bit_in(bs, start + 2);
    let b3 = bit_in(bs, start + 3);
    let b4 = bit_in(bs, start + 4);
    let b5 = bit_in(bs, start + 5);
    let b6 = bit_in(bs, start + 6);
    let b7 = bit_in(bs, start + 7);
    let v = spec_byte_partial(bs, start, 8);
    let byte = spec_byte_of(bs, start);
    assert(byte == v);
    lemma_fundamental_div_mod_converse(
        v,
        128,
        b0,
        64 * b1 + 32 * b2 + 16 * b3 + 8 * b4 + 4 * b5 + 2 * b6 + b7,
    );
    lemma_fundamental_div_mod_converse(
        v,
        64,
        2 * b0 + b1,
        32 * b2 + 16 * b3 + 8 * b4 + 4 * b5 + 2 * b6 + b7,
    );
    lemma_fundamental_div_mod_converse(
        v,
        32,
        4 * b0 + 2 * b1 + b2,
        16 * b3 + 8 * b4 + 4 * b5 + 2 * b6 + b7,
    );
    lemma_fundamental_div_mod_converse(
        v,
        16,
        8 * b0 + 4 * b1 + 2 * b2 + b3,
        8 * b4 + 4 * b5 + 2 * b6 + b7,
    );
    lemma_fundamental_div_mod_converse(
        v,
        8,
        16 * b0 + 8 * b1 + 4 * b2 + 2 * b3 + b4,
        4 * b5 + 2 * b6 + b7,
    );
    lemma_fundamental_div_mod_converse(
        v,
        4,
        32 * b0 + 16 * b1 + 8 * b2 + 4 * b3 + 2 * b4 + b5,
        2 * b6 + b7,
    );
    lemma_fundamental_div_mod_converse(
        v,
        2,
        64 * b0 + 32 * b1 + 16 * b2 + 8 * b3 + 4 * b4 + 2 * b5 + b6,
        b7,
    );
    lemma_fundamental_div_mod_converse(b0, 2, 0, b0);
    lemma_fundamental_div_mod_converse(2 * b0 + b1, 2, b0, b1);
    lemma_fundamental_div_mod_converse(4 * b0 + 2 * b1 + b2, 2, 2 * b0 + b1, b2);
    lemma_fundamental_div_mod_converse(8 * b0 + 4 * b1 + 2 * b2 + b3, 2, 4 * b0 + 2 * b1 + b2, b3);
    lemma_fundamental_div_mod_converse(
        16 * b0 + 8 * b1 + 4 * b2 + 2 * b3 + b4,
        2,
        8 * b0 + 4 * b1 + 2 * b2 + b3,
        b4,
    );
    lemma_fundamental_div_mod_converse(
        32 * b0 + 16 * b1 + 8 * b2 + 4 * b3 + 2 * b4 + b5,
        2,
        16 * b0 + 8 * b1 + 4 * b2 + 2 * b3 + b4,
        b5,
    );
    lemma_fundamental_div_mod_converse(
        64 * b0 + 32 * b1 + 16 * b2 + 8 * b3 + 4 * b4 + 2 * b5 + b6,
        2,
        32 * b0 + 16 * b1 + 8 * b2 + 4 * b3 + 2 * b4 + b5,
        b6,
    );
    lemma_fundamental_div_mod_converse(
        v,
        1,
        128 * b0 + 64 * b1 + 32 * b2 + 16 * b3 + 8 * b4 + 4 * b5 + 2 * b6 + b7,
        0,
    );
    lemma_fundamental_div_mod_converse(
        128 * b0 + 64 * b1 + 32 * b2 + 16 * b3 + 8 * b4 + 4 * b5 + 2 * b6 + b7,
        2,
        64 * b0 + 32 * b1 + 16 * b2 + 8 * b3 + 4 * b4 + 2 * b5 + b6,
        b7,
    );
    assert(spec_byte_bit(byte, 0) == (b0 == 1));
    assert(spec_byte_bit(byte, 1) == (b1 == 1));
    assert(spec_byte_bit(byte, 2) == (b2 == 1));
    assert(spec_byte_bit(byte, 3) == (b3 == 1));
    assert(spec_byte_bit(byte, 4) == (b4 == 1));
    assert(spec_byte_bit(byte, 5) == (b5 == 1));
    assert(spec_byte_bit(byte, 6) == (b6 == 1));
    assert(spec_byte_bit(byte, 7) == (b7 == 1));
}

/// Packing bits into bytes and reading the bytes back as bits gives the
/// original stream followed only by 0 padding, less than a byte of it.
proof fn lemma_bits_bytes_round(bs: Seq<bool>)
    ensures
        spec_bits_of_bytes(spec_bytes_of_bits(bs)).len() == 8 * ((bs.len() + 7) / 8),
        bs.len() <= spec_bits_of_bytes(spec_bytes_of_bits(bs)).len() < bs.len() + 8,
        spec_bits_of_bytes(spec_bytes_of_bits(bs)).take(bs.len() as int) == bs,
        forall|i: int|
            bs.len() <= i < spec_bits_of_bytes(spec_bytes_of_bits(bs)).len()
                ==> !(#[trigger] spec_bits_of_bytes(spec_bytes_of_bits(bs))[i]),
{
    let bytes = spec_bytes_of_bits(bs);
    let out = spec_bits_of_bytes(bytes);
    let n = bs.len() as int;
    lemma_fundamental_div_mod(n + 7, 8);
    assert(out.len() == 8 * ((n + 7) / 8));
    assert forall|i: int| 0 <= i < out.len() implies out[i] == (bit_in(bs, i) == 1) by {
        lemma_fundamental_div_mod(i, 8);
        lemma_div_pos_is_pos(i, 8);
        lemma_mod_pos_bound(i, 8);
        assert(bytes[i / 8] == spec_byte_of(bs, 8 * (i / 8)));
        lemma_byte_extract(bs, 8 * (i / 8));
        assert(spec_byte_bit(spec_byte_of(bs, 8 * (i / 8)), i % 8) == (bit_in(
            bs,
            8 * (i / 8) + i % 8,
        ) == 1));
        assert(8 * (i / 8) + i % 8 == i);
    }
    assert(out.take(n) =~= bs);
}

/// Following a code from inside the tree: the unpacker consumes exactly
/// that code, emits its byte and restarts at the root, or stops at the
/// end-of-block sentinel, whatever bits follow.
proof fn lemma_walk(
    root: HuffmanTree,
    cur: HuffmanTree,
    path: Seq<bool>,
    sym: TreeSymbol,
    rest: Seq<bool>,
)
    requires
        root is Node,
        cur is Node,
        leads_to(cur, path, sym),
    ensures
        match sym {
            TreeSymbol::Byte(b) => spec_unpack_rec(root, cur, path + rest) == seq![b]
                + spec_unpack_rec(root, root, rest),
            TreeSymbol::EndOfBlock => spec_unpack_rec(root, cur, path + rest)
                == Seq::<u8>::empty(),
        },
    decreases path.len(),
{
    let all = path + rest;
    assert(all.len() > 0);
    assert(all[0] == path[0]);
    match cur {
        HuffmanTree::Node(l, r) => {
            let child = if path[0] {
                *r
            } else {
                *l
            };
            assert(all.drop_first() =~= path.drop_first() + rest);
            assert(leads_to(child, path.drop_first(), sym));
            match child {
                HuffmanTree::Leaf(v) => {
                    assert(path.drop_first().len() == 0);
                    assert(path.drop_first() + rest =~= rest);
                },
                HuffmanTree::End => {
                    assert(path.drop_first().len() == 0);
                },
                HuffmanTree::Node(_, _) => {
                    lemma_walk(root, child, path.drop_first(), sym, rest);
                },
            }
        },
        _ => {
            assert(false);
        },
    }
}

/// Unpacking the codes of a literal run, then the end code, then any
/// trailing bits at all, gives the run back: the end code shields the
/// padding from being misread as data.
proof fn lemma_unpack_run(cm: CodeMap, t: HuffmanTree, input: Seq<u8>, extra: Seq<bool>)
    requires
        cm.wf(),
        cm.consistent_with(t),
        t is Node,
        spec_code_bits(cm, input) is Some,
    ensures
        spec_unpack_rec(t, t, spec_code_bits(cm, input)->0 + cm.end_code.view() + extra) == input,
    decreases input.len(),
{
    let cb = spec_code_bits(cm, input)->0;
    if input.len() == 0 {
        assert(cb + cm.end_code.view() + extra =~= cm.end_code.view() + extra);
        lemma_walk(t, t, cm.end_code.view(), TreeSymbol::EndOfBlock, extra);
    } else {
        let b0 = input[0];
        assert(cm.codes[b0 as int] is Some);
        let code0 = cm.codes[b0 as int]->0;
        let rest_cb = spec_code_bits(cm, input.drop_first())->0;
        assert(cb == code0.view() + rest_cb);
        assert(leads_to(t, code0.view(), TreeSymbol::Byte(b0)));
        lemma_unpack_run(cm, t, input.drop_first(), extra);
        let tail = rest_cb + cm.end_code.view() + extra;
        lemma_walk(t, t, code0.view(), TreeSymbol::Byte(b0), tail);
        assert(cb + cm.end_code.view() + extra =~= code0.view() + tail);
        assert(seq![b0] + input.drop_first() =~= input);
    }
}

/// Law: a Huffman-coded literal run survives the packer and unpacker
/// unchanged. For any code map read off a tree, packing a run of bytes
/// that all have codes and unpacking the result against the tree gives
/// the run back, provided the end-of-block code fits in the residue of
/// the last 64-bit accumulator (when it does not, the packer omits it
/// and zero padding may be misread as data).
pub proof fn lemma_huffman_round_trip(cm: CodeMap, t: HuffmanTree, input: Seq<u8>)
    requires
        cm.wf(),
        cm.consistent_with(t),
        t is Node,
        spec_code_bits(cm, input) is Some,
        cm.end_code.view().len() <= (if spec_code_bits(cm, input)->0.len() % 64 == 0 {
            64int
        } else {
            64 - spec_code_bits(cm, input)->0.len() % 64
        }),
    ensures
        spec_pack(cm, input) is Some,
        spec_unpack(spec_bits_of_bytes(spec_pack(cm, input)->0), t) == input,
{
    let cb = spec_code_bits(cm, input)->0;
    let bs = cb + cm.end_code.view();
    assert(spec_pack(cm, input) == Some(spec_bytes_of_bits(bs)));
    lemma_bits_bytes_round(bs);
    let out = spec_bits_of_bytes(spec_bytes_of_bits(bs));
    let pad = out.skip(bs.len() as int);
    assert(out =~= bs + pad);
    lemma_unpack_run(cm, t, input, pad);
    assert(cb + cm.end_code.view() + pad =~= bs + pad);
}


/// How many of the byte values below `upto` have a leaf in the tree.
pub open spec fn spec_leaf_kinds_below(t: HuffmanTree, upto: int) -> int
    decreases upto,
{
    if upto <= 0 {
        0
    } else {
        spec_leaf_kinds_below(t, upto - 1) + t.spec_leaf_count((upto - 1) as u8) as int
    }
}

/// How many byte values a frequency table counts at all.
pub open spec fn spec_distinct_count(stats: Seq<u64>, upto: int) -> int
    decreases upto,
{
    if upto <= 0 {
        0
    } else {
        spec_distinct_count(stats, upto - 1) + if stats[upto - 1] > 0 {
            1int
        } else {
            0
        }
    }
}

/// Somewhere in the tree, the end sentinel hangs as the right child of
/// a fork whose left child is the leaf of `m`: the shape the very first
/// merge leaves behind.
pub open spec fn spec_sentinel_pair(t: HuffmanTree, m: u8) -> bool
    decreases t,
{
    match t {
        HuffmanTree::Node(l, r) => (*l == HuffmanTree::Leaf(m) && *r == HuffmanTree::End)
            || spec_sentinel_pair(*l, m) || spec_sentinel_pair(*r, m),
        _ => false,
    }
}

/// The weight of a merged node: the two weights added, stopping at the
/// largest `u64` rather than wrapping.
pub open spec fn spec_weight_add(a: u64, b: u64) -> u64 {
    if a + b > u64::MAX {
        u64::MAX
    } else {
        (a + b) as u64
    }
}

/// The tree results from greedy merging of the forest: while more than
/// one entry stands, some minimal-weight entry and some minimal-weight
/// entry of the remainder fork together, their weights added; the last
/// entry left is the tree. Which of several equal-weight entries
/// merges first is left open, as the priority structure leaves it.
#[verifier::opaque]
pub open spec fn spec_merge_steps(forest: Seq<(HuffmanTree, u64)>, t: HuffmanTree) -> bool
    decreases forest.len(),
{
    if forest.len() <= 0 {
        false
    } else if forest.len() == 1 {
        forest[0].0 == t
    } else {
        exists|ka: int, kb: int|
            #![trigger forest.remove(ka).remove(kb)]
            {
                &&& 0 <= ka < forest.len()
                &&& 0 <= kb < forest.remove(ka).len()
                &&& (forall|c: int| 0 <= c < forest.len() ==> forest[ka].1 <= #[trigger] forest[c].1)
                &&& (forall|c: int|
                    0 <= c < forest.remove(ka).len() ==> forest.remove(ka)[kb].1 <= (
                    #[trigger] forest.remove(ka)[c]).1)
                &&& spec_merge_steps(
                    forest.remove(ka).remove(kb).push(
                        (
                            HuffmanTree::Node(
                                Box::new(forest[ka].0),
                                Box::new(forest.remove(ka)[kb].0),
                            ),
                            spec_weight_add(forest[ka].1, forest.remove(ka)[kb].1),
                        ),
                    ),
                    t,
                )
            }
    }
}

/// A starting forest for a frequency table: one entry per counted byte,
/// its leaf keyed by its own count, every counted byte present and none
/// twice, in some order.
pub open spec fn spec_initial_forest(forest: Seq<(HuffmanTree, u64)>, stats: Seq<u64>) -> bool {
    &&& (forall|k: int|
        0 <= k < forest.len() ==> exists|b: u8|
            (#[trigger] forest[k]) == (HuffmanTree::Leaf(b), stats[b as int]) && stats[b as int]
                > 0)
    &&& (forall|b: u8|
        stats[b as int] > 0 ==> exists|k: int|
            #![auto]
            0 <= k < forest.len() && forest[k] == (HuffmanTree::Leaf(b), stats[b as int]))
    &&& (forall|k1: int, k2: int|
        0 <= k1 < forest.len() && 0 <= k2 < forest.len() && k1 != k2 ==> (#[trigger] forest[k1]).0
            != (#[trigger] forest[k2]).0)
}

/// A byte has a leaf exactly when its leaf count is positive.
proof fn lemma_has_leaf_count(t: HuffmanTree, b: u8)
    ensures
        t.spec_has_leaf(b) <==> t.spec_leaf_count(b) >= 1,
    decreases t,
{
    match t {
        HuffmanTree::Node(l, r) => {
            lemma_has_leaf_count(*l, b);
            lemma_has_leaf_count(*r, b);
        },
        _ => {},
    }
}

/// Every node forks into exactly two children, so the node count is one
/// less than twice the leaf count, the height is below the leaf count,
/// and the tree is never empty of leaves.
proof fn lemma_tree_shape(t: HuffmanTree)
    ensures
        t.spec_leaf_total() + t.spec_end_count() >= 1,
        t.spec_size() == 2 * (t.spec_leaf_total() + t.spec_end_count()) - 1,
        t.spec_height() <= t.spec_leaf_total() + t.spec_end_count() - 1,
    decreases t,
{
    match t {
        HuffmanTree::Node(l, r) => {
            lemma_tree_shape(*l);
            lemma_tree_shape(*r);
        },
        _ => {},
    }
}

/// Counting leaf kinds distributes over a fork.
proof fn lemma_leaf_kinds_fork(l: HuffmanTree, r: HuffmanTree, upto: int)
    ensures
        spec_leaf_kinds_below(HuffmanTree::Node(Box::new(l), Box::new(r)), upto)
            == spec_leaf_kinds_below(l, upto) + spec_leaf_kinds_below(r, upto),
    decreases upto,
{
    if upto > 0 {
        lemma_leaf_kinds_fork(l, r, upto - 1);
    }
}

/// A single leaf contributes one kind once its byte is in range; the
/// sentinel contributes none.
proof fn lemma_leaf_kinds_single(t: HuffmanTree, upto: int)
    requires
        t is Leaf || t is End,
        upto <= 256,
    ensures
        t is End ==> spec_leaf_kinds_below(t, upto) == 0,
        t is Leaf ==> spec_leaf_kinds_below(t, upto) == if t->Leaf_0 < upto {
            1int
        } else {
            0
        },
    decreases upto,
{
    if upto > 0 {
        lemma_leaf_kinds_single(t, upto - 1);
    }
}

/// The byte leaves, counted one way or the other: the total equals the
/// number of byte values holding a leaf, when no byte holds two.
pub proof fn lemma_leaf_total_kinds(t: HuffmanTree)
    ensures
        spec_leaf_kinds_below(t, 256) == t.spec_leaf_total(),
    decreases t,
{
    match t {
        HuffmanTree::Leaf(v) => {
            lemma_leaf_kinds_single(t, 256);
        },
        HuffmanTree::End => {
            lemma_leaf_kinds_single(t, 256);
        },
        HuffmanTree::Node(l, r) => {
            lemma_leaf_total_kinds(*l);
            lemma_leaf_total_kinds(*r);
            lemma_leaf_kinds_fork(*l, *r, 256);
        },
    }
}

/// When each byte's leaf count matches its counted-or-not flag, the
/// leaf-kind total equals the table's distinct count.
pub proof fn lemma_kinds_match_distinct(t: HuffmanTree, stats: Seq<u64>, upto: int)
    requires
        upto <= 256,
        forall|b: u8| t.spec_leaf_count(b) == if stats[b as int] > 0 {
            1nat
        } else {
            0
        },
    ensures
        spec_leaf_kinds_below(t, upto) == spec_distinct_count(stats, upto),
    decreases upto,
{
    if upto > 0 {
        lemma_kinds_match_distinct(t, stats, upto - 1);
        let b = (upto - 1) as u8;
        assert(b as int == upto - 1);
        assert(t.spec_leaf_count(b) == if stats[b as int] > 0 {
            1nat
        } else {
            0
        });
    }
}

/// A distinct count never exceeds the range it counts over.
pub proof fn lemma_distinct_bound(stats: Seq<u64>, upto: int)
    requires
        upto >= 0,
    ensures
        spec_distinct_count(stats, upto) <= upto,
        spec_distinct_count(stats, upto) >= 0,
    decreases upto,
{
    if upto > 0 {
        lemma_distinct_bound(stats, upto - 1);
    }
}

/// In a one-element multiset, any two contained values are that element.
proof fn lemma_singleton_same<V>(c: Multiset<V>, x: V, y: V)
    requires
        c.len() == 1,
        c.contains(x),
        c.contains(y),
    ensures
        x == y,
{
    broadcast use vstd::multiset::group_multiset_axioms;

    if x != y {
        let rest = c.remove(x);
        assert(rest.len() == 0);
        vstd::multiset::lemma_multiset_empty_len(rest);
        assert(rest.count(y) == c.count(y));
        assert(false);
    }
}

/// Builds the prefix-code tree for a frequency table, bottom-up: each
/// byte that occurred becomes a leaf keyed by its count; the single
/// lowest-count leaf is first joined with the end-of-block sentinel
/// (which carries no weight of its own); then the two lowest-weight
/// nodes are merged until one root remains.
///
/// Which of several equal-weight nodes merges first is left to the
/// priority structure, so the tree's exact shape is not pinned; what
/// holds of every outcome is pinned: the leaves are exactly the counted
/// bytes, each once, plus exactly one sentinel, which fixes the node
/// count and bounds the height by the alphabet's size.
///
/// Fails with `EmptyModel` when no byte occurred at all: no code can be
/// formed from an empty alphabet.
#[verifier::rlimit(100)]
#[verifier::spinoff_prover]
pub fn build_tree(stats: &ByteStats) -> (r: Result<HuffmanTree, LizardError>)
    requires
        stats@.len() == 256,
    ensures
        match r {
            Ok(t) => {
                &&& (exists|b: int| 0 <= b < 256 && stats@[b] > 0)
                &&& t is Node
                &&& t.spec_has_end()
                &&& t.spec_end_count() == 1
                &&& (forall|b: u8| t.spec_has_leaf(b) <==> stats@[b as int] > 0)
                &&& (forall|b: u8|
                    t.spec_leaf_count(b) == if stats@[b as int] > 0 {
                        1nat
                    } else {
                        0
                    })
                &&& t.spec_size() == 2 * spec_distinct_count(stats@, 256) + 1
                &&& t.spec_height() <= spec_distinct_count(stats@, 256)
                &&& (exists|m: u8|
                    #![auto]
                    {
                        &&& spec_sentinel_pair(t, m)
                        &&& stats@[m as int] > 0
                        &&& (forall|b: u8|
                            stats@[b as int] > 0 ==> stats@[m as int] <= stats@[b as int])
                    })
                &&& (exists|init: Seq<(HuffmanTree, u64)>, km: int|
                    #![trigger spec_merge_steps(init.update(km, (HuffmanTree::Node(Box::new(init[km].0), Box::new(HuffmanTree::End)), init[km].1)), t)]
                    {
                        &&& spec_initial_forest(init, stats@)
                        &&& 0 <= km < init.len()
                        &&& (forall|c: int|
                            0 <= c < init.len() ==> init[km].1 <= (#[trigger] init[c]).1)
                        &&& spec_merge_steps(
                            init.update(
                                km,
                                (
                                    HuffmanTree::Node(
                                        Box::new(init[km].0),
                                        Box::new(HuffmanTree::End),
                                    ),
                                    init[km].1,
                                ),
                            ),
                            t,
                        )
                    })
            },
            Err(e) => e == LizardError::EmptyModel && (forall|b: int|
                0 <= b < 256 ==> stats@[b] == 0),
        },
{
    broadcast use vstd::multiset::group_multiset_axioms;

    let mut arena: Vec<HuffmanTree> = Vec::new();
    let mut queue = dpq_new();
    let ghost mut finit: Seq<(HuffmanTree, u64)> = Seq::empty();
    let ghost mut iseq: Seq<u64> = Seq::empty();

    let mut v: usize = 0;
    while v < 256
        invariant
            stats@.len() == 256,
            v <= 256,
            forall|i: u64, p: u64|
                #[trigger] dpq_contents(queue).contains((i, p)) ==> i < arena@.len(),
            forall|i: u64, p: u64|
                #[trigger] dpq_contents(queue).contains((i, p)) ==> arena@[i as int] is Leaf,
            forall|i: u64, p: u64, b: u8|
                #[trigger] dpq_contents(queue).contains((i, p)) && #[trigger] arena@[i as int].spec_has_leaf(
                    b,
                ) ==> b < v && stats@[b as int] > 0 && p == stats@[b as int],
            forall|i: u64, p: u64, q: u64|
                #[trigger] dpq_contents(queue).contains((i, p)) && #[trigger] dpq_contents(
                    queue,
                ).contains((i, q)) ==> p == q,
            forall|i: u64, p: u64| #[trigger] dpq_contents(queue).count((i, p)) <= 1,
            forall|i: u64, p: u64, i2: u64, p2: u64, b: u8|
                #![trigger dpq_contents(queue).contains((i, p)), dpq_contents(queue).contains((i2, p2)), arena@[i as int].spec_has_leaf(b)]
                dpq_contents(queue).contains((i, p)) && dpq_contents(queue).contains((i2, p2)) && i
                    != i2 ==> !(arena@[i as int].spec_has_leaf(b)
                    && arena@[i2 as int].spec_has_leaf(b)),
            forall|b: int|
                0 <= b < v && stats@[b] > 0 ==> exists|i: u64, p: u64|
                    #[trigger] dpq_contents(queue).contains((i, p))
                        && arena@[i as int].spec_has_leaf(b as u8),
            dpq_contents(queue).len() > 0 ==> exists|b: int| 0 <= b < 256 && stats@[b] > 0,
            iseq.len() == finit.len(),
            finit.len() == dpq_contents(queue).len(),
            forall|k: int|
                0 <= k < iseq.len() ==> (#[trigger] iseq[k]) < arena@.len()
                    && dpq_contents(queue).contains((iseq[k], finit[k].1)) && arena@[iseq[k] as int]
                    == finit[k].0,
            forall|k1: int, k2: int|
                0 <= k1 < iseq.len() && 0 <= k2 < iseq.len() && k1 != k2 ==> (#[trigger] iseq[k1])
                    != (#[trigger] iseq[k2]),
            forall|i: u64, p: u64|
                #[trigger] dpq_contents(queue).contains((i, p)) ==> exists|k: int|
                    0 <= k < iseq.len() && (#[trigger] iseq[k]) == i && finit[k].1 == p,
            forall|k: int|
                0 <= k < finit.len() ==> exists|b: u8|
                    (#[trigger] finit[k]) == (HuffmanTree::Leaf(b), stats@[b as int])
                        && stats@[b as int] > 0,
            forall|b: int|
                0 <= b < v && stats@[b] > 0 ==> exists|k: int|
                    0 <= k < finit.len() && (#[trigger] finit[k]) == (
                    HuffmanTree::Leaf(b as u8),
                    stats@[b],
                ),
            forall|k1: int, k2: int|
                0 <= k1 < finit.len() && 0 <= k2 < finit.len() && k1 != k2 ==> (
                #[trigger] finit[k1]).0 != (#[trigger] finit[k2]).0,
        decreases 256 - v,
    {
        if stats[v] > 0 {
            let ghost arena0 = arena@;
            let ghost q0 = dpq_contents(queue);
            let idx = arena.len() as u64;
            arena.push(HuffmanTree::Leaf(v as u8));
            dpq_push(&mut queue, idx, stats[v]);
            proof {
                let now = dpq_contents(queue);
                let fresh = (idx, stats@[v as int]);
                assert(arena@[idx as int] == HuffmanTree::Leaf(v as u8));
                assert forall|i: u64, p: u64| #[trigger] now.contains((i, p)) implies i
                    < arena@.len() && arena@[i as int] is Leaf by {
                    if (i, p) != fresh {
                        assert(q0.contains((i, p)));
                        assert(arena@[i as int] == arena0[i as int]);
                    }
                }
                assert forall|i: u64, p: u64, b: u8|
                    #[trigger] now.contains((i, p)) && #[trigger] arena@[i as int].spec_has_leaf(
                        b,
                    ) implies b < v + 1 && stats@[b as int] > 0 && p == stats@[b as int] by {
                    if (i, p) != fresh {
                        assert(q0.contains((i, p)));
                        assert(arena@[i as int] == arena0[i as int]);
                    } else {
                        assert(b == v as u8);
                    }
                }
                assert forall|i: u64, p: u64, q: u64|
                    #[trigger] now.contains((i, p)) && #[trigger] now.contains((i, q)) implies p
                    == q by {
                    if (i, p) != fresh && (i, q) != fresh {
                        assert(q0.contains((i, p)) && q0.contains((i, q)));
                    } else if (i, p) == fresh && (i, q) != fresh {
                        assert(q0.contains((i, q)));
                        assert(i < arena0.len());
                        assert(false);
                    } else if (i, p) != fresh && (i, q) == fresh {
                        assert(q0.contains((i, p)));
                        assert(i < arena0.len());
                        assert(false);
                    }
                }
                assert(!q0.contains(fresh)) by {
                    if q0.contains(fresh) {
                        assert(idx < arena0.len());
                    }
                }
                assert forall|i: u64, p: u64| #[trigger] now.count((i, p)) <= 1 by {
                    if (i, p) == fresh {
                        assert(q0.count(fresh) == 0);
                    } else {
                        assert(now.count((i, p)) == q0.count((i, p)));
                    }
                }
                assert forall|i: u64, p: u64, i2: u64, p2: u64, b: u8|
                    #![trigger now.contains((i, p)), now.contains((i2, p2)), arena@[i as int].spec_has_leaf(b)]
                    now.contains((i, p)) && now.contains((i2, p2)) && i != i2 implies !(
                arena@[i as int].spec_has_leaf(b) && arena@[i2 as int].spec_has_leaf(b)) by {
                    if (i, p) == fresh && (i2, p2) != fresh {
                        assert(q0.contains((i2, p2)));
                        assert(arena@[i2 as int] == arena0[i2 as int]);
                        if arena@[i as int].spec_has_leaf(b) {
                            assert(b == v as u8);
                            if arena@[i2 as int].spec_has_leaf(b) {
                                assert(b < v);
                                assert(false);
                            }
                        }
                    } else if (i2, p2) == fresh && (i, p) != fresh {
                        assert(q0.contains((i, p)));
                        assert(arena@[i as int] == arena0[i as int]);
                        if arena@[i2 as int].spec_has_leaf(b) {
                            assert(b == v as u8);
                            if arena@[i as int].spec_has_leaf(b) {
                                assert(b < v);
                                assert(false);
                            }
                        }
                    } else if (i, p) != fresh && (i2, p2) != fresh {
                        assert(q0.contains((i, p)) && q0.contains((i2, p2)));
                        assert(arena@[i as int] == arena0[i as int]);
                        assert(arena@[i2 as int] == arena0[i2 as int]);
                    }
                }
                assert forall|b: int|
                    0 <= b < v + 1 && stats@[b] > 0 implies exists|i: u64, p: u64|
                        #[trigger] now.contains((i, p)) && arena@[i as int].spec_has_leaf(
                            b as u8,
                        ) by {
                    if b == v {
                        assert(now.contains(fresh));
                        assert(arena@[idx as int].spec_has_leaf(b as u8));
                    } else {
                        let (i, p): (u64, u64) = choose|i: u64, p: u64|
                            #[trigger] q0.contains((i, p)) && arena0[i as int].spec_has_leaf(
                                b as u8,
                            );
                        assert(i < arena0.len());
                        assert(arena@[i as int] == arena0[i as int]);
                        assert(now.contains((i, p)));
                    }
                }
                // The ghost forest mirrors the queue: one new leaf entry.
                let prev_f = finit;
                let prev_i = iseq;
                finit = finit.push((HuffmanTree::Leaf(v as u8), stats@[v as int]));
                iseq = iseq.push(idx);
                assert forall|k: int|
                    0 <= k < iseq.len() implies (#[trigger] iseq[k]) < arena@.len()
                        && now.contains((iseq[k], finit[k].1)) && arena@[iseq[k] as int]
                        == finit[k].0 by {
                    if k < prev_i.len() {
                        assert(iseq[k] == prev_i[k] && finit[k] == prev_f[k]);
                        assert(q0.contains((prev_i[k], prev_f[k].1)));
                        assert(arena@[prev_i[k] as int] == arena0[prev_i[k] as int]);
                    } else {
                        assert(iseq[k] == idx);
                        assert(finit[k] == (HuffmanTree::Leaf(v as u8), stats@[v as int]));
                    }
                }
                assert forall|k1: int, k2: int|
                    0 <= k1 < iseq.len() && 0 <= k2 < iseq.len() && k1 != k2 implies (
                #[trigger] iseq[k1]) != (#[trigger] iseq[k2]) by {
                    if k1 < prev_i.len() && k2 < prev_i.len() {
                    } else if k1 < prev_i.len() {
                        assert(q0.contains((prev_i[k1], prev_f[k1].1)));
                        assert(iseq[k1] < arena0.len() && iseq[k2] == idx);
                    } else if k2 < prev_i.len() {
                        assert(q0.contains((prev_i[k2], prev_f[k2].1)));
                        assert(iseq[k2] < arena0.len() && iseq[k1] == idx);
                    }
                }
                assert forall|i: u64, p: u64| #[trigger] now.contains((i, p)) implies exists|
                    k: int,
                |
                    0 <= k < iseq.len() && (#[trigger] iseq[k]) == i && finit[k].1 == p by {
                    if (i, p) == fresh {
                        assert(iseq[prev_i.len() as int] == i && finit[prev_i.len() as int].1
                            == p);
                    } else {
                        assert(q0.contains((i, p)));
                        let k = choose|k: int|
                            0 <= k < prev_i.len() && (#[trigger] prev_i[k]) == i && prev_f[k].1
                                == p;
                        assert(iseq[k] == i && finit[k].1 == p);
                    }
                }
                assert forall|k: int|
                    0 <= k < finit.len() implies exists|b: u8|
                        (#[trigger] finit[k]) == (HuffmanTree::Leaf(b), stats@[b as int])
                            && stats@[b as int] > 0 by {
                    if k < prev_f.len() {
                        assert(finit[k] == prev_f[k]);
                    } else {
                        assert(finit[k] == (HuffmanTree::Leaf(v as u8), stats@[v as int]));
                    }
                }
                assert forall|b: int|
                    0 <= b < v + 1 && stats@[b] > 0 implies exists|k: int|
                        0 <= k < finit.len() && (#[trigger] finit[k]) == (
                        HuffmanTree::Leaf(b as u8),
                        stats@[b],
                    ) by {
                    if b == v {
                        assert(finit[prev_f.len() as int] == (
                            HuffmanTree::Leaf(b as u8),
                            stats@[b],
                        ));
                    } else {
                        let k = choose|k: int|
                            0 <= k < prev_f.len() && (#[trigger] prev_f[k]) == (
                            HuffmanTree::Leaf(b as u8),
                            stats@[b],
                        );
                        assert(finit[k] == prev_f[k]);
                    }
                }
                assert forall|k1: int, k2: int|
                    0 <= k1 < finit.len() && 0 <= k2 < finit.len() && k1 != k2 implies (
                #[trigger] finit[k1]).0 != (#[trigger] finit[k2]).0 by {
                    if k1 < prev_f.len() && k2 < prev_f.len() {
                    } else if k1 < prev_f.len() {
                        assert(q0.contains((prev_i[k1], prev_f[k1].1)));
                        assert(arena0[prev_i[k1] as int] == prev_f[k1].0);
                        if prev_f[k1].0 == HuffmanTree::Leaf(v as u8) {
                            assert(arena0[prev_i[k1] as int].spec_has_leaf(v as u8));
                            assert(false);
                        }
                    } else if k2 < prev_f.len() {
                        assert(q0.contains((prev_i[k2], prev_f[k2].1)));
                        assert(arena0[prev_i[k2] as int] == prev_f[k2].0);
                        if prev_f[k2].0 == HuffmanTree::Leaf(v as u8) {
                            assert(arena0[prev_i[k2] as int].spec_has_leaf(v as u8));
                            assert(false);
                        }
                    }
                }
            }
        }
        v = v + 1;
    }

    // Join the lowest-count leaf with the end-of-block sentinel; the
    // sentinel adds no weight of its own.
    let ghost q1 = dpq_contents(queue);
    let ghost arena1 = arena@;
    let first = dpq_pop_min(&mut queue);
    match first {
        None => {
            proof {
                assert forall|b: int| 0 <= b < 256 implies stats@[b] == 0 by {
                    if stats@[b] > 0 {
                        let (i, p): (u64, u64) = choose|i: u64, p: u64|
                            #[trigger] q1.contains((i, p)) && arena1[i as int].spec_has_leaf(
                                b as u8,
                            );
                        assert(q1.count((i, p)) > 0);
                        assert(false);
                    }
                }
            }
            Err(LizardError::EmptyModel)
        },
        Some(pair0) => {
            let (i0, count0) = (pair0.0, pair0.1);
            let ghost gm = arena@[i0 as int]->Leaf_0;
            proof {
                assert(q1.contains((i0, count0)));
                assert(i0 < arena@.len());
                assert(q1.len() > 0);
                assert(arena1[i0 as int] is Leaf);
                assert(arena1[i0 as int] == HuffmanTree::Leaf(gm));
                assert(arena1[i0 as int].spec_has_leaf(gm));
                assert(stats@[gm as int] > 0 && count0 == stats@[gm as int]);
                assert forall|b: u8|
                    stats@[b as int] > 0 implies stats@[gm as int] <= stats@[b as int] by {
                    let (i, p): (u64, u64) = choose|i: u64, p: u64|
                        #[trigger] q1.contains((i, p)) && arena1[i as int].spec_has_leaf(b);
                    assert(p == stats@[b as int]);
                    assert(count0 <= p);
                }
                assert(spec_initial_forest(finit, stats@));
                assert(exists|k: int|
                    0 <= k < iseq.len() && (#[trigger] iseq[k]) == i0 && finit[k].1 == count0);
            }
            let ghost k0 = choose|k: int|
                0 <= k < iseq.len() && (#[trigger] iseq[k]) == i0 && finit[k].1 == count0;
            proof {
                assert(finit[k0].0 == arena1[i0 as int]);
                assert(finit[k0].0 == HuffmanTree::Leaf(gm));
                assert(finit[k0].1 == count0);
                assert forall|c: int|
                    0 <= c < finit.len() implies finit[k0].1 <= (#[trigger] finit[c]).1 by {
                    assert(q1.contains((iseq[c], finit[c].1)));
                }
            }
            let node = arena[i0 as usize].duplicate();
            let combined = HuffmanTree::Node(Box::new(node), Box::new(HuffmanTree::End));
            let ghost comb = combined;
            let idx = arena.len() as u64;
            let ghost q2 = dpq_contents(queue);
            arena.push(combined);
            proof {
                assert(arena@[idx as int] == comb);
                assert(HuffmanTree::End.spec_has_end());
                assert(comb.spec_has_end());
                assert(HuffmanTree::End.spec_end_count() == 1);
                assert(arena1[i0 as int] is Leaf);
                assert(arena1[i0 as int].spec_end_count() == 0);
                assert(node == HuffmanTree::Leaf(gm));
                assert(spec_sentinel_pair(comb, gm));
                assert forall|p: u64| !q2.contains((idx, p)) by {
                    if q2.contains((idx, p)) {
                        assert(q1.contains((idx, p)));
                        assert(idx < arena1.len());
                    }
                }
            }
            dpq_push(&mut queue, idx, count0);

            proof {
                let now = dpq_contents(queue);
                let fresh = (idx, count0);
                assert(now.len() == q2.len() + 1);
                assert(q2.len() == q1.len() - 1);
                assert(now.contains(fresh));
                assert(node == arena1[i0 as int]);
                assert(comb.spec_end_count() == 1);
                assert forall|i: u64, p: u64| #[trigger] now.contains((i, p)) implies i
                    < arena@.len() by {
                    if (i, p) != fresh {
                        assert(q2.contains((i, p)));
                        assert(q1.contains((i, p)));
                    }
                }
                assert forall|i: u64, p: u64, q: u64|
                    #[trigger] now.contains((i, p)) && #[trigger] now.contains((i, q)) implies p
                    == q by {
                    if (i, p) != fresh && (i, q) != fresh {
                        assert(q1.contains((i, p)) && q1.contains((i, q)));
                    } else if (i, p) == fresh && (i, q) != fresh {
                        assert(q2.contains((i, q)));
                        assert(q1.contains((i, q)));
                        assert(i < arena1.len());
                        assert(false);
                    } else if (i, p) != fresh && (i, q) == fresh {
                        assert(q2.contains((i, p)));
                        assert(q1.contains((i, p)));
                        assert(i < arena1.len());
                        assert(false);
                    }
                }
                assert(!q2.contains(fresh));
                assert forall|i: u64, p: u64| #[trigger] now.count((i, p)) <= 1 by {
                    if (i, p) == fresh {
                        assert(q2.count(fresh) == 0);
                    } else {
                        assert(now.count((i, p)) == q2.count((i, p)));
                        assert(q2.count((i, p)) <= q1.count((i, p)));
                    }
                }
                assert forall|i: u64, p: u64, b: u8|
                    #[trigger] now.contains((i, p)) && #[trigger] arena@[i as int].spec_has_leaf(
                        b,
                    ) implies stats@[b as int] > 0 by {
                    if (i, p) == fresh {
                        assert(!HuffmanTree::End.spec_has_leaf(b));
                        assert(comb.spec_has_leaf(b) == arena1[i0 as int].spec_has_leaf(b));
                        assert(q1.contains((i0, count0)));
                    } else {
                        assert(q1.contains((i, p)));
                        assert(arena@[i as int] == arena1[i as int]);
                    }
                }
                assert forall|i: u64, p: u64, b: u8|
                    #![trigger now.contains((i, p)), arena@[i as int].spec_leaf_count(b)]
                    now.contains((i, p)) implies arena@[i as int].spec_leaf_count(b) <= 1 by {
                    if (i, p) == fresh {
                        assert(arena1[i0 as int] is Leaf);
                        assert(HuffmanTree::End.spec_leaf_count(b) == 0);
                        assert(comb.spec_leaf_count(b) == arena1[i0 as int].spec_leaf_count(b));
                    } else {
                        assert(q1.contains((i, p)));
                        assert(arena@[i as int] is Leaf);
                    }
                }
                assert forall|i: u64, p: u64, i2: u64, p2: u64, b: u8|
                    #![trigger now.contains((i, p)), now.contains((i2, p2)), arena@[i as int].spec_has_leaf(b)]
                    now.contains((i, p)) && now.contains((i2, p2)) && i != i2 implies !(
                arena@[i as int].spec_has_leaf(b) && arena@[i2 as int].spec_has_leaf(b)) by {
                    if (i, p) == fresh {
                        assert(q2.contains((i2, p2)));
                        assert(q1.contains((i2, p2)));
                        assert(i2 < arena1.len());
                        assert(!HuffmanTree::End.spec_has_leaf(b));
                        assert(comb.spec_has_leaf(b) == arena1[i0 as int].spec_has_leaf(b));
                        if i2 == i0 {
                            assert(q1.contains((i0, p2)) && q1.contains((i0, count0)));
                            assert(p2 == count0);
                            assert(q2.count((i0, count0)) == q1.count((i0, count0)) - 1);
                            assert(q1.count((i0, count0)) <= 1);
                            assert(false);
                        }
                    } else if (i2, p2) == fresh {
                        assert(q2.contains((i, p)));
                        assert(q1.contains((i, p)));
                        assert(!HuffmanTree::End.spec_has_leaf(b));
                        assert(comb.spec_has_leaf(b) == arena1[i0 as int].spec_has_leaf(b));
                        if i == i0 {
                            assert(q1.contains((i0, p)) && q1.contains((i0, count0)));
                            assert(p == count0);
                            assert(q2.count((i0, count0)) == q1.count((i0, count0)) - 1);
                            assert(q1.count((i0, count0)) <= 1);
                            assert(false);
                        }
                    } else {
                        assert(q1.contains((i, p)) && q1.contains((i2, p2)));
                    }
                }
                assert forall|b: int|
                    0 <= b < 256 && stats@[b] > 0 implies exists|i: u64, p: u64|
                        #[trigger] now.contains((i, p)) && arena@[i as int].spec_has_leaf(
                            b as u8,
                        ) by {
                    let (i, p): (u64, u64) = choose|i: u64, p: u64|
                        #[trigger] q1.contains((i, p)) && arena1[i as int].spec_has_leaf(b as u8);
                    if q2.contains((i, p)) {
                        assert(now.contains((i, p)));
                        assert(arena@[i as int] == arena1[i as int]);
                    } else {
                        assert((i, p) == (i0, count0));
                        assert(!HuffmanTree::End.spec_has_leaf(b as u8));
                        assert(arena@[idx as int].spec_has_leaf(b as u8));
                        assert(now.contains(fresh));
                    }
                }
                assert(arena@[idx as int].spec_end_count() == 1 && arena@[idx as int] is Node);
                assert forall|i2: u64, p2: u64|
                    #[trigger] now.contains((i2, p2)) && i2 != idx implies arena@[i2 as int].spec_end_count()
                    == 0 by {
                    assert(q2.contains((i2, p2)));
                    assert(q1.contains((i2, p2)));
                    assert(arena@[i2 as int] is Leaf);
                }
            }
            let ghost fseq0 = finit.update(
                k0,
                (
                    HuffmanTree::Node(Box::new(finit[k0].0), Box::new(HuffmanTree::End)),
                    finit[k0].1,
                ),
            );
            let ghost mut fcur = fseq0;
            let ghost mut icur = iseq.update(k0, idx);
            proof {
                let now = dpq_contents(queue);
                assert(fseq0 == finit.update(k0, (comb, count0)));
                assert(fcur.len() == now.len());
                assert forall|k: int|
                    0 <= k < icur.len() implies (#[trigger] icur[k]) < arena@.len()
                        && now.contains((icur[k], fcur[k].1)) && arena@[icur[k] as int]
                        == fcur[k].0 by {
                    if k == k0 {
                        assert(icur[k] == idx && fcur[k] == (comb, count0));
                        assert(now.contains((idx, count0)));
                    } else {
                        assert(icur[k] == iseq[k] && fcur[k] == finit[k]);
                        assert(q1.contains((iseq[k], finit[k].1)));
                        assert(iseq[k] != iseq[k0]);
                        assert(q2.contains((iseq[k], finit[k].1)));
                        assert(now.contains((iseq[k], finit[k].1)));
                        assert(arena@[iseq[k] as int] == arena1[iseq[k] as int]);
                    }
                }
                assert forall|k1: int, k2: int|
                    0 <= k1 < icur.len() && 0 <= k2 < icur.len() && k1 != k2 implies (
                #[trigger] icur[k1]) != (#[trigger] icur[k2]) by {
                    if k1 == k0 {
                        assert(q1.contains((iseq[k2], finit[k2].1)));
                        assert(icur[k2] < arena1.len() && icur[k1] == idx);
                    } else if k2 == k0 {
                        assert(q1.contains((iseq[k1], finit[k1].1)));
                        assert(icur[k1] < arena1.len() && icur[k2] == idx);
                    }
                }
                assert forall|i: u64, p: u64| #[trigger] now.contains((i, p)) implies exists|
                    k: int,
                |
                    0 <= k < icur.len() && (#[trigger] icur[k]) == i && fcur[k].1 == p by {
                    if (i, p) == (idx, count0) {
                        assert(icur[k0] == i && fcur[k0].1 == p);
                    } else {
                        assert(q2.contains((i, p)));
                        assert(q1.contains((i, p)));
                        let k = choose|k: int|
                            0 <= k < iseq.len() && (#[trigger] iseq[k]) == i && finit[k].1 == p;
                        if k == k0 {
                            assert(i == i0 && p == count0);
                            assert(q2.count((i0, count0)) == q1.count((i0, count0)) - 1);
                            assert(q1.count((i0, count0)) <= 1);
                            assert(false);
                        }
                        assert(icur[k] == i && fcur[k].1 == p);
                    }
                }
            }

            // Merge the two lowest-weight nodes until one root remains.
            loop
                invariant_except_break
                    stats@.len() == 256,
                    exists|b: int| 0 <= b < 256 && stats@[b] > 0,
                    dpq_contents(queue).len() >= 1,
                    forall|i: u64, p: u64|
                        #[trigger] dpq_contents(queue).contains((i, p)) ==> i < arena@.len(),
                    forall|i: u64, p: u64, q: u64|
                        #[trigger] dpq_contents(queue).contains((i, p)) && #[trigger] dpq_contents(
                            queue,
                        ).contains((i, q)) ==> p == q,
                    forall|i: u64, p: u64| #[trigger] dpq_contents(queue).count((i, p)) <= 1,
                    forall|i: u64, p: u64, b: u8|
                        #[trigger] dpq_contents(queue).contains((i, p)) && #[trigger] arena@[i as int].spec_has_leaf(
                            b,
                        ) ==> stats@[b as int] > 0,
                    forall|i: u64, p: u64, b: u8|
                        #![trigger dpq_contents(queue).contains((i, p)), arena@[i as int].spec_leaf_count(b)]
                        dpq_contents(queue).contains((i, p)) ==> arena@[i as int].spec_leaf_count(
                            b,
                        ) <= 1,
                    forall|i: u64, p: u64, i2: u64, p2: u64, b: u8|
                        #![trigger dpq_contents(queue).contains((i, p)), dpq_contents(queue).contains((i2, p2)), arena@[i as int].spec_has_leaf(b)]
                        dpq_contents(queue).contains((i, p)) && dpq_contents(queue).contains(
                            (i2, p2),
                        ) && i != i2 ==> !(arena@[i as int].spec_has_leaf(b)
                            && arena@[i2 as int].spec_has_leaf(b)),
                    forall|b: int|
                        0 <= b < 256 && stats@[b] > 0 ==> exists|i: u64, p: u64|
                            #[trigger] dpq_contents(queue).contains((i, p))
                                && arena@[i as int].spec_has_leaf(b as u8),
                    stats@[gm as int] > 0,
                    forall|b: u8| stats@[b as int] > 0 ==> stats@[gm as int] <= stats@[b as int],
                    exists|iw: u64, pw: u64|
                        #[trigger] dpq_contents(queue).contains((iw, pw))
                            && arena@[iw as int].spec_end_count() == 1 && arena@[iw as int] is Node
                            && spec_sentinel_pair(arena@[iw as int], gm) && (forall|
                            i2: u64,
                            p2: u64,
                        |
                            #[trigger] dpq_contents(queue).contains((i2, p2)) && i2 != iw
                                ==> arena@[i2 as int].spec_end_count() == 0),
                    icur.len() == fcur.len(),
                    fcur.len() == dpq_contents(queue).len(),
                    forall|k: int|
                        0 <= k < icur.len() ==> (#[trigger] icur[k]) < arena@.len()
                            && dpq_contents(queue).contains((icur[k], fcur[k].1))
                            && arena@[icur[k] as int] == fcur[k].0,
                    forall|k1: int, k2: int|
                        0 <= k1 < icur.len() && 0 <= k2 < icur.len() && k1 != k2 ==> (
                        #[trigger] icur[k1]) != (#[trigger] icur[k2]),
                    forall|i: u64, p: u64|
                        #[trigger] dpq_contents(queue).contains((i, p)) ==> exists|k: int|
                            0 <= k < icur.len() && (#[trigger] icur[k]) == i && fcur[k].1 == p,
                    forall|x: HuffmanTree|
                        #[trigger] spec_merge_steps(fcur, x) ==> spec_merge_steps(fseq0, x),
                    spec_initial_forest(finit, stats@),
                    0 <= k0 < finit.len(),
                    forall|c: int| 0 <= c < finit.len() ==> finit[k0].1 <= (#[trigger] finit[c]).1,
                    fseq0 == finit.update(
                        k0,
                        (
                            HuffmanTree::Node(Box::new(finit[k0].0), Box::new(HuffmanTree::End)),
                            finit[k0].1,
                        ),
                    ),
                ensures
                    dpq_contents(queue).len() == 1,
                    exists|b: int| 0 <= b < 256 && stats@[b] > 0,
                    forall|i: u64, p: u64|
                        #[trigger] dpq_contents(queue).contains((i, p)) ==> i < arena@.len(),
                    forall|i: u64, p: u64, b: u8|
                        #[trigger] dpq_contents(queue).contains((i, p)) && #[trigger] arena@[i as int].spec_has_leaf(
                            b,
                        ) ==> stats@[b as int] > 0,
                    forall|i: u64, p: u64, b: u8|
                        #![trigger dpq_contents(queue).contains((i, p)), arena@[i as int].spec_leaf_count(b)]
                        dpq_contents(queue).contains((i, p)) ==> arena@[i as int].spec_leaf_count(
                            b,
                        ) <= 1,
                    forall|b: int|
                        0 <= b < 256 && stats@[b] > 0 ==> exists|i: u64, p: u64|
                            #[trigger] dpq_contents(queue).contains((i, p))
                                && arena@[i as int].spec_has_leaf(b as u8),
                    stats@[gm as int] > 0,
                    forall|b: u8| stats@[b as int] > 0 ==> stats@[gm as int] <= stats@[b as int],
                    exists|iw: u64, pw: u64|
                        #[trigger] dpq_contents(queue).contains((iw, pw))
                            && arena@[iw as int].spec_end_count() == 1 && arena@[iw as int] is Node
                            && spec_sentinel_pair(arena@[iw as int], gm),
                    icur.len() == fcur.len(),
                    fcur.len() == dpq_contents(queue).len(),
                    forall|k: int|
                        0 <= k < icur.len() ==> (#[trigger] icur[k]) < arena@.len()
                            && dpq_contents(queue).contains((icur[k], fcur[k].1))
                            && arena@[icur[k] as int] == fcur[k].0,
                    forall|i: u64, p: u64|
                        #[trigger] dpq_contents(queue).contains((i, p)) ==> exists|k: int|
                            0 <= k < icur.len() && (#[trigger] icur[k]) == i && fcur[k].1 == p,
                    forall|x: HuffmanTree|
                        #[trigger] spec_merge_steps(fcur, x) ==> spec_merge_steps(fseq0, x),
                    spec_initial_forest(finit, stats@),
                    0 <= k0 < finit.len(),
                    forall|c: int| 0 <= c < finit.len() ==> finit[k0].1 <= (#[trigger] finit[c]).1,
                    fseq0 == finit.update(
                        k0,
                        (
                            HuffmanTree::Node(Box::new(finit[k0].0), Box::new(HuffmanTree::End)),
                            finit[k0].1,
                        ),
                    ),
                decreases dpq_contents(queue).len(),
            {
                let n = dpq_len(&queue);
                if n <= 1 {
                    break ;
                }
                let ghost at_top = dpq_contents(queue);
                let ghost arena_top = arena@;
                let pop0 = dpq_pop_min(&mut queue);
                let ghost mid1 = dpq_contents(queue);
                let pop1 = dpq_pop_min(&mut queue);
                let ghost mid2 = dpq_contents(queue);
                match (pop0, pop1) {
                    (Some(pair_a), Some(pair_b)) => {
                        let (ia, pa) = (pair_a.0, pair_a.1);
                        let (ib, pb) = (pair_b.0, pair_b.1);
                        proof {
                            assert(at_top.contains((ia, pa)));
                            assert(ia < arena@.len());
                            assert(mid1.contains((ib, pb)));
                            assert(at_top.contains((ib, pb)));
                            assert(ib < arena@.len());
                            assert(mid1.count((ia, pa)) == at_top.count((ia, pa)) - 1);
                            assert(at_top.count((ia, pa)) <= 1);
                            assert((ib, pb) != (ia, pa));
                            if ia == ib {
                                assert(at_top.contains((ia, pa)) && at_top.contains((ia, pb)));
                                assert(pa == pb);
                                assert(false);
                            }
                        }
                        let left = arena[ia as usize].duplicate();
                        let right = arena[ib as usize].duplicate();
                        let merged = HuffmanTree::Node(Box::new(left), Box::new(right));
                        let ghost merged_g = merged;
                        let j = arena.len() as u64;
                        arena.push(merged);
                        proof {
                            assert(arena@[j as int] == merged_g);
                            assert forall|p: u64| !mid2.contains((j, p)) by {
                                if mid2.contains((j, p)) {
                                    assert(mid1.contains((j, p)));
                                    assert(at_top.contains((j, p)));
                                    assert(j < arena_top.len());
                                }
                            }
                        }
                        let prio = match pa.checked_add(pb) {
                            Some(s) => s,
                            None => u64::MAX,
                        };
                        dpq_push(&mut queue, j, prio);
                        proof {
                            let now = dpq_contents(queue);
                            let fresh = (j, prio);
                            assert(now.len() == at_top.len() - 1);
                            assert(now.contains(fresh));
                            assert(left == arena_top[ia as int]);
                            assert(right == arena_top[ib as int]);
                            assert forall|i: u64, p: u64| #[trigger] now.contains((i, p)) implies i
                                < arena@.len() by {
                                if (i, p) != fresh {
                                    assert(mid2.contains((i, p)));
                                    assert(mid1.contains((i, p)));
                                    assert(at_top.contains((i, p)));
                                }
                            }
                            assert forall|i: u64, p: u64|
                                #[trigger] now.contains((i, p)) && (i, p) != fresh implies at_top.contains(
                                (i, p),
                            ) && i != ia && i != ib && i != j by {
                                assert(mid2.contains((i, p)));
                                assert(mid1.contains((i, p)));
                                assert(at_top.contains((i, p)));
                                if i == ia {
                                    assert(at_top.contains((ia, p)) && at_top.contains((ia, pa)));
                                    assert(p == pa);
                                    assert(mid1.count((ia, pa)) == at_top.count((ia, pa)) - 1);
                                    assert(at_top.count((ia, pa)) <= 1);
                                    assert(false);
                                }
                                if i == ib {
                                    assert(at_top.contains((ib, p)) && at_top.contains((ib, pb)));
                                    assert(p == pb);
                                    assert(mid2.count((ib, pb)) == mid1.count((ib, pb)) - 1);
                                    assert(mid1.count((ib, pb)) <= at_top.count((ib, pb)));
                                    assert(at_top.count((ib, pb)) <= 1);
                                    assert(false);
                                }
                                if i == j {
                                    assert(j < arena_top.len());
                                    assert(false);
                                }
                            }
                            assert forall|i: u64, p: u64, q: u64|
                                #[trigger] now.contains((i, p)) && #[trigger] now.contains(
                                (i, q),
                            ) implies p == q by {
                                if (i, p) != fresh && (i, q) != fresh {
                                    assert(at_top.contains((i, p)) && at_top.contains((i, q)));
                                } else if (i, p) == fresh && (i, q) != fresh {
                                    assert(i != j);
                                    assert(false);
                                } else if (i, p) != fresh && (i, q) == fresh {
                                    assert(i != j);
                                    assert(false);
                                }
                            }
                            assert(!mid2.contains(fresh));
                            assert forall|i: u64, p: u64| #[trigger] now.count((i, p)) <= 1 by {
                                if (i, p) == fresh {
                                    assert(mid2.count(fresh) == 0);
                                } else {
                                    assert(now.count((i, p)) == mid2.count((i, p)));
                                    assert(mid2.count((i, p)) <= mid1.count((i, p)));
                                    assert(mid1.count((i, p)) <= at_top.count((i, p)));
                                }
                            }
                            assert forall|i: u64, p: u64, b: u8|
                                #[trigger] now.contains((i, p)) && #[trigger] arena@[i as int].spec_has_leaf(
                                    b,
                                ) implies stats@[b as int] > 0 by {
                                if (i, p) == fresh {
                                    assert(merged_g.spec_has_leaf(b)
                                        == (arena_top[ia as int].spec_has_leaf(b)
                                        || arena_top[ib as int].spec_has_leaf(b)));
                                } else {
                                    assert(at_top.contains((i, p)));
                                    assert(arena@[i as int] == arena_top[i as int]);
                                }
                            }
                            assert forall|i: u64, p: u64, b: u8|
                                #![trigger now.contains((i, p)), arena@[i as int].spec_leaf_count(b)]
                                now.contains((i, p)) implies arena@[i as int].spec_leaf_count(
                                b,
                            ) <= 1 by {
                                if (i, p) == fresh {
                                    let ca = arena_top[ia as int].spec_leaf_count(b);
                                    let cb = arena_top[ib as int].spec_leaf_count(b);
                                    assert(merged_g.spec_leaf_count(b) == ca + cb);
                                    assert(ca <= 1 && cb <= 1);
                                    if ca == 1 && cb == 1 {
                                        lemma_has_leaf_count(arena_top[ia as int], b);
                                        lemma_has_leaf_count(arena_top[ib as int], b);
                                        assert(false);
                                    }
                                } else {
                                    assert(at_top.contains((i, p)));
                                    assert(arena@[i as int] == arena_top[i as int]);
                                }
                            }
                            assert forall|i: u64, p: u64, i2: u64, p2: u64, b: u8|
                                #![trigger now.contains((i, p)), now.contains((i2, p2)), arena@[i as int].spec_has_leaf(b)]
                                now.contains((i, p)) && now.contains((i2, p2)) && i != i2 implies !(
                            arena@[i as int].spec_has_leaf(b) && arena@[i2 as int].spec_has_leaf(
                                b,
                            )) by {
                                if (i, p) == fresh && (i2, p2) != fresh {
                                    assert(at_top.contains((i2, p2)) && i2 != ia && i2 != ib);
                                    assert(merged_g.spec_has_leaf(b)
                                        == (arena_top[ia as int].spec_has_leaf(b)
                                        || arena_top[ib as int].spec_has_leaf(b)));
                                    assert(arena@[i2 as int] == arena_top[i2 as int]);
                                } else if (i2, p2) == fresh && (i, p) != fresh {
                                    assert(at_top.contains((i, p)) && i != ia && i != ib);
                                    assert(merged_g.spec_has_leaf(b)
                                        == (arena_top[ia as int].spec_has_leaf(b)
                                        || arena_top[ib as int].spec_has_leaf(b)));
                                    assert(arena@[i as int] == arena_top[i as int]);
                                } else if (i, p) != fresh && (i2, p2) != fresh {
                                    assert(at_top.contains((i, p)) && at_top.contains((i2, p2)));
                                    assert(arena@[i as int] == arena_top[i as int]);
                                    assert(arena@[i2 as int] == arena_top[i2 as int]);
                                }
                            }
                            assert forall|b: int|
                                0 <= b < 256 && stats@[b] > 0 implies exists|i: u64, p: u64|
                                    #[trigger] now.contains((i, p))
                                        && arena@[i as int].spec_has_leaf(b as u8) by {
                                let (i, p): (u64, u64) = choose|i: u64, p: u64|
                                    #[trigger] at_top.contains((i, p))
                                        && arena_top[i as int].spec_has_leaf(b as u8);
                                if mid2.contains((i, p)) {
                                    assert(now.contains((i, p)));
                                    assert(arena@[i as int] == arena_top[i as int]);
                                } else {
                                    assert((i, p) == (ia, pa) || (i, p) == (ib, pb));
                                    assert(arena@[j as int].spec_has_leaf(b as u8));
                                    assert(now.contains(fresh));
                                }
                            }
                            let (iw, pw): (u64, u64) = choose|iw: u64, pw: u64|
                                #[trigger] at_top.contains((iw, pw))
                                    && arena_top[iw as int].spec_end_count() == 1
                                    && arena_top[iw as int] is Node && spec_sentinel_pair(
                                    arena_top[iw as int],
                                    gm,
                                ) && (forall|i2: u64, p2: u64|
                                    #[trigger] at_top.contains((i2, p2)) && i2 != iw
                                        ==> arena_top[i2 as int].spec_end_count() == 0);
                            if iw == ia || iw == ib {
                                assert(arena_top[ia as int].spec_end_count() + arena_top[ib as int].spec_end_count()
                                    == 1);
                                assert(merged_g.spec_end_count() == 1);
                                assert(spec_sentinel_pair(merged_g, gm)) by {
                                    assert(left == arena_top[ia as int]);
                                    assert(right == arena_top[ib as int]);
                                }
                                assert(now.contains(fresh) && arena@[j as int].spec_end_count()
                                    == 1 && arena@[j as int] is Node);
                                assert forall|i2: u64, p2: u64|
                                    #[trigger] now.contains((i2, p2)) && i2 != j implies arena@[i2 as int].spec_end_count()
                                    == 0 by {
                                    assert(at_top.contains((i2, p2)) && i2 != ia && i2 != ib);
                                    assert(i2 != iw);
                                    assert(arena@[i2 as int] == arena_top[i2 as int]);
                                }
                            } else {
                                assert(arena_top[ia as int].spec_end_count() == 0
                                    && arena_top[ib as int].spec_end_count() == 0);
                                assert(merged_g.spec_end_count() == 0);
                                assert(mid2.contains((iw, pw))) by {
                                    assert(mid1.count((iw, pw)) == at_top.count((iw, pw)) - (
                                    if (iw, pw) == (ia, pa) {
                                        1int
                                    } else {
                                        0
                                    }));
                                    assert((iw, pw) != (ia, pa) && (iw, pw) != (ib, pb));
                                }
                                assert(now.contains((iw, pw)));
                                assert(arena@[iw as int] == arena_top[iw as int]);
                                assert forall|i2: u64, p2: u64|
                                    #[trigger] now.contains((i2, p2)) && i2 != iw implies arena@[i2 as int].spec_end_count()
                                    == 0 by {
                                    if (i2, p2) == fresh {
                                        assert(arena@[j as int].spec_end_count() == 0);
                                    } else {
                                        assert(at_top.contains((i2, p2)) && i2 != ia && i2 != ib
                                            && i2 != j);
                                        assert(arena@[i2 as int] == arena_top[i2 as int]);
                                    }
                                }
                            }
                        }
                        proof {
                            // Mirror the merge in the ghost forest and chain the
                            // greedy-step implication.
                            let now = dpq_contents(queue);
                            let fresh = (j, prio);
                            let old_f = fcur;
                            let old_i = icur;
                            let ka = choose|k: int|
                                0 <= k < old_i.len() && (#[trigger] old_i[k]) == ia && old_f[k].1
                                    == pa;
                            assert(0 <= ka < old_i.len() && old_i[ka] == ia && old_f[ka].1 == pa);
                            let f1 = old_f.remove(ka);
                            let i1 = old_i.remove(ka);
                            old_f.remove_ensures(ka);
                            old_i.remove_ensures(ka);
                            assert(exists|k: int|
                                0 <= k < i1.len() && (#[trigger] i1[k]) == ib && f1[k].1
                                    == pb) by {
                                let k = choose|k: int|
                                    0 <= k < old_i.len() && (#[trigger] old_i[k]) == ib
                                        && old_f[k].1 == pb;
                                assert(k != ka);
                                if k < ka {
                                    assert(i1[k] == old_i[k] && f1[k] == old_f[k]);
                                } else {
                                    assert(i1[k - 1] == old_i[k] && f1[k - 1] == old_f[k]);
                                }
                            }
                            let kb = choose|k: int|
                                0 <= k < i1.len() && (#[trigger] i1[k]) == ib && f1[k].1 == pb;
                            assert(0 <= kb < i1.len() && i1[kb] == ib && f1[kb].1 == pb);
                            f1.remove_ensures(kb);
                            i1.remove_ensures(kb);
                            fcur = f1.remove(kb).push((merged_g, prio));
                            icur = i1.remove(kb).push(j);
                            // every untouched position maps into the old forest
                            assert forall|k: int|
                                0 <= k < icur.len() - 1 implies exists|ko: int|
                                    0 <= ko < old_i.len() && (#[trigger] icur[k]) == old_i[ko]
                                        && fcur[k] == old_f[ko] && ko != ka && old_i[ko] != ia
                                        && old_i[ko] != ib by {
                                let k1 = if k < kb {
                                    k
                                } else {
                                    k + 1
                                };
                                assert(icur[k] == i1[k1] && fcur[k] == f1[k1]);
                                let ko = if k1 < ka {
                                    k1
                                } else {
                                    k1 + 1
                                };
                                assert(i1[k1] == old_i[ko] && f1[k1] == old_f[ko]);
                                assert(old_i[ko] != old_i[ka]);
                                if old_i[ko] == ib {
                                    assert(i1[k1] == i1[kb]);
                                    if k1 != kb {
                                        let koa = if kb < ka {
                                            kb
                                        } else {
                                            kb + 1
                                        };
                                        assert(i1[kb] == old_i[koa]);
                                        assert(koa != ko);
                                        assert(false);
                                    }
                                    assert(false);
                                }
                            }
                            assert forall|k: int|
                                0 <= k < icur.len() implies (#[trigger] icur[k]) < arena@.len()
                                    && now.contains((icur[k], fcur[k].1)) && arena@[icur[k] as int]
                                    == fcur[k].0 by {
                                if k == icur.len() - 1 {
                                    assert(icur[k] == j && fcur[k] == (merged_g, prio));
                                    assert(now.contains(fresh));
                                } else {
                                    let ko = choose|ko: int|
                                        0 <= ko < old_i.len() && (#[trigger] icur[k]) == old_i[ko]
                                            && fcur[k] == old_f[ko] && ko != ka && old_i[ko] != ia
                                            && old_i[ko] != ib;
                                    assert(at_top.contains((old_i[ko], old_f[ko].1)));
                                    assert((old_i[ko], old_f[ko].1) != (ia, pa));
                                    assert(mid1.contains((old_i[ko], old_f[ko].1)));
                                    assert((old_i[ko], old_f[ko].1) != (ib, pb));
                                    assert(mid2.contains((old_i[ko], old_f[ko].1)));
                                    assert(now.contains((old_i[ko], old_f[ko].1)));
                                    assert(arena@[old_i[ko] as int] == arena_top[old_i[ko] as int]);
                                }
                            }
                            assert forall|k1: int, k2: int|
                                0 <= k1 < icur.len() && 0 <= k2 < icur.len() && k1 != k2 implies (
                            #[trigger] icur[k1]) != (#[trigger] icur[k2]) by {
                                if k1 == icur.len() - 1 && k2 < icur.len() - 1 {
                                    assert(icur[k2] < arena_top.len() && icur[k1] == j);
                                } else if k2 == icur.len() - 1 && k1 < icur.len() - 1 {
                                    assert(icur[k1] < arena_top.len() && icur[k2] == j);
                                } else if k1 < icur.len() - 1 && k2 < icur.len() - 1 {
                                    let ko1 = if (if k1 < kb {
                                        k1
                                    } else {
                                        k1 + 1
                                    }) < ka {
                                        if k1 < kb {
                                            k1
                                        } else {
                                            k1 + 1
                                        }
                                    } else {
                                        (if k1 < kb {
                                            k1
                                        } else {
                                            k1 + 1
                                        }) + 1
                                    };
                                    let ko2 = if (if k2 < kb {
                                        k2
                                    } else {
                                        k2 + 1
                                    }) < ka {
                                        if k2 < kb {
                                            k2
                                        } else {
                                            k2 + 1
                                        }
                                    } else {
                                        (if k2 < kb {
                                            k2
                                        } else {
                                            k2 + 1
                                        }) + 1
                                    };
                                    assert(icur[k1] == old_i[ko1] && icur[k2] == old_i[ko2]);
                                    assert(ko1 != ko2);
                                }
                            }
                            assert forall|i: u64, p: u64|
                                #[trigger] now.contains((i, p)) implies exists|k: int|
                                    0 <= k < icur.len() && (#[trigger] icur[k]) == i && fcur[k].1
                                        == p by {
                                if (i, p) == fresh {
                                    assert(icur[icur.len() - 1] == i && fcur[fcur.len() - 1].1
                                        == p);
                                } else {
                                    assert(mid2.contains((i, p)));
                                    assert(mid1.contains((i, p)));
                                    assert(at_top.contains((i, p)));
                                    assert(i != ia && i != ib);
                                    let ko = choose|ko: int|
                                        0 <= ko < old_i.len() && (#[trigger] old_i[ko]) == i
                                            && old_f[ko].1 == p;
                                    assert(ko != ka);
                                    let k1 = if ko < ka {
                                        ko
                                    } else {
                                        ko - 1
                                    };
                                    assert(i1[k1] == old_i[ko] && f1[k1] == old_f[ko]);
                                    assert(k1 != kb);
                                    let k2 = if k1 < kb {
                                        k1
                                    } else {
                                        k1 - 1
                                    };
                                    assert(icur[k2] == i1[k1] && fcur[k2] == f1[k1]);
                                }
                            }
                            // the exec merge is one greedy spec step
                            assert(old_f[ka].0 == arena_top[ia as int]);
                            assert(f1[kb].0 == arena_top[ib as int]) by {
                                let koa = if kb < ka {
                                    kb
                                } else {
                                    kb + 1
                                };
                                assert(f1[kb] == old_f[koa] && i1[kb] == old_i[koa]);
                            }
                            assert(prio == spec_weight_add(pa, pb));
                            assert forall|c: int|
                                0 <= c < old_f.len() implies old_f[ka].1 <= (
                            #[trigger] old_f[c]).1 by {
                                assert(at_top.contains((old_i[c], old_f[c].1)));
                            }
                            assert forall|c: int|
                                0 <= c < f1.len() implies f1[kb].1 <= (#[trigger] f1[c]).1 by {
                                let ko = if c < ka {
                                    c
                                } else {
                                    c + 1
                                };
                                assert(f1[c] == old_f[ko] && i1[c] == old_i[ko]);
                                assert(at_top.contains((old_i[ko], old_f[ko].1)));
                                assert(old_i[ko] != ia);
                                assert(mid1.contains((old_i[ko], old_f[ko].1)));
                            }
                            assert(old_f.remove(ka).remove(kb).push(
                                (
                                    HuffmanTree::Node(
                                        Box::new(old_f[ka].0),
                                        Box::new(old_f.remove(ka)[kb].0),
                                    ),
                                    spec_weight_add(old_f[ka].1, old_f.remove(ka)[kb].1),
                                ),
                            ) =~= fcur);
                            assert forall|x: HuffmanTree|
                                #[trigger] spec_merge_steps(fcur, x) implies spec_merge_steps(
                                fseq0,
                                x,
                            ) by {
                                reveal(spec_merge_steps);
                                assert(old_f.len() >= 2);
                                assert(spec_merge_steps(old_f, x));
                            }
                        }
                    },
                    _ => {
                        proof {
                            assert(at_top.len() > 1);
                            assert(pop0 is Some);
                            assert(mid1.len() >= 1);
                            assert(false);
                        }
                    },
                }
            }

            let ghost final_contents = dpq_contents(queue);
            let last = dpq_pop_min(&mut queue);
            match last {
                Some(pair_r) => {
                    let (ir, pr) = (pair_r.0, pair_r.1);
                    proof {
                        assert(final_contents.len() == 1);
                        assert(final_contents.contains((ir, pr)));
                        let (iw, pw): (u64, u64) = choose|iw: u64, pw: u64|
                            #[trigger] final_contents.contains((iw, pw))
                                && arena@[iw as int].spec_end_count() == 1
                                && arena@[iw as int] is Node && spec_sentinel_pair(
                                arena@[iw as int],
                                gm,
                            );
                        lemma_singleton_same(final_contents, (ir, pr), (iw, pw));
                        assert((ir, pr) == (iw, pw));
                        assert(ir == iw);
                        assert(arena@[ir as int] is Node);
                        assert(arena@[ir as int].spec_end_count() == 1);
                        assert(ir < arena@.len());
                        assert forall|b: u8| stats@[b as int] > 0 implies arena@[ir as int].spec_has_leaf(
                            b,
                        ) by {
                            let (i, p): (u64, u64) = choose|i: u64, p: u64|
                                #[trigger] final_contents.contains((i, p))
                                    && arena@[i as int].spec_has_leaf(b);
                            lemma_singleton_same(final_contents, (ir, pr), (i, p));
                        }
                    }
                    let root_ref = vstd::std_specs::vec::vec_index(&arena, ir as usize);
                    proof {
                        assert(*root_ref == arena@[ir as int]);
                    }
                    let root = root_ref.duplicate();
                    proof {
                        // the single forest entry is the root: the greedy trace ends here
                        assert(fcur.len() == 1);
                        let kf = choose|k: int|
                            0 <= k < icur.len() && (#[trigger] icur[k]) == ir && fcur[k].1 == pr;
                        assert(kf == 0);
                        assert(fcur[0].0 == arena@[ir as int]);
                        assert(spec_merge_steps(fcur, root)) by {
                            reveal(spec_merge_steps);
                        }
                        assert(spec_merge_steps(fseq0, root));
                        assert(spec_merge_steps(
                            finit.update(
                                k0,
                                (
                                    HuffmanTree::Node(
                                        Box::new(finit[k0].0),
                                        Box::new(HuffmanTree::End),
                                    ),
                                    finit[k0].1,
                                ),
                            ),
                            root,
                        ));
                        assert(exists|b: int| 0 <= b < 256 && stats@[b] > 0);
                        assert(root is Node);
                        assert(root.spec_end_count() == 1);
                        lemma_has_end_count(root);
                        assert(root.spec_has_end());
                        assert(forall|b: u8| stats@[b as int] > 0 ==> root.spec_has_leaf(b));
                        assert forall|b: u8| root.spec_leaf_count(b) == (if stats@[b as int] > 0 {
                            1nat
                        } else {
                            0
                        }) by {
                            lemma_has_leaf_count(root, b);
                            assert(root.spec_leaf_count(b) <= 1);
                            if stats@[b as int] > 0 {
                                assert(root.spec_has_leaf(b));
                            } else {
                                if root.spec_has_leaf(b) {
                                    assert(stats@[b as int] > 0);
                                }
                            }
                        }
                        assert(spec_sentinel_pair(root, gm));
                        assert(stats@[gm as int] > 0);
                        assert(forall|b: u8|
                            stats@[b as int] > 0 ==> stats@[gm as int] <= stats@[b as int]);
                        lemma_tree_shape(root);
                        lemma_leaf_total_kinds(root);
                        lemma_kinds_match_distinct(root, stats@, 256);
                        assert(root.spec_leaf_total() == spec_distinct_count(stats@, 256));
                        assert(root.spec_size() == 2 * spec_distinct_count(stats@, 256) + 1);
                        assert(root.spec_height() <= spec_distinct_count(stats@, 256));
                    }
                    Ok(root)
                },
                None => {
                    proof {
                        assert(false);
                    }
                    Err(LizardError::EmptyModel)
                },
            }
        },
    }
}

/// The sentinel occurs exactly when its count is positive.
pub proof fn lemma_has_end_count(t: HuffmanTree)
    ensures
        t.spec_has_end() <==> t.spec_end_count() >= 1,
    decreases t,
{
    match t {
        HuffmanTree::Node(l, r) => {
            lemma_has_end_count(*l);
            lemma_has_end_count(*r);
        },
        _ => {},
    }
}


/// One code as text: its bits as `0`/`1` digits, first-assigned first.
pub open spec fn spec_bits01(b: Bits) -> Seq<u8> {
    Seq::new(b.bit_size as nat, |i: int| if b.view()[i] {
        49u8
    } else {
        48u8
    })
}

/// Appends the `0`/`1` digits of one code.
fn push_bits01(code: &Bits, out: &mut Vec<u8>)
    requires
        code.wf(),
    ensures
        final(out)@ == old(out)@ + spec_bits01(*code),
{
    let mut k: usize = 0;
    while k < code.bit_size
        invariant
            k <= code.bit_size,
            code.wf(),
            out@ == old(out)@ + spec_bits01(*code).take(k as int),
        decreases code.bit_size - k,
    {
        let p = pow2_u64(code.bit_size - 1 - k);
        let digit: u8 = if (code.set_bits / p) % 2 == 1 {
            49
        } else {
            48
        };
        proof {
            assert(digit == spec_bits01(*code)[k as int]);
            assert((old(out)@ + spec_bits01(*code).take(k as int)).push(digit) =~= old(out)@
                + spec_bits01(*code).take(k as int + 1));
        }
        out.push(digit);
        k = k + 1;
    }
    proof {
        assert(spec_bits01(*code).take(code.bit_size as int) =~= spec_bits01(*code));
    }
}

/// The transcript line for one byte's code: `Val : {byte} -> {bits}`
/// and a line break; bytes without a code leave no line.
pub open spec fn spec_code_line(cm: CodeMap, b: int) -> Seq<u8> {
    match cm.codes[b] {
        None => Seq::empty(),
        Some(code) => seq![86u8, 97u8, 108u8, 32u8, 58u8, 32u8] + crate::helpers::spec_dec_bytes(
            b,
        ) + seq![32u8, 45u8, 62u8, 32u8] + spec_bits01(code) + seq![10u8],
    }
}

/// The transcript lines for every byte value below `upto`, in order.
pub open spec fn spec_code_lines(cm: CodeMap, upto: int) -> Seq<u8>
    decreases upto,
{
    if upto <= 0 {
        Seq::empty()
    } else {
        spec_code_lines(cm, upto - 1) + spec_code_line(cm, upto - 1)
    }
}

/// The whole code map as text: one line per coded byte, then the end
/// code on an `END: ` line.
pub open spec fn spec_code_map_debug(cm: CodeMap) -> Seq<u8> {
    spec_code_lines(cm, 256) + seq![69u8, 78u8, 68u8, 58u8, 32u8] + spec_bits01(cm.end_code)
}

/// Everything the code map transcript holds is ASCII.
proof fn lemma_code_lines_ascii(cm: CodeMap, upto: int)
    requires
        upto <= 256,
    ensures
        forall|i: int|
            0 <= i < spec_code_lines(cm, upto).len() ==> (#[trigger] spec_code_lines(cm, upto)[i])
                < 128,
    decreases upto,
{
    if upto > 0 {
        lemma_code_lines_ascii(cm, upto - 1);
        lemma_dec_bytes_ascii(upto - 1);
        let line = spec_code_line(cm, upto - 1);
        assert forall|i: int| 0 <= i < line.len() implies (#[trigger] line[i]) < 128 by {
            match cm.codes[upto - 1] {
                None => {},
                Some(code) => {
                    let pre = seq![86u8, 97u8, 108u8, 32u8, 58u8, 32u8];
                    let dec = crate::helpers::spec_dec_bytes(upto - 1);
                    let arrow = seq![32u8, 45u8, 62u8, 32u8];
                    let bits = spec_bits01(code);
                    if i < pre.len() {
                    } else if i < pre.len() + dec.len() {
                        assert(line[i] == dec[i - pre.len()]);
                    } else if i < pre.len() + dec.len() + arrow.len() {
                        assert(line[i] == arrow[i - pre.len() - dec.len()]);
                    } else if i < pre.len() + dec.len() + arrow.len() + bits.len() {
                        assert(line[i] == bits[i - pre.len() - dec.len() - arrow.len()]);
                        assert(bits[i - pre.len() - dec.len() - arrow.len()] == 48 || bits[i
                            - pre.len() - dec.len() - arrow.len()] == 49);
                    } else {
                        assert(line[i] == 10);
                    }
                },
            }
        }
        let pre_lines = spec_code_lines(cm, upto - 1);
        assert forall|i: int|
            0 <= i < spec_code_lines(cm, upto).len() implies (#[trigger] spec_code_lines(
            cm,
            upto,
        )[i]) < 128 by {
            if i < pre_lines.len() {
                assert(spec_code_lines(cm, upto)[i] == pre_lines[i]);
            } else {
                assert(spec_code_lines(cm, upto)[i] == line[i - pre_lines.len()]);
            }
        }
    }
}

/// Decimal digits are ASCII.
proof fn lemma_dec_bytes_ascii(n: int)
    ensures
        forall|i: int|
            0 <= i < crate::helpers::spec_dec_bytes(n).len() ==> (
            #[trigger] crate::helpers::spec_dec_bytes(n)[i]) < 128,
    decreases n,
{
    if n >= 10 {
        lemma_dec_bytes_ascii(n / 10);
        let pre = crate::helpers::spec_dec_bytes(n / 10);
        let digit = seq![(48 + n % 10) as u8];
        assert forall|i: int|
            0 <= i < crate::helpers::spec_dec_bytes(n).len() implies (
        #[trigger] crate::helpers::spec_dec_bytes(n)[i]) < 128 by {
            if i < pre.len() {
                assert(crate::helpers::spec_dec_bytes(n)[i] == pre[i]);
            } else {
                assert(crate::helpers::spec_dec_bytes(n)[i] == digit[i - pre.len()]);
                assert(0 <= n % 10 < 10);
            }
        }
    } else if 0 <= n {
        assert(crate::helpers::spec_dec_bytes(n) =~= seq![(48 + n) as u8]);
        assert(crate::helpers::spec_dec_bytes(n)[0] < 128);
    }
}

impl CodeMap {
    /// Renders the whole map for the debug transcript: one line per
    /// coded byte, then the end-of-block code.
    pub fn to_debug_string(&self) -> (r: String)
        requires
            self.wf(),
        ensures
            r@ == crate::helpers::ascii_chars(spec_code_map_debug(*self)),
    {
        let mut out: Vec<u8> = Vec::new();
        let mut b: usize = 0;
        while b < 256
            invariant
                b <= 256,
                self.wf(),
                out@ == spec_code_lines(*self, b as int),
            decreases 256 - b,
        {
            match self.codes[b] {
                None => {
                    proof {
                        assert(out@ + spec_code_line(*self, b as int) =~= out@);
                    }
                },
                Some(code) => {
                    let ghost mark = out@;
                    out.push(86);
                    out.push(97);
                    out.push(108);
                    out.push(32);
                    out.push(58);
                    out.push(32);
                    crate::helpers::push_dec(b as u64, &mut out);
                    out.push(32);
                    out.push(45);
                    out.push(62);
                    out.push(32);
                    push_bits01(&code, &mut out);
                    out.push(10);
                    proof {
                        assert(out@ =~= mark + spec_code_line(*self, b as int));
                    }
                },
            }
            b = b + 1;
        }
        out.push(69);
        out.push(78);
        out.push(68);
        out.push(58);
        out.push(32);
        push_bits01(&self.end_code, &mut out);
        proof {
            assert(out@ =~= spec_code_map_debug(*self));
            lemma_code_lines_ascii(*self, 256);
            assert forall|i: int| 0 <= i < out@.len() implies out@[i] < 128 by {
                let lines = spec_code_lines(*self, 256);
                let tag = seq![69u8, 78u8, 68u8, 58u8, 32u8];
                let bits = spec_bits01(self.end_code);
                if i < lines.len() {
                    assert(out@[i] == lines[i]);
                } else if i < lines.len() + tag.len() {
                    assert(out@[i] == tag[i - lines.len()]);
                } else {
                    assert(out@[i] == bits[i - lines.len() - tag.len()]);
                    assert(bits[i - lines.len() - tag.len()] == 48 || bits[i - lines.len()
                        - tag.len()] == 49);
                }
            }
        }
        crate::helpers::ascii_to_string(&out)
    }
}

/// The label text for a leaf's byte: the character itself when it is
/// printable (line breaks spelled out, quotes and backslashes left
/// blank), then a space and the byte in `0b`-prefixed binary.
pub open spec fn spec_dot_label(v: u8) -> Seq<u8> {
    (if v == 10 {
        seq![92u8, 110u8]
    } else if v == 13 {
        seq![92u8, 114u8]
    } else if 32 <= v < 127 && v != 34 && v != 92 {
        seq![v]
    } else {
        Seq::<u8>::empty()
    }) + seq![32u8, 48u8, 98u8] + crate::helpers::spec_bin_bytes(v)
}

/// The next node number, stopping rather than wrapping at the top.
pub open spec fn spec_ctr_next(ctr: u64) -> u64 {
    if ctr == u64::MAX {
        ctr
    } else {
        (ctr + 1) as u64
    }
}

/// A node's name in the graph: `node` and its number.
pub open spec fn spec_dot_id(ctr: u64) -> Seq<u8> {
    seq![110u8, 111u8, 100u8, 101u8] + crate::helpers::spec_dec_bytes(ctr as int)
}

/// One walk step of the graph rendering: the node lines and edge lines
/// this subtree contributes, and the next free node number. Each node
/// is declared with its label; each edge from its parent carries a `0`
/// for a left descent or a `1` for a right one.
pub open spec fn spec_dot_walk(node: HuffmanTree, parent: Seq<u8>, ctr: u64, is_left: bool) -> (
    Seq<u8>,
    Seq<u8>,
    u64,
)
    decreases node,
{
    let this_id = spec_dot_id(ctr);
    let rel = parent + seq![32u8, 45u8, 62u8, 32u8] + this_id + seq![
        32u8,
        91u8,
        108u8,
        97u8,
        98u8,
        101u8,
        108u8,
        61u8,
        34u8,
    ] + seq![if is_left {
        48u8
    } else {
        49u8
    }] + seq![34u8, 93u8, 59u8, 10u8];
    let open_label = seq![32u8, 91u8, 108u8, 97u8, 98u8, 101u8, 108u8, 32u8, 61u8, 32u8, 34u8];
    let close_label = seq![34u8, 93u8, 59u8, 10u8];
    match node {
        HuffmanTree::Leaf(v) => (this_id + open_label + spec_dot_label(v) + close_label, rel, spec_ctr_next(ctr)),
        HuffmanTree::End => (
            this_id + open_label + seq![69u8, 78u8, 68u8] + close_label,
            rel,
            spec_ctr_next(ctr),
        ),
        HuffmanTree::Node(l, r) => {
            let own = this_id + open_label + close_label;
            let lw = spec_dot_walk(*l, this_id, spec_ctr_next(ctr), true);
            let rw = spec_dot_walk(*r, this_id, lw.2, false);
            (own + lw.0 + rw.0, rel + lw.1 + rw.1, rw.2)
        },
    }
}

/// The whole graph: a `digraph` wrapper around the node and edge lines
/// of the root's two subtrees, hung under an undeclared `node0`. A
/// root with no fork contributes nothing, as there is no edge to draw.
pub open spec fn spec_to_dot(t: HuffmanTree) -> Seq<u8> {
    let header = seq![
        100u8, 105u8, 103u8, 114u8, 97u8, 112u8, 104u8, 32u8, 71u8, 32u8, 123u8, 10u8, 10u8,
    ];
    match t {
        HuffmanTree::Node(l, r) => {
            let root_id = seq![110u8, 111u8, 100u8, 101u8, 48u8];
            let lw = spec_dot_walk(*l, root_id, 1, true);
            let rw = spec_dot_walk(*r, root_id, lw.2, false);
            header + (lw.0 + rw.0) + seq![10u8] + (lw.1 + rw.1) + seq![125u8]
        },
        _ => header + seq![10u8] + seq![125u8],
    }
}

/// Every byte the walk renders is ASCII.
proof fn lemma_dot_walk_ascii(node: HuffmanTree, parent: Seq<u8>, ctr: u64, is_left: bool)
    requires
        crate::helpers::all_ascii(parent),
    ensures
        crate::helpers::all_ascii(spec_dot_walk(node, parent, ctr, is_left).0),
        crate::helpers::all_ascii(spec_dot_walk(node, parent, ctr, is_left).1),
    decreases node,
{
    crate::helpers::lemma_dec_ascii(ctr as int);
    let this_id = spec_dot_id(ctr);
    let four = seq![110u8, 111u8, 100u8, 101u8];
    assert(crate::helpers::all_ascii(four)) by {
        assert(forall|i: int| 0 <= i < 4 ==> #[trigger] four[i] < 128);
    }
    crate::helpers::lemma_concat_ascii(four, crate::helpers::spec_dec_bytes(ctr as int));
    assert(crate::helpers::all_ascii(this_id));
    let arrow = seq![32u8, 45u8, 62u8, 32u8];
    let open_rel = seq![32u8, 91u8, 108u8, 97u8, 98u8, 101u8, 108u8, 61u8, 34u8];
    let bit = seq![if is_left {
        48u8
    } else {
        49u8
    }];
    let close = seq![34u8, 93u8, 59u8, 10u8];
    let open_label = seq![32u8, 91u8, 108u8, 97u8, 98u8, 101u8, 108u8, 32u8, 61u8, 32u8, 34u8];
    assert(crate::helpers::all_ascii(arrow) && crate::helpers::all_ascii(open_rel)
        && crate::helpers::all_ascii(bit) && crate::helpers::all_ascii(close)
        && crate::helpers::all_ascii(open_label)) by {
        assert(forall|i: int| 0 <= i < 4 ==> #[trigger] arrow[i] < 128);
        assert(forall|i: int| 0 <= i < 9 ==> #[trigger] open_rel[i] < 128);
        assert(bit[0] < 128);
        assert(forall|i: int| 0 <= i < 4 ==> #[trigger] close[i] < 128);
        assert(forall|i: int| 0 <= i < 11 ==> #[trigger] open_label[i] < 128);
    }
    crate::helpers::lemma_concat_ascii(parent, arrow);
    crate::helpers::lemma_concat_ascii(parent + arrow, this_id);
    crate::helpers::lemma_concat_ascii(parent + arrow + this_id, open_rel);
    crate::helpers::lemma_concat_ascii(parent + arrow + this_id + open_rel, bit);
    crate::helpers::lemma_concat_ascii(parent + arrow + this_id + open_rel + bit, close);
    match node {
        HuffmanTree::Leaf(v) => {
            crate::helpers::lemma_bin_bytes_ascii(v);
            let chpart = if v == 10 {
                seq![92u8, 110u8]
            } else if v == 13 {
                seq![92u8, 114u8]
            } else if 32 <= v < 127 && v != 34 && v != 92 {
                seq![v]
            } else {
                Seq::<u8>::empty()
            };
            assert(crate::helpers::all_ascii(chpart)) by {
                assert(forall|i: int| 0 <= i < chpart.len() ==> #[trigger] chpart[i] < 128);
            }
            let prefix = seq![32u8, 48u8, 98u8];
            assert(crate::helpers::all_ascii(prefix)) by {
                assert(forall|i: int| 0 <= i < 3 ==> #[trigger] prefix[i] < 128);
            }
            crate::helpers::lemma_concat_ascii(chpart, prefix);
            crate::helpers::lemma_concat_ascii(chpart + prefix, crate::helpers::spec_bin_bytes(v));
            crate::helpers::lemma_concat_ascii(this_id, open_label);
            crate::helpers::lemma_concat_ascii(this_id + open_label, spec_dot_label(v));
            crate::helpers::lemma_concat_ascii(this_id + open_label + spec_dot_label(v), close);
        },
        HuffmanTree::End => {
            let end_txt = seq![69u8, 78u8, 68u8];
            assert(crate::helpers::all_ascii(end_txt)) by {
                assert(forall|i: int| 0 <= i < 3 ==> #[trigger] end_txt[i] < 128);
            }
            crate::helpers::lemma_concat_ascii(this_id, open_label);
            crate::helpers::lemma_concat_ascii(this_id + open_label, end_txt);
            crate::helpers::lemma_concat_ascii(this_id + open_label + end_txt, close);
        },
        HuffmanTree::Node(l, r) => {
            crate::helpers::lemma_concat_ascii(this_id, open_label);
            crate::helpers::lemma_concat_ascii(this_id + open_label, close);
            lemma_dot_walk_ascii(*l, this_id, spec_ctr_next(ctr), true);
            let lw = spec_dot_walk(*l, this_id, spec_ctr_next(ctr), true);
            lemma_dot_walk_ascii(*r, this_id, lw.2, false);
            let rw = spec_dot_walk(*r, this_id, lw.2, false);
            let own = this_id + open_label + close;
            crate::helpers::lemma_concat_ascii(own, lw.0);
            crate::helpers::lemma_concat_ascii(own + lw.0, rw.0);
            let rel = parent + arrow + this_id + open_rel + bit + close;
            crate::helpers::lemma_concat_ascii(rel, lw.1);
            crate::helpers::lemma_concat_ascii(rel + lw.1, rw.1);
        },
    }
}

impl HuffmanTree {
    /// Renders the tree as a dot graph for the debug transcript: one
    /// declared node per tree node, each edge labelled with the bit it
    /// stands for.
    pub fn to_dot(&self) -> (r: String)
        ensures
            r@ == crate::helpers::ascii_chars(spec_to_dot(*self)),
    {
        let bytes = self.dot_bytes();
        crate::helpers::ascii_to_string(&bytes)
    }

    /// The dot graph as its ASCII bytes.
    pub(crate) fn dot_bytes(&self) -> (r: Vec<u8>)
        ensures
            r@ == spec_to_dot(*self),
            crate::helpers::all_ascii(r@),
    {
        let mut nodes: Vec<u8> = Vec::new();
        let mut relationships: Vec<u8> = Vec::new();
        match self {
            HuffmanTree::Node(l, r) => {
                let mut root_id: Vec<u8> = Vec::new();
                root_id.push(110);
                root_id.push(111);
                root_id.push(100);
                root_id.push(101);
                root_id.push(48);
                proof {
                    assert(root_id@ =~= seq![110u8, 111u8, 100u8, 101u8, 48u8]);
                }
                let c1 = dot_walk(l, &root_id, 1, true, &mut nodes, &mut relationships);
                dot_walk(r, &root_id, c1, false, &mut nodes, &mut relationships);
            },
            _ => {},
        }
        let mut out: Vec<u8> = Vec::new();
        out.push(100);
        out.push(105);
        out.push(103);
        out.push(114);
        out.push(97);
        out.push(112);
        out.push(104);
        out.push(32);
        out.push(71);
        out.push(32);
        out.push(123);
        out.push(10);
        out.push(10);
        crate::helpers::push_range(&mut out, &nodes, 0, nodes.len());
        out.push(10);
        crate::helpers::push_range(&mut out, &relationships, 0, relationships.len());
        out.push(125);
        proof {
            assert(nodes@.subrange(0, nodes@.len() as int) =~= nodes@);
            assert(relationships@.subrange(0, relationships@.len() as int) =~= relationships@);
            assert(out@ =~= spec_to_dot(*self));
            match self {
                HuffmanTree::Node(l, r) => {
                    let root_id = seq![110u8, 111u8, 100u8, 101u8, 48u8];
                    lemma_dot_walk_ascii(**l, root_id, 1, true);
                    let lw = spec_dot_walk(**l, root_id, 1, true);
                    lemma_dot_walk_ascii(**r, root_id, lw.2, false);
                },
                _ => {},
            }
            assert(forall|i: int| 0 <= i < out@.len() ==> #[trigger] out@[i] < 128);
        }
        out
    }
}

/// Appends a node's name: `node` and its number.
fn push_dot_id(ctr: u64, out: &mut Vec<u8>)
    ensures
        final(out)@ == old(out)@ + spec_dot_id(ctr),
{
    out.push(110);
    out.push(111);
    out.push(100);
    out.push(101);
    crate::helpers::push_dec(ctr, out);
    proof {
        assert(out@ =~= old(out)@ + spec_dot_id(ctr));
    }
}

/// Appends one edge line: parent to child, labelled with its bit.
fn push_rel_line(parent: &Vec<u8>, this_id: &Vec<u8>, is_left: bool, out: &mut Vec<u8>)
    ensures
        final(out)@ == old(out)@ + (parent@ + seq![32u8, 45u8, 62u8, 32u8] + this_id@ + seq![
            32u8,
            91u8,
            108u8,
            97u8,
            98u8,
            101u8,
            108u8,
            61u8,
            34u8,
        ] + seq![
            if is_left {
                48u8
            } else {
                49u8
            },
        ] + seq![34u8, 93u8, 59u8, 10u8]),
{
    crate::helpers::push_range(out, parent, 0, parent.len());
    out.push(32);
    out.push(45);
    out.push(62);
    out.push(32);
    crate::helpers::push_range(out, this_id, 0, this_id.len());
    out.push(32);
    out.push(91);
    out.push(108);
    out.push(97);
    out.push(98);
    out.push(101);
    out.push(108);
    out.push(61);
    out.push(34);
    out.push(if is_left {
        48
    } else {
        49
    });
    out.push(34);
    out.push(93);
    out.push(59);
    out.push(10);
    proof {
        assert(parent@.subrange(0, parent@.len() as int) =~= parent@);
        assert(this_id@.subrange(0, this_id@.len() as int) =~= this_id@);
        assert(out@ =~= old(out)@ + (parent@ + seq![32u8, 45u8, 62u8, 32u8] + this_id@ + seq![
            32u8,
            91u8,
            108u8,
            97u8,
            98u8,
            101u8,
            108u8,
            61u8,
            34u8,
        ] + seq![
            if is_left {
                48u8
            } else {
                49u8
            },
        ] + seq![34u8, 93u8, 59u8, 10u8]));
    }
}

/// Appends the opening of a node line: its name and ` [label = "`.
fn push_node_open(this_id: &Vec<u8>, out: &mut Vec<u8>)
    ensures
        final(out)@ == old(out)@ + (this_id@ + seq![
            32u8,
            91u8,
            108u8,
            97u8,
            98u8,
            101u8,
            108u8,
            32u8,
            61u8,
            32u8,
            34u8,
        ]),
{
    crate::helpers::push_range(out, this_id, 0, this_id.len());
    out.push(32);
    out.push(91);
    out.push(108);
    out.push(97);
    out.push(98);
    out.push(101);
    out.push(108);
    out.push(32);
    out.push(61);
    out.push(32);
    out.push(34);
    proof {
        assert(this_id@.subrange(0, this_id@.len() as int) =~= this_id@);
        assert(out@ =~= old(out)@ + (this_id@ + seq![
            32u8,
            91u8,
            108u8,
            97u8,
            98u8,
            101u8,
            108u8,
            32u8,
            61u8,
            32u8,
            34u8,
        ]));
    }
}

/// Appends the closing of a node or edge line: `"];` and a line break.
fn push_label_close(out: &mut Vec<u8>)
    ensures
        final(out)@ == old(out)@ + seq![34u8, 93u8, 59u8, 10u8],
{
    out.push(34);
    out.push(93);
    out.push(59);
    out.push(10);
    proof {
        assert(out@ =~= old(out)@ + seq![34u8, 93u8, 59u8, 10u8]);
    }
}

/// Appends a leaf's label text.
fn push_dot_label(v: u8, out: &mut Vec<u8>)
    ensures
        final(out)@ == old(out)@ + spec_dot_label(v),
{
    if v == 10 {
        out.push(92);
        out.push(110);
    } else if v == 13 {
        out.push(92);
        out.push(114);
    } else if 32 <= v && v < 127 && v != 34 && v != 92 {
        out.push(v);
    }
    out.push(32);
    out.push(48);
    out.push(98);
    crate::helpers::push_bin(v, out);
    proof {
        assert(out@ =~= old(out)@ + spec_dot_label(v));
    }
}

/// Appends one subtree's node and edge lines, handing back the next
/// free node number.
#[verifier::rlimit(100)]
#[verifier::spinoff_prover]
fn dot_walk(
    node: &HuffmanTree,
    parent: &Vec<u8>,
    ctr: u64,
    is_left: bool,
    nodes: &mut Vec<u8>,
    relationships: &mut Vec<u8>,
) -> (r: u64)
    ensures
        ({
            let w = spec_dot_walk(*node, parent@, ctr, is_left);
            &&& final(nodes)@ == old(nodes)@ + w.0
            &&& final(relationships)@ == old(relationships)@ + w.1
            &&& r == w.2
        }),
    decreases node,
{
    let mut this_id: Vec<u8> = Vec::new();
    push_dot_id(ctr, &mut this_id);
    proof {
        assert(this_id@ =~= spec_dot_id(ctr));
    }
    let next_ctr: u64 = if ctr == u64::MAX {
        ctr
    } else {
        ctr + 1
    };
    push_rel_line(parent, &this_id, is_left, relationships);
    push_node_open(&this_id, nodes);
    match node {
        HuffmanTree::Leaf(v) => {
            push_dot_label(*v, nodes);
            push_label_close(nodes);
            proof {
                assert(nodes@ =~= old(nodes)@ + spec_dot_walk(*node, parent@, ctr, is_left).0);
            }
            next_ctr
        },
        HuffmanTree::End => {
            nodes.push(69);
            nodes.push(78);
            nodes.push(68);
            push_label_close(nodes);
            proof {
                assert(nodes@ =~= old(nodes)@ + spec_dot_walk(*node, parent@, ctr, is_left).0);
            }
            next_ctr
        },
        HuffmanTree::Node(l, r) => {
            push_label_close(nodes);
            let c1 = dot_walk(l, &this_id, next_ctr, true, nodes, relationships);
            let c2 = dot_walk(r, &this_id, c1, false, nodes, relationships);
            proof {
                let w = spec_dot_walk(*node, parent@, ctr, is_left);
                assert(nodes@ =~= old(nodes)@ + w.0);
                assert(relationships@ =~= old(relationships)@ + w.1);
            }
            c2
        },
    }
}

} // verus!
