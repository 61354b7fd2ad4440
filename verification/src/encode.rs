//! The encoder: a greedy match finder over the lookback window, the
//! window-stepping glue, and the orchestration that turns an input byte
//! string into container bytes.

use std::collections::VecDeque;

use vstd::prelude::*;

use crate::error::LizardError;
use crate::header::{spec_header_bytes, spec_tree_bytes, Header};
use crate::huffman::{build_tree, spec_pack, tree_to_code_map, ByteStats, CodeMap};
use crate::output_stream::{spec_add_value, spec_add_values, spec_chunked, spec_serialize};
use crate::offset_len::OffsetLen;
use crate::output_stream::OutputStream;
use crate::{EncodedValue, MAX_READ_BUFFER_LEN, MIN_MATCH_SIZE};

verus! {

/// The greedy left-to-right scan of the lookback window: a run grows
/// while consecutive window bytes match the pending bytes from its
/// front, resets on a mismatch, and the first longest run wins. Each
/// step looks at window position `i` with a current run of `cur_len`
/// bytes starting at `cur_start`.
pub open spec fn spec_scan(
    lb: Seq<u8>,
    rd: Seq<u8>,
    i: int,
    cur_start: int,
    cur_len: int,
    best: Option<(int, int)>,
) -> Option<(int, int)>
    decreases lb.len() - i,
{
    if i < 0 || i >= lb.len() {
        best
    } else if cur_len < rd.len() {
        if lb[i] == rd[cur_len] {
            let ns = if cur_len == 0 {
                i
            } else {
                cur_start
            };
            let nl = cur_len + 1;
            let nb = match best {
                None => Some((ns, nl)),
                Some(b) => if nl > b.1 {
                    Some((ns, nl))
                } else {
                    best
                },
            };
            spec_scan(lb, rd, i + 1, ns, nl, nb)
        } else {
            spec_scan(lb, rd, i + 1, 0, 0, best)
        }
    } else {
        spec_scan(lb, rd, i + 1, cur_start, cur_len, best)
    }
}

/// What the finder proposes: the scan's best run, or nothing when no
/// matching is asked for.
pub open spec fn spec_find_match(lb: Seq<u8>, rd: Seq<u8>, no_matching: bool) -> Option<(int, int)> {
    if no_matching {
        None
    } else {
        spec_scan(lb, rd, 0, 0, 0, None)
    }
}

/// A proposed run is sound: it starts and ends inside the lookback
/// window, is nonempty, no longer than the pending bytes, and its
/// window bytes equal the pending bytes it stands for.
pub open spec fn spec_run_ok(lb: Seq<u8>, rd: Seq<u8>, b: (int, int)) -> bool {
    &&& 0 <= b.0
    &&& b.0 + b.1 <= lb.len()
    &&& 1 <= b.1 <= rd.len()
    &&& lb.subrange(b.0, b.0 + b.1) == rd.take(b.1)
}

/// Law: the match finder is safe. Whatever run the scan settles on lies
/// entirely inside the lookback window — never inside the pending
/// bytes — and copies exactly the pending bytes it claims to.
pub proof fn lemma_scan_valid(
    lb: Seq<u8>,
    rd: Seq<u8>,
    i: int,
    cur_start: int,
    cur_len: int,
    best: Option<(int, int)>,
)
    requires
        0 <= i <= lb.len(),
        0 <= cur_len <= rd.len(),
        0 <= cur_start,
        cur_start + cur_len <= lb.len(),
        cur_len > 0 && cur_len < rd.len() ==> cur_start + cur_len == i,
        lb.subrange(cur_start, cur_start + cur_len) == rd.take(cur_len),
        best is Some ==> spec_run_ok(lb, rd, best->0),
    ensures
        spec_scan(lb, rd, i, cur_start, cur_len, best) is Some ==> spec_run_ok(
            lb,
            rd,
            spec_scan(lb, rd, i, cur_start, cur_len, best)->0,
        ),
    decreases lb.len() - i,
{
    if i >= lb.len() {
    } else if cur_len < rd.len() {
        if lb[i] == rd[cur_len] {
            let ns = if cur_len == 0 {
                i
            } else {
                cur_start
            };
            let nl = cur_len + 1;
            assert(lb.subrange(ns, ns + nl) =~= rd.take(nl)) by {
                if cur_len == 0 {
                    assert(lb.subrange(i, i + 1) =~= seq![lb[i]]);
                    assert(rd.take(1) =~= seq![rd[0]]);
                } else {
                    assert(cur_start + cur_len == i);
                    assert(lb.subrange(cur_start, i + 1) =~= lb.subrange(cur_start, i).push(
                        lb[i],
                    ));
                    assert(rd.take(cur_len + 1) =~= rd.take(cur_len).push(rd[cur_len as int]));
                }
            }
            let nb = match best {
                None => Some((ns, nl)),
                Some(b) => if nl > b.1 {
                    Some((ns, nl))
                } else {
                    best
                },
            };
            lemma_scan_valid(lb, rd, i + 1, ns, nl, nb);
        } else {
            assert(lb.subrange(0, 0) =~= rd.take(0));
            lemma_scan_valid(lb, rd, i + 1, 0, 0, best);
        }
    } else {
        lemma_scan_valid(lb, rd, i + 1, cur_start, cur_len, best);
    }
}

/// Finds the longest qualifying backward match for the front of the
/// pending bytes, or degrades to a single literal: when no matching is
/// asked for, when no run exists, or when the best run is shorter than
/// the minimum worthwhile length.
pub fn find_match(
    read_buffer: &VecDeque<u8>,
    lookback_buffer: &VecDeque<u8>,
    no_matching: bool,
) -> (r: EncodedValue)
    requires
        read_buffer@.len() >= 1,
    ensures
        match r {
            EncodedValue::RawU8(v) => {
                &&& v == read_buffer@[0]
                &&& (spec_find_match(lookback_buffer@, read_buffer@, no_matching) is Some
                    ==> (spec_find_match(lookback_buffer@, read_buffer@, no_matching)->0).1
                    < MIN_MATCH_SIZE)
            },
            EncodedValue::OffsetLen(ol) => {
                &&& spec_find_match(lookback_buffer@, read_buffer@, no_matching) == Some(
                    (ol.offset as int, ol.len as int),
                )
                &&& MIN_MATCH_SIZE <= ol.len <= read_buffer@.len()
                &&& ol.offset + ol.len <= lookback_buffer@.len()
                &&& lookback_buffer@.subrange(ol.offset as int, ol.offset + ol.len)
                    == read_buffer@.take(ol.len as int)
                &&& ol.matched_bytes is Some
                &&& ol.matched_bytes->0@ == read_buffer@.take(ol.len as int)
            },
        },
{
    let ghost lb = lookback_buffer@;
    let ghost rd = read_buffer@;
    let mut best: Option<(usize, usize)> = None;
    if !no_matching {
        let mut i: usize = 0;
        let mut cur_start: usize = 0;
        let mut cur_len: usize = 0;
        proof {
            assert(lb.subrange(0, 0) =~= rd.take(0));
        }
        while i < lookback_buffer.len()
            invariant
                lb == lookback_buffer@,
                rd == read_buffer@,
                0 <= i <= lb.len(),
                cur_len <= rd.len(),
                cur_start + cur_len <= lb.len(),
                cur_len > 0 && cur_len < rd.len() ==> cur_start + cur_len == i,
                cur_len == 0 ==> cur_start == 0,
                spec_scan(lb, rd, 0, 0, 0, None) == spec_scan(
                    lb,
                    rd,
                    i as int,
                    cur_start as int,
                    cur_len as int,
                    match best {
                        None => None::<(int, int)>,
                        Some(b) => Some((b.0 as int, b.1 as int)),
                    },
                ),
                match best {
                    None => true,
                    Some(b) => b.0 + b.1 <= lb.len() && 1 <= b.1 <= rd.len(),
                },
            decreases lb.len() - i,
        {
            let looking_at = lookback_buffer[i];
            if cur_len < read_buffer.len() {
                let expecting = read_buffer[cur_len];
                if looking_at == expecting {
                    if cur_len == 0 {
                        cur_start = i;
                    }
                    cur_len = cur_len + 1;
                    let is_best = match &best {
                        None => true,
                        Some(b) => cur_len > b.1,
                    };
                    if is_best {
                        best = Some((cur_start, cur_len));
                    }
                } else {
                    cur_start = 0;
                    cur_len = 0;
                }
            }
            i = i + 1;
        }
    }
    proof {
        assert(lb.subrange(0, 0) =~= rd.take(0));
        lemma_scan_valid(lb, rd, 0, 0, 0, None);
    }
    match best {
        None => EncodedValue::RawU8(read_buffer[0]),
        Some((offset, len)) => {
            if len < MIN_MATCH_SIZE {
                EncodedValue::RawU8(read_buffer[0])
            } else {
                let mut matched_values: Vec<u8> = Vec::new();
                let mut k: usize = 0;
                while k < len
                    invariant
                        rd == read_buffer@,
                        k <= len <= rd.len(),
                        matched_values@ == rd.take(k as int),
                    decreases len - k,
                {
                    matched_values.push(read_buffer[k]);
                    proof {
                        assert(rd.take(k as int).push(rd[k as int]) =~= rd.take(k as int + 1));
                    }
                    k = k + 1;
                }
                EncodedValue::OffsetLen(
                    OffsetLen::new_with_match(offset as u64, len as u64, Some(matched_values)),
                )
            }
        },
    }
}

/// One step of the window glue: read the next input byte into the tail
/// of the pending buffer (counting it), or, past the end of the input,
/// drain one pending byte; a byte leaving the pending buffer joins the
/// lookback window, whose oldest byte is evicted past its capacity.
pub open spec fn spec_step_once(
    input: Seq<u8>,
    pos: int,
    rd: Seq<u8>,
    lb: Seq<u8>,
    stats: Seq<u64>,
    always_drain: bool,
    max_lookback: u64,
) -> (int, Seq<u8>, Seq<u8>, Seq<u64>) {
    if 0 <= pos < input.len() {
        let b = input[pos];
        let stats1 = stats.update(b as int, (stats[b as int] + 1) as u64);
        let rd1 = rd.push(b);
        if rd1.len() > MAX_READ_BUFFER_LEN || always_drain {
            let lb1 = lb.push(rd1[0]);
            let lb2 = if lb1.len() > max_lookback {
                lb1.drop_first()
            } else {
                lb1
            };
            (pos + 1, rd1.drop_first(), lb2, stats1)
        } else {
            (pos + 1, rd1, lb, stats1)
        }
    } else {
        if always_drain && rd.len() > 0 {
            let lb1 = lb.push(rd[0]);
            let lb2 = if lb1.len() > max_lookback {
                lb1.drop_first()
            } else {
                lb1
            };
            (pos, rd.drop_first(), lb2, stats)
        } else {
            (pos, rd, lb, stats)
        }
    }
}

/// `n` window steps in a row.
pub open spec fn spec_step_many(
    input: Seq<u8>,
    pos: int,
    rd: Seq<u8>,
    lb: Seq<u8>,
    stats: Seq<u64>,
    always_drain: bool,
    max_lookback: u64,
    n: nat,
) -> (int, Seq<u8>, Seq<u8>, Seq<u64>)
    decreases n,
{
    if n == 0 {
        (pos, rd, lb, stats)
    } else {
        let s1 = spec_step_once(input, pos, rd, lb, stats, always_drain, max_lookback);
        spec_step_many(input, s1.0, s1.1, s1.2, s1.3, always_drain, max_lookback, (n - 1) as nat)
    }
}

/// What a run of window steps preserves and guarantees: the position
/// stays in bounds, counts only grow and stay below the bytes consumed,
/// every consumed byte is counted, the pending buffer stays nonempty
/// while input remains, and (when draining) each call makes progress.
pub proof fn lemma_step_many_props(
    input: Seq<u8>,
    pos: int,
    rd: Seq<u8>,
    lb: Seq<u8>,
    stats: Seq<u64>,
    always_drain: bool,
    max_lookback: u64,
    n: nat,
)
    requires
        0 <= pos <= input.len(),
        input.len() <= usize::MAX,
        stats.len() == 256,
        forall|b: int| 0 <= b < 256 ==> #[trigger] stats[b] <= pos,
        forall|j: int| 0 <= j < pos ==> #[trigger] stats[input[j] as int] > 0,
    ensures
        ({
            let s = spec_step_many(input, pos, rd, lb, stats, always_drain, max_lookback, n);
            &&& pos <= s.0 <= input.len()
            &&& s.3.len() == 256
            &&& (forall|b: int| 0 <= b < 256 ==> #[trigger] s.3[b] <= s.0)
            &&& (forall|b: int| 0 <= b < 256 ==> stats[b] <= #[trigger] s.3[b])
            &&& (forall|j: int| 0 <= j < s.0 ==> #[trigger] s.3[input[j] as int] > 0)
            &&& ((forall|j: int| 0 <= j < rd.len() ==> stats[(#[trigger] rd[j]) as int] > 0) ==> (
            forall|j: int| 0 <= j < s.1.len() ==> s.3[(#[trigger] s.1[j]) as int] > 0))
            &&& (forall|b: u8|
                (#[trigger] s.3[b as int]) > 0 ==> stats[b as int] > 0 || (exists|jj: int|
                    pos <= jj < s.0 && input[jj] == b))
            &&& ((pos < input.len() ==> rd.len() >= 1) ==> (s.0 < input.len() ==> s.1.len()
                >= 1))
            &&& ((!always_drain && n >= 1) ==> (s.0 < input.len() ==> s.1.len() >= 1))
            &&& s.1.len() <= vstd::math::max(rd.len() as int, MAX_READ_BUFFER_LEN as int)
            &&& (always_drain && n >= 1 && (pos < input.len() || rd.len() > 0) ==> (input.len()
                - s.0) + s.1.len() < (input.len() - pos) + rd.len())
            &&& (always_drain ==> (input.len() - s.0) + s.1.len() <= (input.len() - pos)
                + rd.len())
        }),
    decreases n,
{
    if n > 0 {
        let s1 = spec_step_once(input, pos, rd, lb, stats, always_drain, max_lookback);
        if 0 <= pos < input.len() {
            let b = input[pos];
            assert(s1.3[b as int] == stats[b as int] + 1);
            assert forall|j: int| 0 <= j < s1.0 implies #[trigger] s1.3[input[j] as int] > 0 by {
                if j < pos {
                    assert(stats[input[j] as int] > 0);
                    if input[j] == b {
                    } else {
                        assert(s1.3[input[j] as int] == stats[input[j] as int]);
                    }
                }
            }
        }
        if forall|j: int| 0 <= j < rd.len() ==> stats[(#[trigger] rd[j]) as int] > 0 {
            assert forall|j: int| 0 <= j < s1.1.len() implies s1.3[(#[trigger] s1.1[j]) as int]
                > 0 by {
                if 0 <= pos < input.len() {
                    let b = input[pos];
                    let rd1 = rd.push(b);
                    assert forall|jj: int|
                        0 <= jj < rd1.len() implies s1.3[(#[trigger] rd1[jj]) as int] > 0 by {
                        if jj < rd.len() {
                            assert(stats[rd[jj] as int] > 0);
                            assert(s1.3[rd1[jj] as int] >= stats[rd1[jj] as int]);
                        } else {
                            assert(rd1[jj] == b);
                        }
                    }
                    if s1.1 == rd1 {
                    } else {
                        assert(s1.1 == rd1.drop_first());
                        assert(s1.1[j] == rd1[j + 1]);
                    }
                } else {
                    if s1.1 == rd {
                    } else {
                        assert(s1.1 == rd.drop_first());
                        assert(s1.1[j] == rd[j + 1]);
                    }
                }
            }
        }
        assert forall|b: u8|
            (#[trigger] s1.3[b as int]) > 0 implies stats[b as int] > 0 || (0 <= pos
            < input.len() && input[pos] == b) by {
            if 0 <= pos < input.len() {
                if input[pos] == b {
                } else {
                    assert(s1.3[b as int] == stats[b as int]);
                }
            }
        }
        lemma_step_many_props(
            input,
            s1.0,
            s1.1,
            s1.2,
            s1.3,
            always_drain,
            max_lookback,
            (n - 1) as nat,
        );
        let s = spec_step_many(input, pos, rd, lb, stats, always_drain, max_lookback, n);
        assert forall|b: u8|
            (#[trigger] s.3[b as int]) > 0 implies stats[b as int] > 0 || (exists|jj: int|
                pos <= jj < s.0 && input[jj] == b) by {
            if s1.3[b as int] > 0 {
                if stats[b as int] > 0 {
                } else {
                    assert(0 <= pos < input.len() && input[pos] == b);
                    assert(pos <= pos < s.0);
                }
            } else {
                let jj = choose|jj: int| s1.0 <= jj < s.0 && input[jj] == b;
                assert(pos <= jj < s.0 && input[jj] == b);
            }
        }
    }
}


/// The windows mirror the input exactly: the pending buffer holds the
/// next unconsumed bytes, the lookback window the last consumed ones up
/// to its capacity, and (when draining) each step consumes one byte.
proof fn lemma_step_many_shape(
    input: Seq<u8>,
    pos: int,
    rd: Seq<u8>,
    lb: Seq<u8>,
    stats: Seq<u64>,
    always_drain: bool,
    max_lookback: u64,
    n: nat,
)
    requires
        rd.len() <= pos <= input.len(),
        rd == input.subrange(pos - rd.len(), pos),
        lb == input.subrange(pos - rd.len() - lb.len(), pos - rd.len()),
        lb.len() == vstd::math::min(pos - rd.len(), max_lookback as int),
    ensures
        ({
            let s = spec_step_many(input, pos, rd, lb, stats, always_drain, max_lookback, n);
            &&& s.1.len() <= s.0 <= input.len()
            &&& s.1 == input.subrange(s.0 - s.1.len(), s.0)
            &&& s.2 == input.subrange(s.0 - s.1.len() - s.2.len(), s.0 - s.1.len())
            &&& s.2.len() == vstd::math::min(s.0 - s.1.len(), max_lookback as int)
            &&& s.0 - s.1.len() >= pos - rd.len()
            &&& (always_drain && n <= rd.len() ==> s.0 - s.1.len() == pos - rd.len() + n)
        }),
    decreases n,
{
    if n > 0 {
        let c = pos - rd.len();
        let s1 = spec_step_once(input, pos, rd, lb, stats, always_drain, max_lookback);
        if 0 <= pos < input.len() {
            let b = input[pos];
            let rd1 = rd.push(b);
            assert(rd1 =~= input.subrange(c, pos + 1));
            if rd1.len() > MAX_READ_BUFFER_LEN || always_drain {
                assert(rd1[0] == input[c]);
                assert(rd1.drop_first() =~= input.subrange(c + 1, pos + 1));
                let lb1 = lb.push(rd1[0]);
                assert(lb1 =~= input.subrange(c - lb.len(), c + 1));
                if lb1.len() > max_lookback {
                    assert(lb1.drop_first() =~= input.subrange(c + 1 - max_lookback, c + 1));
                } else {
                }
            }
        } else {
            if always_drain && rd.len() > 0 {
                assert(rd[0] == input[c]);
                assert(rd.drop_first() =~= input.subrange(c + 1, pos));
                let lb1 = lb.push(rd[0]);
                assert(lb1 =~= input.subrange(c - lb.len(), c + 1));
                if lb1.len() > max_lookback {
                    assert(lb1.drop_first() =~= input.subrange(c + 1 - max_lookback, c + 1));
                }
            }
        }
        lemma_step_many_shape(
            input,
            s1.0,
            s1.1,
            s1.2,
            s1.3,
            always_drain,
            max_lookback,
            (n - 1) as nat,
        );
    }
}

/// Does the byte occur anywhere in the input?
pub open spec fn spec_occurs(input: Seq<u8>, b: u8) -> bool {
    exists|j: int| 0 <= j < input.len() && input[j] == b
}

/// How many of the byte values below `upto` occur in the input.
pub open spec fn spec_distinct_in(input: Seq<u8>, upto: int) -> int
    decreases upto,
{
    if upto <= 0 {
        0
    } else {
        spec_distinct_in(input, upto - 1) + if spec_occurs(input, (upto - 1) as u8) {
            1int
        } else {
            0
        }
    }
}

/// A table counting exactly the occurring bytes has as many counted
/// values as the input has distinct bytes.
proof fn lemma_distinct_match(input: Seq<u8>, stats: Seq<u64>, upto: int)
    requires
        upto <= 256,
        forall|b: u8| (#[trigger] stats[b as int]) > 0 <==> spec_occurs(input, b),
    ensures
        crate::huffman::spec_distinct_count(stats, upto) == spec_distinct_in(input, upto),
    decreases upto,
{
    if upto > 0 {
        lemma_distinct_match(input, stats, upto - 1);
        let b = (upto - 1) as u8;
        assert(b as int == upto - 1);
        assert(stats[b as int] > 0 <==> spec_occurs(input, b));
    }
}

/// A table counting one byte value alone counts one distinct value.
proof fn lemma_distinct_single(stats: Seq<u64>, upto: int)
    requires
        1 <= upto <= 256,
        stats.len() == 256,
        stats[0] > 0,
        forall|b: int| 1 <= b < 256 ==> #[trigger] stats[b] == 0,
    ensures
        crate::huffman::spec_distinct_count(stats, upto) == 1,
    decreases upto,
{
    if upto > 1 {
        lemma_distinct_single(stats, upto - 1);
    } else {
        assert(crate::huffman::spec_distinct_count(stats, 0) == 0);
    }
}

/// The decode window a replay sees: the last bytes produced, up to the
/// lookback capacity.
pub open spec fn spec_window_of(produced: Seq<u8>, lookback: u64) -> Seq<u8> {
    if produced.len() > lookback {
        produced.skip(produced.len() - lookback)
    } else {
        produced
    }
}

/// Replaying a decision sequence: a literal appends its byte; a copy
/// record appends the window bytes it names, or fails when its range
/// runs past what has been produced.
pub open spec fn spec_expand(values: Seq<EncodedValue>, produced: Seq<u8>, lookback: u64) -> Option<
    Seq<u8>,
>
    decreases values.len(),
{
    if values.len() == 0 {
        Some(produced)
    } else {
        match values[0] {
            EncodedValue::RawU8(v) => spec_expand(values.drop_first(), produced.push(v), lookback),
            EncodedValue::OffsetLen(ol) => {
                let w = spec_window_of(produced, lookback);
                if ol.offset + ol.len > w.len() {
                    None
                } else {
                    spec_expand(
                        values.drop_first(),
                        produced + w.subrange(ol.offset as int, ol.offset + ol.len),
                        lookback,
                    )
                }
            },
        }
    }
}

/// One more decision replays after the ones before it.
proof fn lemma_expand_snoc(
    values: Seq<EncodedValue>,
    v: EncodedValue,
    produced: Seq<u8>,
    lookback: u64,
)
    ensures
        spec_expand(values.push(v), produced, lookback) == match spec_expand(
            values,
            produced,
            lookback,
        ) {
            None => None::<Seq<u8>>,
            Some(q) => spec_expand(seq![v], q, lookback),
        },
    decreases values.len(),
{
    if values.len() == 0 {
        assert(values.push(v)[0] == v);
        assert(values.push(v).drop_first() =~= Seq::<EncodedValue>::empty());
        assert(seq![v][0] == v);
        assert(seq![v].drop_first() =~= Seq::<EncodedValue>::empty());
        match v {
            EncodedValue::RawU8(b) => {
                assert(spec_expand(Seq::<EncodedValue>::empty(), produced.push(b), lookback)
                    == Some(produced.push(b)));
                assert(spec_expand(values.push(v), produced, lookback) == Some(produced.push(b)));
                assert(spec_expand(seq![v], produced, lookback) == Some(produced.push(b)));
            },
            EncodedValue::OffsetLen(ol) => {
                let w = spec_window_of(produced, lookback);
                if ol.offset + ol.len > w.len() {
                    assert(spec_expand(values.push(v), produced, lookback) is None);
                    assert(spec_expand(seq![v], produced, lookback) is None);
                } else {
                    let q = produced + w.subrange(ol.offset as int, ol.offset + ol.len);
                    assert(spec_expand(Seq::<EncodedValue>::empty(), q, lookback) == Some(q));
                    assert(spec_expand(values.push(v), produced, lookback) == Some(q));
                    assert(spec_expand(seq![v], produced, lookback) == Some(q));
                }
            },
        }
    } else {
        assert(values.push(v)[0] == values[0]);
        assert(values.push(v).drop_first() =~= values.drop_first().push(v));
        match values[0] {
            EncodedValue::RawU8(b) => {
                lemma_expand_snoc(values.drop_first(), v, produced.push(b), lookback);
            },
            EncodedValue::OffsetLen(ol) => {
                let w = spec_window_of(produced, lookback);
                if ol.offset + ol.len <= w.len() {
                    lemma_expand_snoc(
                        values.drop_first(),
                        v,
                        produced + w.subrange(ol.offset as int, ol.offset + ol.len),
                        lookback,
                    );
                }
            },
        }
    }
}

/// Advances the windows by `n` bytes: each step reads one more input
/// byte into the pending buffer's tail (tallying it in the statistics)
/// and, when the buffer is full or draining is asked for, moves the
/// buffer's head into the lookback window, evicting that window's
/// oldest byte past its capacity. Past the end of the input, draining
/// steps only move pending bytes out.
pub fn step_buffers(
    n: usize,
    input: &Vec<u8>,
    pos: &mut usize,
    read_buffer: &mut VecDeque<u8>,
    lookback_buffer: &mut VecDeque<u8>,
    always_drain_read: bool,
    max_lookback: u64,
    byte_stats: &mut ByteStats,
)
    requires
        *old(pos) <= input@.len(),
        old(byte_stats)@.len() == 256,
        forall|b: int| 0 <= b < 256 ==> #[trigger] old(byte_stats)@[b] <= *old(pos),
    ensures
        ({
            let s = spec_step_many(
                input@,
                *old(pos) as int,
                old(read_buffer)@,
                old(lookback_buffer)@,
                old(byte_stats)@,
                always_drain_read,
                max_lookback,
                n as nat,
            );
            &&& *final(pos) == s.0
            &&& final(read_buffer)@ == s.1
            &&& final(lookback_buffer)@ == s.2
            &&& final(byte_stats)@ == s.3
        }),
{
    let ghost gpos = *old(pos) as int;
    let ghost grd = old(read_buffer)@;
    let ghost glb = old(lookback_buffer)@;
    let ghost gstats = old(byte_stats)@;
    let mut k: usize = 0;
    while k < n
        invariant
            k <= n,
            *pos <= input@.len(),
            byte_stats@.len() == 256,
            forall|b: int| 0 <= b < 256 ==> #[trigger] byte_stats@[b] <= *pos,
            spec_step_many(
                input@,
                gpos,
                grd,
                glb,
                gstats,
                always_drain_read,
                max_lookback,
                n as nat,
            ) == spec_step_many(
                input@,
                *pos as int,
                read_buffer@,
                lookback_buffer@,
                byte_stats@,
                always_drain_read,
                max_lookback,
                (n - k) as nat,
            ),
        decreases n - k,
    {
        let ghost before = (
            *pos as int,
            read_buffer@,
            lookback_buffer@,
            byte_stats@,
        );
        if *pos < input.len() {
            let byte = input[*pos];
            let count = byte_stats[byte as usize];
            byte_stats.set(byte as usize, count + 1);
            *pos = *pos + 1;
            read_buffer.push_back(byte);
            if read_buffer.len() > MAX_READ_BUFFER_LEN || always_drain_read {
                match read_buffer.pop_front() {
                    Some(v) => {
                        lookback_buffer.push_back(v);
                        if (lookback_buffer.len() as u64) > max_lookback {
                            lookback_buffer.pop_front();
                        }
                    },
                    None => {
                        proof {
                            assert(false);
                        }
                    },
                }
            }
        } else {
            if always_drain_read {
                match read_buffer.pop_front() {
                    Some(v) => {
                        lookback_buffer.push_back(v);
                        if (lookback_buffer.len() as u64) > max_lookback {
                            lookback_buffer.pop_front();
                        }
                    },
                    None => {},
                }
            }
        }
        proof {
            let stepped = spec_step_once(
                input@,
                before.0,
                before.1,
                before.2,
                before.3,
                always_drain_read,
                max_lookback,
            );
            assert(*pos as int == stepped.0);
            assert(read_buffer@ =~= stepped.1);
            assert(lookback_buffer@ =~= stepped.2);
            assert(byte_stats@ =~= stepped.3);
        }
        k = k + 1;
    }
}

/// Builds the Huffman model from the gathered statistics and serializes
/// the header and every gathered decision into container bytes, plus
/// the optional human-readable transcript.
///
/// On success the container is pinned exactly: the header's byte form
/// (which parses back to the header), then the serialization of the
/// decisions under the tree's code map. Fails with `EmptyModel` when no
/// byte was counted, or with `MissingCode` when the tree came out
/// deeper than a 64-bit code can spell, which needs more than 64
/// counted byte values.
pub fn finalise_output(
    encoded_values: Vec<EncodedValue>,
    byte_stats: ByteStats,
    max_lookback: u64,
    with_debug: bool,
) -> (r: Result<(Vec<u8>, Option<Vec<u8>>), LizardError>)
    requires
        byte_stats@.len() == 256,
        forall|k: int|
            0 <= k < encoded_values@.len() ==> match #[trigger] encoded_values@[k] {
                EncodedValue::RawU8(b) => byte_stats@[b as int] > 0,
                EncodedValue::OffsetLen(_) => true,
            },
    ensures
        match r {
            Ok(pair) => {
                &&& (pair.1 is Some <==> with_debug)
                &&& exists|h: Header, cm: CodeMap|
                    #![auto]
                    {
                        &&& h.lookback_buffer_len == max_lookback
                        &&& h.huffman_tree is Node
                        &&& h.huffman_tree.spec_end_count() == 1
                        &&& h.huffman_tree.spec_height() <= 64
                        &&& (forall|b: u8|
                            h.huffman_tree.spec_has_leaf(b) <==> byte_stats@[b as int] > 0)
                        &&& spec_header_bytes(h).len() <= pair.0@.len()
                        &&& pair.0@.take(spec_header_bytes(h).len() as int) == spec_header_bytes(
                            h,
                        )
                        &&& crate::header::spec_header_of_bytes(
                            pair.0@.take(spec_header_bytes(h).len() as int),
                        ) == Some(h)
                        &&& cm.wf()
                        &&& cm.consistent_with(h.huffman_tree)
                        &&& spec_serialize(cm, encoded_values@) == Some(
                            pair.0@.skip(spec_header_bytes(h).len() as int),
                        )
                    }
            },
            Err(e) => {
                ||| (e == LizardError::EmptyModel && (forall|b: int|
                    0 <= b < 256 ==> byte_stats@[b] == 0))
                ||| (e == LizardError::MissingCode && crate::huffman::spec_distinct_count(
                    byte_stats@,
                    256,
                ) > 64)
            },
        },
{
    let tree = match build_tree(&byte_stats) {
        Ok(t) => t,
        Err(e) => {
            return Err(e);
        },
    };
    let ghost k_distinct = crate::huffman::spec_distinct_count(byte_stats@, 256);
    if !tree.height_le(64) {
        proof {
            assert(tree.spec_height() <= k_distinct);
        }
        return Err(LizardError::MissingCode);
    }
    let code_map = tree_to_code_map(&tree);
    let ghost gtree = tree;
    let ghost gcm = code_map;
    let mut output_stream = OutputStream::new(code_map, with_debug);
    let header = Header::new(tree, max_lookback);
    match output_stream.write_header(&header) {
        Ok(()) => {},
        Err(_) => {
            proof {
                crate::header::lemma_tree_bytes_len(gtree);
                crate::huffman::lemma_leaf_total_kinds(gtree);
                crate::huffman::lemma_kinds_match_distinct(gtree, byte_stats@, 256);
                crate::huffman::lemma_distinct_bound(byte_stats@, 256);
                assert(gtree.spec_leaf_total() == k_distinct);
                assert(spec_tree_bytes(gtree).len() == 3 * k_distinct + 1);
                assert(false);
            }
            return Err(LizardError::MissingCode);
        },
    }
    let ghost hlen = spec_header_bytes(header).len() as int;
    let ghost values = encoded_values@;
    proof {
        assert(output_stream.output@.skip(hlen) =~= Seq::<u8>::empty());
        assert(values.skip(0) =~= values);
    }
    let mut i: usize = 0;
    while i < encoded_values.len()
        invariant
            i <= values.len(),
            values == encoded_values@,
            byte_stats@.len() == 256,
            forall|k: int|
                0 <= k < values.len() ==> match #[trigger] values[k] {
                    EncodedValue::RawU8(b) => byte_stats@[b as int] > 0,
                    EncodedValue::OffsetLen(_) => true,
                },
            output_stream.code_map == gcm,
            gcm.wf(),
            gcm.consistent_with(gtree),
            forall|b: u8| gtree.spec_has_leaf(b) ==> (#[trigger] gcm.codes@[b as int]) is Some,
            forall|b: u8| gtree.spec_has_leaf(b) <==> byte_stats@[b as int] > 0,
            forall|j: int|
                0 <= j < output_stream.buf@.len() ==> (#[trigger] gcm.codes[output_stream.buf@[j] as int]) is Some,
            output_stream.output@.len() >= hlen,
            hlen == spec_header_bytes(header).len(),
            output_stream.output@.take(hlen) == spec_header_bytes(header),
            output_stream.spec_debug() is Some <==> with_debug,
            spec_tree_bytes(header.huffman_tree).len() + 10 <= 0xffff,
            spec_add_values(gcm, Seq::<u8>::empty(), Seq::<u8>::empty(), values)
                == spec_add_values(
                gcm,
                output_stream.output@.skip(hlen),
                output_stream.buf@,
                values.skip(i as int),
            ),
        decreases values.len() - i,
    {
        let ghost before_out = output_stream.output@;
        let ghost before_buf = output_stream.buf@;
        let value = vstd::std_specs::vec::vec_index(&encoded_values, i);
        proof {
            assert(values.skip(i as int).len() > 0);
            assert(values.skip(i as int)[0] == values[i as int]);
            assert(values.skip(i as int).drop_first() =~= values.skip(i as int + 1));
            if output_stream.buf@.len() > 0 {
                crate::huffman::lemma_code_bits_total(gcm, output_stream.buf@);
            }
        }
        match output_stream.add(value) {
            Ok(()) => {},
            Err(_) => {
                proof {
                    assert(false);
                }
                return Err(LizardError::MissingCode);
            },
        }
        proof {
            assert(output_stream.output@.take(hlen) =~= before_out.take(hlen));
            match values[i as int] {
                EncodedValue::RawU8(b) => {
                    assert(byte_stats@[b as int] > 0);
                    assert(gtree.spec_has_leaf(b));
                    assert(spec_add_value(gcm, before_out.skip(hlen), before_buf, values[i as int])
                        == Some((before_out.skip(hlen), before_buf.push(b))));
                    assert(output_stream.output@.skip(hlen) =~= before_out.skip(hlen));
                },
                EncodedValue::OffsetLen(ol) => {
                    if before_buf.len() > 0 {
                        assert(output_stream.output@.skip(hlen) =~= before_out.skip(hlen)
                            + spec_chunked(spec_pack(gcm, before_buf)->0)
                            + crate::offset_len::spec_offset_len_to_bytes(ol.offset, ol.len));
                    } else {
                        assert(output_stream.output@.skip(hlen) =~= before_out.skip(hlen)
                            + crate::offset_len::spec_offset_len_to_bytes(ol.offset, ol.len));
                    }
                },
            }
        }
        i = i + 1;
    }
    proof {
        assert(values.skip(values.len() as int) =~= Seq::<EncodedValue>::empty());
    }
    let ghost before_out = output_stream.output@;
    let ghost before_buf = output_stream.buf@;
    proof {
        if output_stream.buf@.len() > 0 {
            crate::huffman::lemma_code_bits_total(gcm, output_stream.buf@);
        }
    }
    match output_stream.finalise() {
        Ok(()) => {},
        Err(_) => {
            proof {
                assert(false);
            }
            return Err(LizardError::MissingCode);
        },
    }
    proof {
        assert(output_stream.output@.take(hlen) =~= before_out.take(hlen));
        if before_buf.len() > 0 {
            assert(output_stream.output@.skip(hlen) =~= before_out.skip(hlen) + spec_chunked(
                spec_pack(gcm, before_buf)->0,
            ));
        } else {
            assert(output_stream.output@.skip(hlen) =~= before_out.skip(hlen));
        }
        assert(spec_serialize(gcm, values) == Some(output_stream.output@.skip(hlen)));
        assert(header.huffman_tree == gtree);
    }
    let out = output_stream.output;
    let dbg = output_stream.debug_output;
    proof {
        crate::header::lemma_header_round_trip(header);
        assert(out@.take(hlen) == spec_header_bytes(header));
        assert(dbg is Some <==> with_debug);
    }
    Ok((out, dbg))
}


/// Compresses a byte string into container form: one pass gathers the
/// byte statistics while the two sliding windows walk the input and the
/// match finder chooses a literal or a backward copy at each position;
/// the gathered decisions are then serialized behind the header.
///
/// On success the container is pinned: it is the header's byte form
/// followed by the serialization of a decision sequence that replays,
/// copy by copy within the lookback window, to exactly the input. An
/// empty input is given a one-symbol synthetic model so that a valid
/// container still exists for it. The only failure is a model whose
/// tree outgrows 64-bit codes, which needs more than 64 distinct byte
/// values in the input; with at most 64, success is promised.
pub fn encode(input: &Vec<u8>, max_lookback: u64, with_debug: bool) -> (r: Result<
    (Vec<u8>, Option<Vec<u8>>),
    LizardError,
>)
    ensures
        match r {
            Ok(pair) => {
                &&& (pair.1 is Some <==> with_debug)
                &&& exists|h: Header, cm: CodeMap, values: Seq<EncodedValue>|
                    #![auto]
                    {
                        &&& h.lookback_buffer_len == max_lookback
                        &&& h.huffman_tree is Node
                        &&& h.huffman_tree.spec_end_count() == 1
                        &&& h.huffman_tree.spec_height() <= 64
                        &&& (forall|b: u8|
                            h.huffman_tree.spec_has_leaf(b) <==> (spec_occurs(input@, b) || (
                            input@.len() == 0 && b == 0)))
                        &&& spec_header_bytes(h).len() <= pair.0@.len()
                        &&& pair.0@.take(spec_header_bytes(h).len() as int) == spec_header_bytes(
                            h,
                        )
                        &&& crate::header::spec_header_of_bytes(
                            pair.0@.take(spec_header_bytes(h).len() as int),
                        ) == Some(h)
                        &&& cm.wf()
                        &&& cm.consistent_with(h.huffman_tree)
                        &&& spec_serialize(cm, values) == Some(
                            pair.0@.skip(spec_header_bytes(h).len() as int),
                        )
                        &&& spec_expand(values, Seq::<u8>::empty(), max_lookback) == Some(input@)
                    }
            },
            Err(e) => e == LizardError::MissingCode && spec_distinct_in(input@, 256) > 64,
        },
        spec_distinct_in(input@, 256) <= 64 ==> r is Ok,
{
    let input_len = input.len();
    proof {
        assert(input@.len() == input_len);
    }
    let mut read_buffer: VecDeque<u8> = VecDeque::new();
    let mut lookback_buffer: VecDeque<u8> = VecDeque::new();
    let mut byte_stats: ByteStats = Vec::new();
    let mut z: usize = 0;
    while z < 256
        invariant
            byte_stats@.len() == z,
            z <= 256,
            forall|b: int| 0 <= b < z ==> #[trigger] byte_stats@[b] == 0,
        decreases 256 - z,
    {
        byte_stats.push(0);
        z = z + 1;
    }
    let mut pos: usize = 0;

    proof {
        assert(read_buffer@ =~= input@.subrange(0, 0));
        assert(lookback_buffer@ =~= input@.subrange(0, 0));
    }

    // Pre-fill the pending window.
    let mut i: usize = 0;
    while i < MAX_READ_BUFFER_LEN
        invariant
            input@.len() <= usize::MAX,
            i <= MAX_READ_BUFFER_LEN,
            pos <= input@.len(),
            byte_stats@.len() == 256,
            forall|b: int| 0 <= b < 256 ==> #[trigger] byte_stats@[b] <= pos,
            forall|j: int| 0 <= j < pos ==> #[trigger] byte_stats@[input@[j] as int] > 0,
            forall|j: int|
                0 <= j < read_buffer@.len() ==> byte_stats@[(#[trigger] read_buffer@[j]) as int]
                    > 0,
            forall|b: u8| (#[trigger] byte_stats@[b as int]) > 0 ==> spec_occurs(input@, b),
            i > 0 ==> (pos < input@.len() ==> read_buffer@.len() >= 1),
            read_buffer@.len() <= i,
            pos == read_buffer@.len(),
            read_buffer@ == input@.subrange(pos - read_buffer@.len(), pos as int),
            lookback_buffer@ == input@.subrange(
                pos - read_buffer@.len() - lookback_buffer@.len(),
                pos - read_buffer@.len(),
            ),
            lookback_buffer@.len() == vstd::math::min(
                pos - read_buffer@.len(),
                max_lookback as int,
            ),
        decreases MAX_READ_BUFFER_LEN - i,
    {
        let ghost st = (pos as int, read_buffer@, lookback_buffer@, byte_stats@);
        step_buffers(
            1,
            input,
            &mut pos,
            &mut read_buffer,
            &mut lookback_buffer,
            false,
            max_lookback,
            &mut byte_stats,
        );
        proof {
            lemma_step_many_props(input@, st.0, st.1, st.2, st.3, false, max_lookback, 1);
            lemma_step_many_shape(input@, st.0, st.1, st.2, st.3, false, max_lookback, 1);
            let st1 = spec_step_once(input@, st.0, st.1, st.2, st.3, false, max_lookback);
            assert(spec_step_many(input@, st.0, st.1, st.2, st.3, false, max_lookback, 1)
                == spec_step_many(input@, st1.0, st1.1, st1.2, st1.3, false, max_lookback, 0));
            assert(pos as int == st1.0 && read_buffer@ == st1.1);
            if st.0 < input@.len() {
                assert(st.1.push(input@[st.0]).len() <= i + 1 <= MAX_READ_BUFFER_LEN);
                assert(st1.1 == st.1.push(input@[st.0]));
                assert(st1.0 == st.0 + 1);
            }
            assert forall|b: u8|
                (#[trigger] byte_stats@[b as int]) > 0 implies spec_occurs(input@, b) by {
                if st.3[b as int] > 0 {
                } else {
                    let jj = choose|jj: int| st.0 <= jj < pos && input@[jj] == b;
                    assert(0 <= jj < input@.len() && input@[jj] == b);
                }
            }
        }
        i = i + 1;
    }

    let no_matching = false;
    proof {
        assert(pos - read_buffer@.len() == 0);
        assert(input@.take(0) =~= Seq::<u8>::empty());
        assert(spec_expand(Seq::<EncodedValue>::empty(), Seq::<u8>::empty(), max_lookback)
            == Some(Seq::<u8>::empty()));
    }

    // Walk the windows over the input, deciding literal or copy at each
    // step; the expansion of the decisions tracks the consumed prefix.
    let mut output_elements: Vec<EncodedValue> = Vec::new();
    while read_buffer.len() > 0
        invariant
            input@.len() <= usize::MAX,
            pos <= input@.len(),
            byte_stats@.len() == 256,
            forall|b: int| 0 <= b < 256 ==> #[trigger] byte_stats@[b] <= pos,
            forall|j: int| 0 <= j < pos ==> #[trigger] byte_stats@[input@[j] as int] > 0,
            forall|j: int|
                0 <= j < read_buffer@.len() ==> byte_stats@[(#[trigger] read_buffer@[j]) as int]
                    > 0,
            forall|b: u8| (#[trigger] byte_stats@[b as int]) > 0 ==> spec_occurs(input@, b),
            pos < input@.len() ==> read_buffer@.len() >= 1,
            read_buffer@.len() <= pos,
            read_buffer@ == input@.subrange(pos - read_buffer@.len(), pos as int),
            lookback_buffer@ == input@.subrange(
                pos - read_buffer@.len() - lookback_buffer@.len(),
                pos - read_buffer@.len(),
            ),
            lookback_buffer@.len() == vstd::math::min(
                pos - read_buffer@.len(),
                max_lookback as int,
            ),
            forall|k: int|
                0 <= k < output_elements@.len() ==> match #[trigger] output_elements@[k] {
                    EncodedValue::RawU8(b) => byte_stats@[b as int] > 0,
                    EncodedValue::OffsetLen(_) => true,
                },
            spec_expand(output_elements@, Seq::<u8>::empty(), max_lookback) == Some(
                input@.take(pos - read_buffer@.len()),
            ),
        decreases (input@.len() - pos) + read_buffer@.len(),
    {
        let ghost c = pos - read_buffer@.len();
        let ghost produced = input@.take(c);
        let next_value = find_match(&read_buffer, &lookback_buffer, no_matching);
        let step_size: usize = match &next_value {
            EncodedValue::RawU8(_) => 1,
            EncodedValue::OffsetLen(ol) => ol.len as usize,
        };
        proof {
            let ghost gv = next_value;
            lemma_expand_snoc(output_elements@, gv, Seq::<u8>::empty(), max_lookback);
            assert(spec_window_of(produced, max_lookback) =~= lookback_buffer@) by {
                assert(produced.len() == c);
                if c > max_lookback {
                    assert(lookback_buffer@.len() == max_lookback as int);
                    assert(produced.skip(c - max_lookback) =~= input@.subrange(
                        c - max_lookback,
                        c,
                    ));
                } else {
                    assert(lookback_buffer@.len() == c);
                    assert(produced =~= input@.subrange(0, c));
                }
            }
            match gv {
                EncodedValue::RawU8(b) => {
                    assert(b == read_buffer@[0]);
                    assert(read_buffer@[0] == input@[c]);
                    assert(seq![gv][0] == gv);
                    assert(seq![gv].drop_first() =~= Seq::<EncodedValue>::empty());
                    assert(spec_expand(Seq::<EncodedValue>::empty(), produced.push(b), max_lookback)
                        == Some(produced.push(b)));
                    assert(produced.push(b) =~= input@.take(c + 1));
                    assert(spec_expand(output_elements@.push(gv), Seq::<u8>::empty(), max_lookback)
                        == Some(input@.take(c + 1)));
                },
                EncodedValue::OffsetLen(ol) => {
                    let w = spec_window_of(produced, max_lookback);
                    assert(ol.offset + ol.len <= w.len());
                    assert(w.subrange(ol.offset as int, ol.offset + ol.len)
                        == lookback_buffer@.subrange(ol.offset as int, ol.offset + ol.len));
                    assert(lookback_buffer@.subrange(ol.offset as int, ol.offset + ol.len)
                        == read_buffer@.take(ol.len as int));
                    assert(read_buffer@.take(ol.len as int) =~= input@.subrange(
                        c,
                        c + ol.len,
                    ));
                    assert(seq![gv][0] == gv);
                    assert(seq![gv].drop_first() =~= Seq::<EncodedValue>::empty());
                    let q = produced + w.subrange(ol.offset as int, ol.offset + ol.len);
                    assert(spec_expand(Seq::<EncodedValue>::empty(), q, max_lookback) == Some(q));
                    assert(q =~= input@.take(c + ol.len));
                    assert(spec_expand(output_elements@.push(gv), Seq::<u8>::empty(), max_lookback)
                        == Some(input@.take(c + ol.len)));
                },
            }
        }
        output_elements.push(next_value);
        let ghost st = (pos as int, read_buffer@, lookback_buffer@, byte_stats@);
        step_buffers(
            step_size,
            input,
            &mut pos,
            &mut read_buffer,
            &mut lookback_buffer,
            true,
            max_lookback,
            &mut byte_stats,
        );
        proof {
            lemma_step_many_props(
                input@,
                st.0,
                st.1,
                st.2,
                st.3,
                true,
                max_lookback,
                step_size as nat,
            );
            lemma_step_many_shape(
                input@,
                st.0,
                st.1,
                st.2,
                st.3,
                true,
                max_lookback,
                step_size as nat,
            );
            assert(pos - read_buffer@.len() == c + step_size);
            assert forall|b: u8|
                (#[trigger] byte_stats@[b as int]) > 0 implies spec_occurs(input@, b) by {
                if st.3[b as int] > 0 {
                } else {
                    let jj = choose|jj: int| st.0 <= jj < pos && input@[jj] == b;
                    assert(0 <= jj < input@.len() && input@[jj] == b);
                }
            }
        }
    }
    proof {
        assert(pos == input@.len());
        assert(input@.take(input@.len() as int) =~= input@);
        assert(spec_expand(output_elements@, Seq::<u8>::empty(), max_lookback) == Some(input@));
    }

    // An empty input has no statistics at all: give it a synthetic
    // one-symbol model so a valid code table still exists.
    if input.len() == 0 {
        byte_stats.set(0, 1);
    }
    let ghost gstats = byte_stats@;
    let ghost gvalues = output_elements@;
    proof {
        if input@.len() == 0 {
            assert(gstats[0] > 0);
            lemma_distinct_single(gstats, 256);
        } else {
            assert forall|b: u8| (#[trigger] gstats[b as int]) > 0 <==> spec_occurs(
                input@,
                b,
            ) by {
                if spec_occurs(input@, b) {
                    let jj = choose|jj: int| 0 <= jj < input@.len() && input@[jj] == b;
                    assert(gstats[input@[jj] as int] > 0);
                }
            }
            lemma_distinct_match(input@, gstats, 256);
        }
    }

    match finalise_output(output_elements, byte_stats, max_lookback, with_debug) {
        Ok(pair) => {
            proof {
                let (h, cm): (Header, CodeMap) = choose|h: Header, cm: CodeMap|
                    #![auto]
                    {
                        &&& h.lookback_buffer_len == max_lookback
                        &&& h.huffman_tree is Node
                        &&& h.huffman_tree.spec_end_count() == 1
                        &&& h.huffman_tree.spec_height() <= 64
                        &&& (forall|b: u8|
                            h.huffman_tree.spec_has_leaf(b) <==> gstats[b as int] > 0)
                        &&& spec_header_bytes(h).len() <= pair.0@.len()
                        &&& pair.0@.take(spec_header_bytes(h).len() as int) == spec_header_bytes(
                            h,
                        )
                        &&& crate::header::spec_header_of_bytes(
                            pair.0@.take(spec_header_bytes(h).len() as int),
                        ) == Some(h)
                        &&& cm.wf()
                        &&& cm.consistent_with(h.huffman_tree)
                        &&& spec_serialize(cm, gvalues) == Some(
                            pair.0@.skip(spec_header_bytes(h).len() as int),
                        )
                    };
                assert forall|b: u8|
                    h.huffman_tree.spec_has_leaf(b) <==> (spec_occurs(input@, b) || (input@.len()
                        == 0 && b == 0)) by {
                    if input@.len() == 0 {
                        assert(gstats[b as int] > 0 <==> b == 0);
                        if spec_occurs(input@, b) {
                            let jj = choose|jj: int| 0 <= jj < input@.len() && input@[jj] == b;
                            assert(false);
                        }
                    }
                }
                assert(spec_expand(gvalues, Seq::<u8>::empty(), max_lookback) == Some(input@));
            }
            Ok(pair)
        },
        Err(e) => {
            proof {
                if e == LizardError::EmptyModel {
                    if input@.len() == 0 {
                        assert(gstats[0] == 0);
                    } else {
                        assert(gstats[input@[0] as int] > 0);
                        assert(gstats[input@[0] as int] == 0);
                    }
                    assert(false);
                }
                assert(e == LizardError::MissingCode);
                assert(crate::huffman::spec_distinct_count(gstats, 256) > 64);
                if input@.len() == 0 {
                    assert(crate::huffman::spec_distinct_count(gstats, 256) == 1);
                    assert(false);
                }
                assert(spec_distinct_in(input@, 256) > 64);
            }
            Err(e)
        },
    }
}


} // verus!
