//! The graph's two serialized forms: the textual adjacency-graph format (a
//! header line, two counts, one offset per node, then the target list, all
//! whitespace-separated decimals) and the little-endian binary format (the
//! two counts, the out-list's per-node degree/offset pairs and targets, then
//! the same for the in-list, every number eight bytes).

use crate::graph::AdjacencyGraph;
use crate::graph::AdjacencyList;
use crate::graph::Node;
use vstd::prelude::*;
use vstd::slice::slice_index_get;

verus! {

broadcast use vstd::std_specs::vec::axiom_spec_len;

/// Why a serialized graph was rejected.
#[derive(Clone, Copy, Debug, PartialEq, Eq, Structural)]
pub enum GraphError {
    /// The text does not start with the adjacency-graph header line.
    BadHeader,
    /// A count, offset or target is missing from the text.
    MissingNumber,
    /// A number does not fit the machine word.
    NumberTooLarge,
    /// The offsets do not start at zero or are not non-decreasing, or there
    /// are no nodes at all.
    BadOffsets,
    /// A target names a node outside the universe.
    TargetOutOfRange,
    /// The binary input ends before the advertised data does.
    Truncated,
    /// The binary input has bytes after the advertised data.
    TrailingBytes,
    /// The stored in-list is not the inverse of the stored out-list.
    InconsistentAdjacency,
}

// ---------------------------------------------------------------------------
// Decimal tokens of the textual format.
// ---------------------------------------------------------------------------

/// An ASCII decimal digit.
pub open spec fn is_digit(b: u8) -> bool {
    48 <= b <= 57
}

/// The decimal numbers in `s` from position `i` on: maximal digit runs,
/// every other byte a separator. `in_run`/`acc` carry a run in progress.
pub open spec fn tokens_step(s: Seq<u8>, i: int, in_run: bool, acc: nat) -> Seq<nat>
    decreases s.len() - i,
    when 0 <= i <= s.len()
{
    if i >= s.len() {
        if in_run {
            seq![acc]
        } else {
            Seq::empty()
        }
    } else if is_digit(s[i]) {
        tokens_step(s, i + 1, true, acc * 10 + (s[i] - 48) as nat)
    } else {
        if in_run {
            seq![acc] + tokens_step(s, i + 1, false, 0)
        } else {
            tokens_step(s, i + 1, false, 0)
        }
    }
}

/// The decimal numbers in `s` from position `i` on.
pub open spec fn tokens_from(s: Seq<u8>, i: int) -> Seq<nat> {
    tokens_step(s, i, false, 0)
}

/// A run in progress yields at least its accumulator.
proof fn lemma_tokens_step_run(s: Seq<u8>, i: int, acc: nat)
    requires
        0 <= i <= s.len(),
    ensures
        tokens_step(s, i, true, acc).len() > 0,
        tokens_step(s, i, true, acc)[0] >= acc,
    decreases s.len() - i,
{
    if i < s.len() && is_digit(s[i]) {
        lemma_tokens_step_run(s, i + 1, acc * 10 + (s[i] - 48) as nat);
    }
}

/// The fifteen header bytes of the textual format: the line `AdjacencyGraph`.
pub open spec fn header_ok(s: Seq<u8>) -> bool {
    &&& s.len() >= 15
    &&& s[0] == 65u8
    &&& s[1] == 100u8
    &&& s[2] == 106u8
    &&& s[3] == 97u8
    &&& s[4] == 99u8
    &&& s[5] == 101u8
    &&& s[6] == 110u8
    &&& s[7] == 99u8
    &&& s[8] == 121u8
    &&& s[9] == 71u8
    &&& s[10] == 114u8
    &&& s[11] == 97u8
    &&& s[12] == 112u8
    &&& s[13] == 104u8
    &&& s[14] == 10u8
}

/// Scans the next decimal number at or after `pos`: skips separators, then
/// accumulates one digit run. Returns the value and the position right after
/// the run; `None` when no number is left or the number overflows the
/// machine word.
#[verifier::loop_isolation(false)]
fn next_number(bytes: &[u8], pos: usize) -> (r: Option<(usize, usize)>)
    requires
        pos <= bytes@.len(),
    ensures
        ({
            let toks = tokens_from(bytes@, pos as int);
            match r {
                Some((value, new_pos)) => {
                    &&& toks.len() > 0
                    &&& value as nat == toks[0]
                    &&& pos <= new_pos <= bytes@.len()
                    &&& tokens_from(bytes@, new_pos as int) =~= toks.drop_first()
                },
                None => toks.len() == 0 || toks[0] > usize::MAX,
            }
        }),
{
    let ghost toks = tokens_from(bytes@, pos as int);
    let len = bytes.len();
    let mut p = pos;
    while p < len && !(48 <= bytes[p] && bytes[p] <= 57)
        invariant
            pos <= p <= len,
            tokens_from(bytes@, p as int) == toks,
        decreases len - p,
    {
        p = p + 1;
    }
    if p == len {
        return None;
    }
    // A digit run starts at `p`.
    let d0 = bytes[p] - 48;
    let mut acc: usize = d0 as usize;
    proof {
        assert(toks == tokens_step(bytes@, p + 1, true, acc as nat));
    }
    p = p + 1;
    while p < len && 48 <= bytes[p] && bytes[p] <= 57
        invariant
            pos < p <= len,
            toks == tokens_step(bytes@, p as int, true, acc as nat),
        decreases len - p,
    {
        let d = (bytes[p] - 48) as usize;
        if acc > (usize::MAX - d) / 10 {
            proof {
                lemma_tokens_step_run(bytes@, p + 1, acc as nat * 10 + d as nat);
                assert(acc as nat * 10 + d as nat > usize::MAX) by (nonlinear_arith)
                    requires
                        acc as nat > (usize::MAX - d) as nat / 10,
                        d as nat <= 9,
                ;
            }
            return None;
        }
        acc = acc * 10 + d;
        p = p + 1;
    }
    proof {
        if p < len {
            assert(toks == seq![acc as nat] + tokens_step(bytes@, p + 1, false, 0));
            assert(toks.drop_first() =~= tokens_from(bytes@, p as int));
        } else {
            assert(toks == seq![acc as nat]);
            assert(toks.drop_first() =~= tokens_from(bytes@, p as int));
        }
    }
    Some((acc, p))
}

/// The textual input describes a well-formed graph: the header line, a node
/// count of at least one, a relationship count, that many offsets starting at
/// zero and non-decreasing with the last at most the relationship count, and
/// that many targets inside the universe — each number fitting the machine
/// word. Numbers after the advertised data are ignored.
pub open spec fn text_graph_ok(s: Seq<u8>) -> bool {
    let toks = tokens_from(s, 15);
    &&& header_ok(s)
    &&& toks.len() >= 2
    &&& toks[0] <= usize::MAX
    &&& toks[1] <= usize::MAX
    &&& toks[0] >= 1
    &&& toks.len() >= 2 + toks[0] + toks[1]
    &&& (forall|k: int| 2 <= k < 2 + toks[0] + toks[1] ==> #[trigger] toks[k] <= usize::MAX)
    &&& toks[2] == 0
    &&& (forall|k: int| 2 < k < 2 + toks[0] ==> toks[k - 1] <= #[trigger] toks[k])
    &&& toks[2 + toks[0] - 1] <= toks[1]
    &&& (forall|k: int|
        2 + toks[0] <= k < 2 + toks[0] + toks[1] ==> #[trigger] toks[k] < toks[0])
}

/// Parses the textual adjacency-graph format into the per-node offsets and
/// the flat target list, rejecting exactly the inputs that do not describe a
/// well-formed graph.
#[verifier::loop_isolation(false)]
#[verifier::rlimit(100)]
#[verifier::spinoff_prover]
pub fn parse_adjacency_text(bytes: &[u8]) -> (r: Result<(Vec<usize>, Vec<usize>), GraphError>)
    ensures
        r is Ok <==> text_graph_ok(bytes@),
        r matches Ok((offsets, targets)) ==> ({
            let toks = tokens_from(bytes@, 15);
            &&& offsets@.len() == toks[0]
            &&& targets@.len() == toks[1]
            &&& (forall|k: int|
                0 <= k < offsets@.len() ==> (#[trigger] offsets@[k] as nat) == toks[2 + k])
            &&& (forall|k: int|
                0 <= k < targets@.len() ==> (#[trigger] targets@[k] as nat) == toks[2 + toks[0]
                    + k])
            &&& offsets@.len() > 0
            &&& offsets@[0] == 0
            &&& (forall|k: int| 0 < k < offsets@.len() ==> offsets@[k - 1] <= #[trigger] offsets@[k])
            &&& offsets@.last() <= targets@.len()
            &&& (forall|k: int|
                0 <= k < targets@.len() ==> (#[trigger] targets@[k] as int) < offsets@.len())
        }),
{
    let ghost toks = tokens_from(bytes@, 15);
    if bytes.len() < 15 {
        return Err(GraphError::BadHeader);
    }
    if !(bytes[0] == 65 && bytes[1] == 100 && bytes[2] == 106 && bytes[3] == 97 && bytes[4] == 99
        && bytes[5] == 101 && bytes[6] == 110 && bytes[7] == 99 && bytes[8] == 121 && bytes[9]
        == 71 && bytes[10] == 114 && bytes[11] == 97 && bytes[12] == 112 && bytes[13] == 104
        && bytes[14] == 10) {
        return Err(GraphError::BadHeader);
    }
    let (node_count, mut pos) = match next_number(bytes, 15) {
        Some(r) => r,
        None => {
            return Err(GraphError::MissingNumber);
        },
    };
    let (rel_count, pos2) = match next_number(bytes, pos) {
        Some(r) => r,
        None => {
            return Err(GraphError::MissingNumber);
        },
    };
    pos = pos2;
    if node_count == 0 {
        return Err(GraphError::BadOffsets);
    }
    let mut offsets: Vec<usize> = Vec::new();
    while offsets.len() < node_count
        invariant
            offsets@.len() <= node_count,
            pos <= bytes@.len(),
            toks.len() >= 2 + offsets@.len(),
            node_count as nat == toks[0],
            rel_count as nat == toks[1],
            tokens_from(bytes@, pos as int) =~= toks.skip(2 + offsets@.len() as int),
            forall|k: int| 0 <= k < offsets@.len() ==> (#[trigger] offsets@[k] as nat) == toks[2 + k],
        decreases node_count - offsets@.len(),
    {
        match next_number(bytes, pos) {
            Some((num, new_pos)) => {
                proof {
                    assert(toks.skip(2 + offsets@.len() as int)[0] == toks[2 + offsets@.len() as int]);
                    assert(tokens_from(bytes@, new_pos as int) =~= toks.skip(
                        2 + offsets@.len() as int,
                    ).drop_first());
                    assert(toks.skip(2 + offsets@.len() as int).drop_first() =~= toks.skip(
                        2 + offsets@.len() as int + 1,
                    ));
                }
                offsets.push(num);
                pos = new_pos;
            },
            None => {
                proof {
                    assert(toks.skip(2 + offsets@.len() as int).len() == 0 || toks.skip(
                        2 + offsets@.len() as int,
                    )[0] > usize::MAX);
                    if text_graph_ok(bytes@) {
                        assert(toks[2 + offsets@.len() as int] <= usize::MAX);
                        assert(toks.skip(2 + offsets@.len() as int)[0] == toks[2
                            + offsets@.len() as int]);
                        assert(false);
                    }
                }
                return Err(GraphError::MissingNumber);
            },
        }
    }
    let mut targets: Vec<usize> = Vec::new();
    while targets.len() < rel_count
        invariant
            targets@.len() <= rel_count,
            pos <= bytes@.len(),
            toks.len() >= 2 + node_count + targets@.len(),
            node_count as nat == toks[0],
            rel_count as nat == toks[1],
            offsets@.len() == node_count,
            forall|k: int| 0 <= k < offsets@.len() ==> (#[trigger] offsets@[k] as nat) == toks[2 + k],
            tokens_from(bytes@, pos as int) =~= toks.skip(2 + node_count + targets@.len() as int),
            forall|k: int|
                0 <= k < targets@.len() ==> (#[trigger] targets@[k] as nat) == toks[2 + node_count
                    + k],
        decreases rel_count - targets@.len(),
    {
        match next_number(bytes, pos) {
            Some((num, new_pos)) => {
                proof {
                    assert(toks.skip(2 + node_count + targets@.len() as int)[0] == toks[2
                        + node_count + targets@.len() as int]);
                    assert(tokens_from(bytes@, new_pos as int) =~= toks.skip(
                        2 + node_count + targets@.len() as int,
                    ).drop_first());
                    assert(toks.skip(2 + node_count + targets@.len() as int).drop_first()
                        =~= toks.skip(2 + node_count + targets@.len() as int + 1));
                }
                targets.push(num);
                pos = new_pos;
            },
            None => {
                proof {
                    if text_graph_ok(bytes@) {
                        assert(toks[2 + node_count + targets@.len() as int] <= usize::MAX);
                        assert(toks.skip(2 + node_count + targets@.len() as int)[0] == toks[2
                            + node_count + targets@.len() as int]);
                        assert(false);
                    }
                }
                return Err(GraphError::MissingNumber);
            },
        }
    }
    // Structural validity of what was read.
    if offsets[0] != 0 {
        return Err(GraphError::BadOffsets);
    }
    let mut k: usize = 1;
    while k < node_count
        invariant
            1 <= k <= node_count,
            forall|i: int| 0 < i < k ==> offsets@[i - 1] <= #[trigger] offsets@[i],
        decreases node_count - k,
    {
        if offsets[k - 1] > offsets[k] {
            proof {
                if text_graph_ok(bytes@) {
                    assert(toks[2 + k - 1] <= toks[2 + k as int]);
                }
            }
            return Err(GraphError::BadOffsets);
        }
        k = k + 1;
    }
    if offsets[node_count - 1] > rel_count {
        proof {
            if text_graph_ok(bytes@) {
                assert(toks[2 + toks[0] - 1] <= toks[1]);
            }
        }
        return Err(GraphError::BadOffsets);
    }
    let mut k: usize = 0;
    while k < rel_count
        invariant
            k <= rel_count,
            forall|i: int| 0 <= i < k ==> (#[trigger] targets@[i] as int) < node_count,
        decreases rel_count - k,
    {
        if targets[k] >= node_count {
            proof {
                if text_graph_ok(bytes@) {
                    assert(toks[2 + toks[0] + k as int] < toks[0]);
                }
            }
            return Err(GraphError::TargetOutOfRange);
        }
        k = k + 1;
    }
    proof {
        assert(text_graph_ok(bytes@)) by {
            assert forall|kk: int| 2 <= kk < 2 + toks[0] + toks[1] implies #[trigger] toks[kk]
                <= usize::MAX by {
                if kk < 2 + toks[0] {
                    assert(toks[kk] == offsets@[kk - 2] as nat);
                } else {
                    assert(toks[kk] == targets@[kk - 2 - toks[0]] as nat);
                }
            }
            assert forall|kk: int| 2 < kk < 2 + toks[0] implies toks[kk - 1] <= #[trigger] toks[kk] by {
                assert(offsets@[kk - 3] <= offsets@[kk - 2]);
            }
            assert forall|kk: int|
                2 + toks[0] <= kk < 2 + toks[0] + toks[1] implies #[trigger] toks[kk]
                < toks[0] by {
                assert((targets@[kk - 2 - toks[0]] as int) < node_count);
            }
        }
    }
    Ok((offsets, targets))
}

} // verus!

verus! {

// ---------------------------------------------------------------------------
// The little-endian binary format.
// ---------------------------------------------------------------------------

/// Eight little-endian bytes of a word.
pub open spec fn u64_le(x: u64) -> Seq<u8> {
    seq![
        x as u8,
        (x >> 8) as u8,
        (x >> 16) as u8,
        (x >> 24) as u8,
        (x >> 32) as u8,
        (x >> 40) as u8,
        (x >> 48) as u8,
        (x >> 56) as u8,
    ]
}

/// The byte image of a node table: one degree/offset pair per node.
pub open spec fn nodes_bytes(ns: Seq<Node>) -> Seq<u8>
    decreases ns.len(),
{
    if ns.len() == 0 {
        Seq::empty()
    } else {
        nodes_bytes(ns.drop_last()) + u64_le(ns.last().degree as u64) + u64_le(
            ns.last().offset as u64,
        )
    }
}

/// The byte image of a target list.
pub open spec fn targets_bytes(ts: Seq<usize>) -> Seq<u8>
    decreases ts.len(),
{
    if ts.len() == 0 {
        Seq::empty()
    } else {
        targets_bytes(ts.drop_last()) + u64_le(ts.last() as u64)
    }
}

/// The byte image of a pair of adjacency lists: the two counts, the out-list,
/// then the in-list.
pub open spec fn pair_bytes(out: AdjacencyList, inc: AdjacencyList) -> Seq<u8> {
    u64_le(out.nodes@.len() as u64) + u64_le(out.targets@.len() as u64) + nodes_bytes(out.nodes@)
        + targets_bytes(out.targets@) + nodes_bytes(inc.nodes@) + targets_bytes(inc.targets@)
}

/// The byte image of a whole graph.
pub open spec fn encode_spec(g: AdjacencyGraph) -> Seq<u8> {
    pair_bytes(g.out, g.inc)
}

/// Appends one word in little-endian order.
fn push_u64(out: &mut Vec<u8>, x: u64)
    ensures
        final(out)@ =~= old(out)@ + u64_le(x),
{
    out.push(x as u8);
    out.push((x >> 8) as u8);
    out.push((x >> 16) as u8);
    out.push((x >> 24) as u8);
    out.push((x >> 32) as u8);
    out.push((x >> 40) as u8);
    out.push((x >> 48) as u8);
    out.push((x >> 56) as u8);
}

/// Reads one little-endian word at `pos`.
fn read_u64(bytes: &[u8], pos: usize) -> (x: u64)
    requires
        pos + 8 <= bytes@.len(),
    ensures
        bytes@.subrange(pos as int, pos + 8) =~= u64_le(x),
{
    let len = bytes.len();
    proof {
        assert(pos + 8 <= len);
    }
    let b0 = *slice_index_get(bytes, pos);
    let b1 = *slice_index_get(bytes, pos + 1);
    let b2 = *slice_index_get(bytes, pos + 2);
    let b3 = *slice_index_get(bytes, pos + 3);
    let b4 = *slice_index_get(bytes, pos + 4);
    let b5 = *slice_index_get(bytes, pos + 5);
    let b6 = *slice_index_get(bytes, pos + 6);
    let b7 = *slice_index_get(bytes, pos + 7);
    let x = (b0 as u64) | (b1 as u64) << 8 | (b2 as u64) << 16 | (b3 as u64) << 24 | (b4 as u64)
        << 32 | (b5 as u64) << 40 | (b6 as u64) << 48 | (b7 as u64) << 56;
    proof {
        assert(x as u8 == b0 && (x >> 8) as u8 == b1 && (x >> 16) as u8 == b2 && (x >> 24) as u8
            == b3 && (x >> 32) as u8 == b4 && (x >> 40) as u8 == b5 && (x >> 48) as u8 == b6 && (x
            >> 56) as u8 == b7) by (bit_vector)
            requires
                x == (b0 as u64) | (b1 as u64) << 8 | (b2 as u64) << 16 | (b3 as u64) << 24 | (
                b4 as u64) << 32 | (b5 as u64) << 40 | (b6 as u64) << 48 | (b7 as u64) << 56,
        ;
    }
    x
}

/// Serializes a graph into its binary byte image.
#[verifier::loop_isolation(false)]
pub fn encode_graph(graph: &AdjacencyGraph) -> (r: Vec<u8>)
    ensures
        r@ =~= encode_spec(*graph),
{
    let mut out: Vec<u8> = Vec::new();
    push_u64(&mut out, graph.out.nodes.len() as u64);
    push_u64(&mut out, graph.out.targets.len() as u64);
    encode_nodes(&mut out, &graph.out.nodes);
    encode_targets(&mut out, &graph.out.targets);
    encode_nodes(&mut out, &graph.inc.nodes);
    encode_targets(&mut out, &graph.inc.targets);
    out
}

#[verifier::loop_isolation(false)]
fn encode_nodes(out: &mut Vec<u8>, ns: &Vec<Node>)
    ensures
        final(out)@ =~= old(out)@ + nodes_bytes(ns@),
{
    let ghost base = out@;
    let mut i: usize = 0;
    while i < ns.len()
        invariant
            i <= ns@.len(),
            out@ =~= base + nodes_bytes(ns@.take(i as int)),
        decreases ns@.len() - i,
    {
        let n = ns[i];
        push_u64(out, n.degree as u64);
        push_u64(out, n.offset as u64);
        proof {
            assert(ns@.take(i + 1).drop_last() =~= ns@.take(i as int));
            assert(ns@.take(i + 1).last() == ns@[i as int]);
        }
        i = i + 1;
    }
    proof {
        assert(ns@.take(ns@.len() as int) =~= ns@);
    }
}

#[verifier::loop_isolation(false)]
fn encode_targets(out: &mut Vec<u8>, ts: &Vec<usize>)
    ensures
        final(out)@ =~= old(out)@ + targets_bytes(ts@),
{
    let ghost base = out@;
    let mut i: usize = 0;
    while i < ts.len()
        invariant
            i <= ts@.len(),
            out@ =~= base + targets_bytes(ts@.take(i as int)),
        decreases ts@.len() - i,
    {
        push_u64(out, ts[i] as u64);
        proof {
            assert(ts@.take(i + 1).drop_last() =~= ts@.take(i as int));
            assert(ts@.take(i + 1).last() == ts@[i as int]);
        }
        i = i + 1;
    }
    proof {
        assert(ts@.take(ts@.len() as int) =~= ts@);
    }
}

/// Reads a node table of `count` entries starting at `pos`; fails only when
/// an entry does not fit the machine word, so it succeeds on the image of any
/// node table.
#[verifier::loop_isolation(false)]
fn decode_nodes(bytes: &[u8], pos: usize, count: usize) -> (r: Result<Vec<Node>, GraphError>)
    requires
        pos + count * 16 <= bytes@.len(),
    ensures
        r matches Ok(ns) ==> ns@.len() == count && bytes@.subrange(pos as int, pos + count * 16)
            =~= nodes_bytes(ns@),
        (exists|ns0: Seq<Node>|
            ns0.len() == count && #[trigger] nodes_bytes(ns0) == bytes@.subrange(
                pos as int,
                pos + count * 16,
            )) ==> r is Ok,
{
    let blen = bytes.len();
    let mut ns: Vec<Node> = Vec::new();
    let mut i: usize = 0;
    while i < count
        invariant
            i <= count,
            pos + count * 16 <= bytes@.len(),
            ns@.len() == i,
            bytes@.subrange(pos as int, pos + i * 16) =~= nodes_bytes(ns@),
        decreases count - i,
    {
        proof {
            assert(pos + i * 16 + 16 <= pos + count * 16) by (nonlinear_arith)
                requires
                    i < count,
            ;
            assert(pos + count * 16 <= blen);
        }
        let d = read_u64(bytes, pos + i * 16);
        let o = read_u64(bytes, pos + i * 16 + 8);
        if d > usize::MAX as u64 || o > usize::MAX as u64 {
            proof {
                if exists|ns0: Seq<Node>|
                    ns0.len() == count && #[trigger] nodes_bytes(ns0) == bytes@.subrange(
                        pos as int,
                        pos + count * 16,
                    ) {
                    let ns0 = choose|ns0: Seq<Node>|
                        ns0.len() == count && #[trigger] nodes_bytes(ns0) == bytes@.subrange(
                            pos as int,
                            pos + count * 16,
                        );
                    lemma_nodes_bytes_slice(ns0, i as int);
                    assert(nodes_bytes(ns0).subrange(16 * (i as int), 16 * (i as int) + 8)
                        =~= bytes@.subrange(pos + i * 16, pos + i * 16 + 8));
                    assert(nodes_bytes(ns0).subrange(16 * (i as int) + 8, 16 * (i as int) + 16)
                        =~= bytes@.subrange(pos + i * 16 + 8, pos + i * 16 + 16));
                    lemma_u64_le_injective(d, ns0[i as int].degree as u64);
                    lemma_u64_le_injective(o, ns0[i as int].offset as u64);
                }
            }
            return Err(GraphError::NumberTooLarge);
        }
        let node = Node { degree: d as usize, offset: o as usize };
        let ghost ns0 = ns@;
        ns.push(node);
        proof {
            assert(ns@.drop_last() =~= ns0);
            assert(bytes@.subrange(pos as int, pos + (i + 1) * 16) =~= bytes@.subrange(
                pos as int,
                pos + i * 16,
            ) + bytes@.subrange(pos + i * 16, pos + i * 16 + 8) + bytes@.subrange(
                pos + i * 16 + 8,
                pos + i * 16 + 16,
            ));
            assert(u64_le(d) =~= u64_le(node.degree as u64));
            assert(u64_le(o) =~= u64_le(node.offset as u64));
        }
        i = i + 1;
    }
    Ok(ns)
}

/// Reads a target list of `count` entries starting at `pos`; fails only when
/// an entry does not fit the machine word, so it succeeds on the image of any
/// target list.
#[verifier::loop_isolation(false)]
fn decode_targets(bytes: &[u8], pos: usize, count: usize) -> (r: Result<Vec<usize>, GraphError>)
    requires
        pos + count * 8 <= bytes@.len(),
    ensures
        r matches Ok(ts) ==> ts@.len() == count && bytes@.subrange(pos as int, pos + count * 8)
            =~= targets_bytes(ts@),
        (exists|ts0: Seq<usize>|
            ts0.len() == count && #[trigger] targets_bytes(ts0) == bytes@.subrange(
                pos as int,
                pos + count * 8,
            )) ==> r is Ok,
{
    let blen = bytes.len();
    let mut ts: Vec<usize> = Vec::new();
    let mut i: usize = 0;
    while i < count
        invariant
            i <= count,
            pos + count * 8 <= bytes@.len(),
            ts@.len() == i,
            bytes@.subrange(pos as int, pos + i * 8) =~= targets_bytes(ts@),
        decreases count - i,
    {
        proof {
            assert(pos + i * 8 + 8 <= pos + count * 8) by (nonlinear_arith)
                requires
                    i < count,
            ;
            assert(pos + count * 8 <= blen);
        }
        let t = read_u64(bytes, pos + i * 8);
        if t > usize::MAX as u64 {
            proof {
                if exists|ts0: Seq<usize>|
                    ts0.len() == count && #[trigger] targets_bytes(ts0) == bytes@.subrange(
                        pos as int,
                        pos + count * 8,
                    ) {
                    let ts0 = choose|ts0: Seq<usize>|
                        ts0.len() == count && #[trigger] targets_bytes(ts0) == bytes@.subrange(
                            pos as int,
                            pos + count * 8,
                        );
                    lemma_targets_bytes_slice(ts0, i as int);
                    assert(targets_bytes(ts0).subrange(8 * (i as int), 8 * (i as int) + 8)
                        =~= bytes@.subrange(pos + i * 8, pos + i * 8 + 8));
                    lemma_u64_le_injective(t, ts0[i as int] as u64);
                }
            }
            return Err(GraphError::NumberTooLarge);
        }
        let ghost ts0 = ts@;
        ts.push(t as usize);
        proof {
            assert(ts@.drop_last() =~= ts0);
            assert(bytes@.subrange(pos as int, pos + (i + 1) * 8) =~= bytes@.subrange(
                pos as int,
                pos + i * 8,
            ) + bytes@.subrange(pos + i * 8, pos + i * 8 + 8));
            assert(u64_le(t) =~= u64_le((t as usize) as u64));
        }
        i = i + 1;
    }
    Ok(ts)
}

} // verus!

verus! {

/// Checks that an adjacency list's slices partition its target array in node
/// order and that every target lies inside the universe.
#[verifier::loop_isolation(false)]
fn check_list(list: &AdjacencyList) -> (r: bool)
    ensures
        r == list.wf(),
{
    let node_count = list.nodes.len();
    let rel_count = list.targets.len();
    if node_count == 0 {
        return rel_count == 0;
    }
    let mut run: usize = 0;
    let mut i: usize = 0;
    while i < node_count
        invariant
            i <= node_count,
            node_count == list.nodes@.len(),
            rel_count == list.targets@.len(),
            run <= rel_count,
            i == 0 ==> run == 0,
            i > 0 ==> run == list.nodes@[i - 1].offset + list.nodes@[i - 1].degree,
            i > 0 ==> list.nodes@[0].offset == 0,
            forall|k: int|
                0 < k < i ==> (#[trigger] list.nodes@[k].offset) == list.nodes@[k - 1].offset
                    + list.nodes@[k - 1].degree,
            forall|k: int|
                0 <= k < i ==> (#[trigger] list.nodes@[k].offset) + list.nodes@[k].degree
                    <= rel_count,
        decreases node_count - i,
    {
        let n = list.nodes[i];
        if n.offset != run {
            return false;
        }
        if n.degree > rel_count - run {
            return false;
        }
        run = run + n.degree;
        i = i + 1;
    }
    if run != rel_count {
        return false;
    }
    let mut k: usize = 0;
    while k < rel_count
        invariant
            k <= rel_count,
            rel_count == list.targets@.len(),
            node_count == list.nodes@.len(),
            forall|j: int| 0 <= j < k ==> (#[trigger] list.targets@[j] as int) < node_count,
        decreases rel_count - k,
    {
        if targets_entry(list, k) >= node_count {
            return false;
        }
        k = k + 1;
    }
    true
}

/// One entry of the flat target array.
fn targets_entry(list: &AdjacencyList, k: usize) -> (r: usize)
    requires
        k < list.targets@.len(),
    ensures
        r == list.targets@[k as int],
{
    list.targets[k]
}

/// Occurrences of `x` among one node's neighbors.
#[verifier::loop_isolation(false)]
fn count_in_row(list: &AdjacencyList, row: usize, x: usize) -> (c: usize)
    requires
        list.wf(),
        (row as int) < list.nodes@.len(),
    ensures
        c == crate::graph::count_occ(list.adj()[row as int], x),
{
    let rels = list.rels(row);
    let ghost rw = list.adj()[row as int];
    let len = rels.len();
    let mut c: usize = 0;
    let mut k: usize = 0;
    while k < len
        invariant
            k <= len,
            len == rw.len(),
            c <= k,
            c == crate::graph::count_occ(rw.take(k as int), x),
        decreases len - k,
    {
        proof {
            assert(rw.take(k + 1).drop_last() =~= rw.take(k as int));
            assert(rw.take(k + 1).last() == rw[k as int]);
        }
        if *slice_index_get(rels, k) == x {
            c = c + 1;
        }
        k = k + 1;
    }
    proof {
        assert(rw.take(rw.len() as int) =~= rw);
    }
    c
}

/// Checks that the in-list inverts the out-list: each source occurs among a
/// target's in-neighbors exactly as often as the target occurs among the
/// source's out-neighbors.
#[verifier::loop_isolation(false)]
fn counts_consistent(out: &AdjacencyList, inc: &AdjacencyList) -> (r: bool)
    requires
        out.wf(),
        inc.wf(),
        inc.nodes@.len() == out.nodes@.len(),
    ensures
        r == (forall|s: int, t: int|
            0 <= s < out.nodes@.len() && 0 <= t < out.nodes@.len() ==> #[trigger] crate::graph::count_occ(
                inc.adj()[t],
                s as usize,
            ) == crate::graph::count_occ(out.adj()[s], t as usize)),
{
    let node_count = out.nodes.len();
    let mut s: usize = 0;
    while s < node_count
        invariant
            s <= node_count,
            node_count == out.nodes@.len(),
            forall|ss: int, t: int|
                0 <= ss < s && 0 <= t < node_count ==> #[trigger] crate::graph::count_occ(
                    inc.adj()[t],
                    ss as usize,
                ) == crate::graph::count_occ(out.adj()[ss], t as usize),
        decreases node_count - s,
    {
        let mut t: usize = 0;
        while t < node_count
            invariant
                s < node_count,
                t <= node_count,
                node_count == out.nodes@.len(),
                forall|tt: int|
                    0 <= tt < t ==> #[trigger] crate::graph::count_occ(inc.adj()[tt], s as usize)
                        == crate::graph::count_occ(out.adj()[s as int], tt as usize),
            decreases node_count - t,
        {
            let into = count_in_row(inc, t, s);
            let from = count_in_row(out, s, t);
            if into != from {
                proof {
                    assert(!(forall|si: int, ti: int|
                        0 <= si < out.nodes@.len() && 0 <= ti < out.nodes@.len()
                            ==> #[trigger] crate::graph::count_occ(inc.adj()[ti], si as usize)
                            == crate::graph::count_occ(out.adj()[si], ti as usize))) by {
                        assert(crate::graph::count_occ(inc.adj()[t as int], (s as int) as usize)
                            != crate::graph::count_occ(out.adj()[s as int], (t as int) as usize));
                    }
                }
                return false;
            }
            t = t + 1;
        }
        s = s + 1;
    }
    proof {
        assert forall|si: int, ti: int|
            0 <= si < out.nodes@.len() && 0 <= ti < out.nodes@.len() implies #[trigger] crate::graph::count_occ(
            inc.adj()[ti],
            si as usize,
        ) == crate::graph::count_occ(out.adj()[si], ti as usize) by {}
    }
    true
}

// ---------------------------------------------------------------------------
// Shape of the byte image, for the decoder's completeness.
// ---------------------------------------------------------------------------

/// The bytes are the exact image of some well-formed graph.
pub open spec fn binary_graph_ok(s: Seq<u8>) -> bool {
    exists|g0: AdjacencyGraph| #[trigger] encode_spec(g0) == s && g0.wf()
}

proof fn lemma_nodes_bytes_len(ns: Seq<Node>)
    ensures
        nodes_bytes(ns).len() == 16 * ns.len(),
    decreases ns.len(),
{
    if ns.len() > 0 {
        lemma_nodes_bytes_len(ns.drop_last());
    }
}

proof fn lemma_targets_bytes_len(ts: Seq<usize>)
    ensures
        targets_bytes(ts).len() == 8 * ts.len(),
    decreases ts.len(),
{
    if ts.len() > 0 {
        lemma_targets_bytes_len(ts.drop_last());
    }
}

/// Where each node's two words sit inside the node table's image.
proof fn lemma_nodes_bytes_slice(ns: Seq<Node>, k: int)
    requires
        0 <= k < ns.len(),
    ensures
        nodes_bytes(ns).subrange(16 * k, 16 * k + 8) =~= u64_le(ns[k].degree as u64),
        nodes_bytes(ns).subrange(16 * k + 8, 16 * k + 16) =~= u64_le(ns[k].offset as u64),
    decreases ns.len(),
{
    lemma_nodes_bytes_len(ns);
    lemma_nodes_bytes_len(ns.drop_last());
    if k < ns.len() - 1 {
        lemma_nodes_bytes_slice(ns.drop_last(), k);
        assert(nodes_bytes(ns).subrange(16 * k, 16 * k + 8) =~= nodes_bytes(
            ns.drop_last(),
        ).subrange(16 * k, 16 * k + 8));
        assert(nodes_bytes(ns).subrange(16 * k + 8, 16 * k + 16) =~= nodes_bytes(
            ns.drop_last(),
        ).subrange(16 * k + 8, 16 * k + 16));
    }
}

/// Where each target's word sits inside the target list's image.
proof fn lemma_targets_bytes_slice(ts: Seq<usize>, k: int)
    requires
        0 <= k < ts.len(),
    ensures
        targets_bytes(ts).subrange(8 * k, 8 * k + 8) =~= u64_le(ts[k] as u64),
    decreases ts.len(),
{
    lemma_targets_bytes_len(ts);
    lemma_targets_bytes_len(ts.drop_last());
    if k < ts.len() - 1 {
        lemma_targets_bytes_slice(ts.drop_last(), k);
        assert(targets_bytes(ts).subrange(8 * k, 8 * k + 8) =~= targets_bytes(
            ts.drop_last(),
        ).subrange(8 * k, 8 * k + 8));
    }
}

/// Two words with the same little-endian image are equal.
proof fn lemma_u64_le_injective(x: u64, y: u64)
    requires
        u64_le(x) =~= u64_le(y),
    ensures
        x == y,
{
    assert(x == y) by (bit_vector)
        requires
            x as u8 == y as u8,
            (x >> 8) as u8 == (y >> 8) as u8,
            (x >> 16) as u8 == (y >> 16) as u8,
            (x >> 24) as u8 == (y >> 24) as u8,
            (x >> 32) as u8 == (y >> 32) as u8,
            (x >> 40) as u8 == (y >> 40) as u8,
            (x >> 48) as u8 == (y >> 48) as u8,
            (x >> 56) as u8 == (y >> 56) as u8,
    ;
}

/// Node tables with the same byte image and the same size are equal.
proof fn lemma_nodes_bytes_injective(a: Seq<Node>, b: Seq<Node>)
    requires
        a.len() == b.len(),
        nodes_bytes(a) =~= nodes_bytes(b),
    ensures
        a =~= b,
{
    assert forall|k: int| 0 <= k < a.len() implies a[k] == b[k] by {
        lemma_nodes_bytes_slice(a, k);
        lemma_nodes_bytes_slice(b, k);
        lemma_u64_le_injective(a[k].degree as u64, b[k].degree as u64);
        lemma_u64_le_injective(a[k].offset as u64, b[k].offset as u64);
    }
}

/// Target lists with the same byte image and the same size are equal.
proof fn lemma_targets_bytes_injective(a: Seq<usize>, b: Seq<usize>)
    requires
        a.len() == b.len(),
        targets_bytes(a) =~= targets_bytes(b),
    ensures
        a =~= b,
{
    assert forall|k: int| 0 <= k < a.len() implies a[k] == b[k] by {
        lemma_targets_bytes_slice(a, k);
        lemma_targets_bytes_slice(b, k);
        lemma_u64_le_injective(a[k] as u64, b[k] as u64);
    }
}

/// The lengths and section offsets of a pair's byte image.
proof fn lemma_pair_regions(out: AdjacencyList, inc: AdjacencyList)
    ensures
        ({
            let img = pair_bytes(out, inc);
            let nbl = 16 * out.nodes@.len() as int;
            let tbl = 8 * out.targets@.len() as int;
            let nbl2 = 16 * inc.nodes@.len() as int;
            let tbl2 = 8 * inc.targets@.len() as int;
            &&& nodes_bytes(out.nodes@).len() == nbl
            &&& targets_bytes(out.targets@).len() == tbl
            &&& nodes_bytes(inc.nodes@).len() == nbl2
            &&& targets_bytes(inc.targets@).len() == tbl2
            &&& img.len() == 16 + nbl + tbl + nbl2 + tbl2
            &&& img.subrange(0, 8) =~= u64_le(out.nodes@.len() as u64)
            &&& img.subrange(8, 16) =~= u64_le(out.targets@.len() as u64)
            &&& img.subrange(16, 16 + nbl) =~= nodes_bytes(out.nodes@)
            &&& img.subrange(16 + nbl, 16 + nbl + tbl) =~= targets_bytes(out.targets@)
            &&& img.subrange(16 + nbl + tbl, 16 + nbl + tbl + nbl2) =~= nodes_bytes(inc.nodes@)
            &&& img.subrange(16 + nbl + tbl + nbl2, img.len() as int) =~= targets_bytes(
                inc.targets@,
            )
        }),
{
    lemma_nodes_bytes_len(out.nodes@);
    lemma_targets_bytes_len(out.targets@);
    lemma_nodes_bytes_len(inc.nodes@);
    lemma_targets_bytes_len(inc.targets@);
}

/// Pairs with the same byte image carry the same tables.
proof fn lemma_pair_bytes_injective(
    ao: AdjacencyList,
    ai: AdjacencyList,
    bo: AdjacencyList,
    bi: AdjacencyList,
)
    requires
        pair_bytes(ao, ai) == pair_bytes(bo, bi),
        ai.nodes@.len() == ao.nodes@.len(),
        ai.targets@.len() == ao.targets@.len(),
        bi.nodes@.len() == bo.nodes@.len(),
        bi.targets@.len() == bo.targets@.len(),
    ensures
        ao.nodes@ == bo.nodes@,
        ao.targets@ == bo.targets@,
        ai.nodes@ == bi.nodes@,
        ai.targets@ == bi.targets@,
{
    vstd::std_specs::vec::axiom_spec_len(&ao.nodes);
    vstd::std_specs::vec::axiom_spec_len(&ao.targets);
    vstd::std_specs::vec::axiom_spec_len(&ai.nodes);
    vstd::std_specs::vec::axiom_spec_len(&ai.targets);
    vstd::std_specs::vec::axiom_spec_len(&bo.nodes);
    vstd::std_specs::vec::axiom_spec_len(&bo.targets);
    vstd::std_specs::vec::axiom_spec_len(&bi.nodes);
    vstd::std_specs::vec::axiom_spec_len(&bi.targets);
    lemma_pair_regions(ao, ai);
    lemma_pair_regions(bo, bi);
    let img = pair_bytes(ao, ai);
    assert(img.subrange(0, 8) =~= pair_bytes(bo, bi).subrange(0, 8));
    lemma_u64_le_injective(ao.nodes@.len() as u64, bo.nodes@.len() as u64);
    assert(img.subrange(8, 16) =~= pair_bytes(bo, bi).subrange(8, 16));
    lemma_u64_le_injective(ao.targets@.len() as u64, bo.targets@.len() as u64);
    assert(ao.nodes@.len() == bo.nodes@.len());
    assert(ao.targets@.len() == bo.targets@.len());
    assert(nodes_bytes(ao.nodes@) =~= nodes_bytes(bo.nodes@));
    lemma_nodes_bytes_injective(ao.nodes@, bo.nodes@);
    assert(targets_bytes(ao.targets@) =~= targets_bytes(bo.targets@));
    lemma_targets_bytes_injective(ao.targets@, bo.targets@);
    assert(nodes_bytes(ai.nodes@) =~= nodes_bytes(bi.nodes@));
    lemma_nodes_bytes_injective(ai.nodes@, bi.nodes@);
    assert(targets_bytes(ai.targets@) =~= targets_bytes(bi.targets@));
    lemma_targets_bytes_injective(ai.targets@, bi.targets@);
}

/// Reads the two counts and the four sections of a binary image, verifying
/// the exact length. Succeeds on the byte image of any pair of tables — in
/// particular whenever the input is a well-formed graph's image.
#[verifier::loop_isolation(false)]
#[verifier::rlimit(100)]
#[verifier::spinoff_prover]
fn decode_sections(bytes: &[u8]) -> (r: Result<(AdjacencyList, AdjacencyList), GraphError>)
    ensures
        r matches Ok((out, inc)) ==> ({
            &&& bytes@ == pair_bytes(out, inc)
            &&& inc.nodes@.len() == out.nodes@.len()
            &&& inc.targets@.len() == out.targets@.len()
        }),
        binary_graph_ok(bytes@) ==> r is Ok,
{
    let ghost gw: AdjacencyGraph = if binary_graph_ok(bytes@) {
        choose|g0: AdjacencyGraph| #[trigger] encode_spec(g0) == bytes@ && g0.wf()
    } else {
        arbitrary()
    };
    proof {
        if binary_graph_ok(bytes@) {
            lemma_pair_regions(gw.out, gw.inc);
            vstd::std_specs::vec::axiom_spec_len(&gw.out.nodes);
            vstd::std_specs::vec::axiom_spec_len(&gw.out.targets);
        }
    }
    let blen = bytes.len();
    if blen < 16 {
        return Err(GraphError::Truncated);
    }
    let nc64 = read_u64(bytes, 0);
    let rc64 = read_u64(bytes, 8);
    proof {
        if binary_graph_ok(bytes@) {
            assert(bytes@.subrange(0, 8) =~= u64_le(gw.out.nodes@.len() as u64));
            assert(bytes@.subrange(8, 16) =~= u64_le(gw.out.targets@.len() as u64));
            lemma_u64_le_injective(nc64, gw.out.nodes@.len() as u64);
            lemma_u64_le_injective(rc64, gw.out.targets@.len() as u64);
        }
    }
    if nc64 > usize::MAX as u64 || rc64 > usize::MAX as u64 {
        return Err(GraphError::NumberTooLarge);
    }
    let node_count = nc64 as usize;
    let rel_count = rc64 as usize;
    let expected: u128 = 16u128 + 2u128 * (node_count as u128) * 16u128 + 2u128 * (rel_count
        as u128) * 8u128;
    proof {
        if binary_graph_ok(bytes@) {
            assert((blen as u128) == expected) by (nonlinear_arith)
                requires
                    blen as int == 16 + 16 * (node_count as int) + 8 * (rel_count as int) + 16 * (
                    node_count as int) + 8 * (rel_count as int),
                    expected == 16u128 + 2u128 * (node_count as u128) * 16u128 + 2u128 * (rel_count
                        as u128) * 8u128,
                    node_count <= usize::MAX,
                    rel_count <= usize::MAX,
            ;
        }
    }
    if (blen as u128) < expected {
        return Err(GraphError::Truncated);
    }
    if (blen as u128) > expected {
        return Err(GraphError::TrailingBytes);
    }
    proof {
        assert(16 + node_count * 16 + rel_count * 8 + node_count * 16 + rel_count * 8
            == blen as int) by (nonlinear_arith)
            requires
                16u128 + 2u128 * (node_count as u128) * 16u128 + 2u128 * (rel_count as u128)
                    * 8u128 == blen as u128,
        ;
    }
    let out_nodes_pos: usize = 16;
    let out_targets_pos = out_nodes_pos + node_count * 16;
    let in_nodes_pos = out_targets_pos + rel_count * 8;
    let in_targets_pos = in_nodes_pos + node_count * 16;
    proof {
        if binary_graph_ok(bytes@) {
            assert(bytes@.subrange(16, 16 + node_count * 16) =~= nodes_bytes(gw.out.nodes@));
            assert(bytes@.subrange(out_targets_pos as int, out_targets_pos + rel_count * 8)
                =~= targets_bytes(gw.out.targets@));
            assert(bytes@.subrange(in_nodes_pos as int, in_nodes_pos + node_count * 16)
                =~= nodes_bytes(gw.inc.nodes@));
            assert(bytes@.subrange(in_targets_pos as int, in_targets_pos + rel_count * 8)
                =~= targets_bytes(gw.inc.targets@));
        }
    }
    let out_nodes = match decode_nodes(bytes, out_nodes_pos, node_count) {
        Ok(v) => v,
        Err(e) => {
            return Err(e);
        },
    };
    let out_targets = match decode_targets(bytes, out_targets_pos, rel_count) {
        Ok(v) => v,
        Err(e) => {
            return Err(e);
        },
    };
    let in_nodes = match decode_nodes(bytes, in_nodes_pos, node_count) {
        Ok(v) => v,
        Err(e) => {
            return Err(e);
        },
    };
    let in_targets = match decode_targets(bytes, in_targets_pos, rel_count) {
        Ok(v) => v,
        Err(e) => {
            return Err(e);
        },
    };
    let out = AdjacencyList { nodes: out_nodes, targets: out_targets };
    let inc = AdjacencyList { nodes: in_nodes, targets: in_targets };
    proof {
        assert(bytes@ =~= pair_bytes(out, inc)) by {
            lemma_pair_regions(out, inc);
        }
    }
    Ok((out, inc))
}

/// Deserializes the binary byte image back into a graph, with the default
/// work threshold. It succeeds exactly on the exact byte image of a
/// well-formed graph — in particular on everything `encode_graph` writes —
/// and the returned graph re-encodes to exactly the input bytes.
#[verifier::loop_isolation(false)]
#[verifier::rlimit(100)]
#[verifier::spinoff_prover]
pub fn decode_graph(bytes: &[u8]) -> (r: Result<AdjacencyGraph, GraphError>)
    ensures
        r is Ok <==> binary_graph_ok(bytes@),
        r matches Ok(g) ==> ({
            &&& g.wf()
            &&& bytes@ =~= encode_spec(g)
            &&& g.threshold == g.out.targets@.len() / 20
        }),
{
    let (out, inc) = match decode_sections(bytes) {
        Ok(p) => p,
        Err(e) => {
            return Err(e);
        },
    };
    proof {
        if binary_graph_ok(bytes@) {
            let gw = choose|g0: AdjacencyGraph| #[trigger] encode_spec(g0) == bytes@ && g0.wf();
            lemma_pair_bytes_injective(out, inc, gw.out, gw.inc);
            assert(out.wf() == gw.out.wf());
            assert(inc.wf() == gw.inc.wf());
            assert forall|x: int| 0 <= x < out.nodes@.len() implies #[trigger] out.adj()[x]
                == gw.out.adj()[x] by {
                assert(out.adj()[x] =~= gw.out.adj()[x]);
            }
            assert forall|x: int| 0 <= x < inc.nodes@.len() implies #[trigger] inc.adj()[x]
                == gw.inc.adj()[x] by {
                assert(inc.adj()[x] =~= gw.inc.adj()[x]);
            }
        }
    }
    if !check_list(&out) {
        return Err(GraphError::BadOffsets);
    }
    if !check_list(&inc) {
        return Err(GraphError::BadOffsets);
    }
    if !counts_consistent(&out, &inc) {
        proof {
            if binary_graph_ok(bytes@) {
                let gw = choose|g0: AdjacencyGraph| #[trigger] encode_spec(g0) == bytes@
                    && g0.wf();
                lemma_pair_bytes_injective(out, inc, gw.out, gw.inc);
                assert forall|si: int, ti: int|
                    0 <= si < out.nodes@.len() && 0 <= ti < out.nodes@.len() implies #[trigger] crate::graph::count_occ(
                    inc.adj()[ti],
                    si as usize,
                ) == crate::graph::count_occ(out.adj()[si], ti as usize) by {
                    assert(crate::graph::count_occ(gw.inc.adj()[ti], si as usize)
                        == crate::graph::count_occ(gw.out.adj()[si], ti as usize));
                    assert(inc.adj()[ti] =~= gw.inc.adj()[ti]);
                    assert(out.adj()[si] =~= gw.out.adj()[si]);
                }
            }
        }
        return Err(GraphError::InconsistentAdjacency);
    }
    let rel_count = out.targets.len();
    let threshold = rel_count / 20;
    let g = AdjacencyGraph { out, inc, threshold };
    proof {
        assert(g.wf());
        assert(bytes@ =~= encode_spec(g));
        assert(binary_graph_ok(bytes@)) by {
            assert(encode_spec(g) == bytes@ && g.wf());
        }
    }
    Ok(g)
}

} // verus!
