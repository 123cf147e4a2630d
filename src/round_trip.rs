//! Round trip from a graph to its address index and back.
use vstd::prelude::*;
use vstd::multiset::Multiset;
use crate::basic_block::span_of;
use crate::graph::{CflowEdge, ControlFlowGraph, ControlFlowTarget};
use crate::index::{
    block_destinations, block_mnemonics, block_sources, chain_destinations, chain_sources,
    edge_destination_entry, edge_destinations, edge_source_entry, edge_sources,
    insert_all_by_start, jumps_elsewhere, lemma_insert_all_sorted, lemma_split_blocks,
    lemma_upper_bound_in_range,
    sorted_by_start, split_blocks, starts_block, upper_bound, IndexEdge, is_first_tail,
    is_first_head, tail_block, head_block, wire, is_assembly, starts_at, holds_blocks,
};
use crate::function::{index_destinations, index_mnemonics, index_sources, Function};
use crate::guard::Guard;
use crate::mnemonic::{bound_contains, Mnemonic};
use crate::value::Rvalue;

verus! {

/// The blocks `ss` read one after the other.
pub open spec fn flatten_blocks(ss: Seq<Seq<Mnemonic>>) -> Seq<Mnemonic>
    decreases ss.len(),
{
    if ss.len() == 0 {
        Seq::empty()
    } else {
        flatten_blocks(ss.drop_last()) + ss.last()
    }
}

/// Cutting instructions into blocks keeps every instruction, in order.
pub proof fn lemma_split_keeps_order(
    ms: Seq<Mnemonic>,
    bs: Seq<IndexEdge>,
    bd: Seq<IndexEdge>,
    entry: u64,
)
    ensures
        flatten_blocks(split_blocks(ms, bs, bd, entry)) == ms,
    decreases ms.len(),
{
    if ms.len() == 0 {
        assert(ms == Seq::<Mnemonic>::empty());
    } else if ms.len() == 1 {
        assert(seq![seq![ms[0]]].drop_last() == Seq::<Seq<Mnemonic>>::empty());
        assert(ms == seq![ms[0]]);
        assert(Seq::<Mnemonic>::empty() + seq![ms[0]] == seq![ms[0]]);
        assert(flatten_blocks(Seq::<Seq<Mnemonic>>::empty()) == Seq::<Mnemonic>::empty());
        assert(split_blocks(ms, bs, bd, entry) == seq![seq![ms[0]]]);
        assert(flatten_blocks(seq![seq![ms[0]]]) == flatten_blocks(Seq::<Seq<Mnemonic>>::empty())
            + seq![ms[0]]);
    } else {
        let init = ms.drop_last();
        let l = ms.last();
        lemma_split_keeps_order(init, bs, bd, entry);
        lemma_split_blocks(init, bs, bd, entry);
        let prev = split_blocks(init, bs, bd, entry);
        assert(init.push(l) == ms);
        if starts_block(bs, bd, ms[ms.len() - 2], l, entry) {
            assert(prev.push(seq![l]).drop_last() == prev);
            assert(init + seq![l] == init.push(l));
            assert(split_blocks(ms, bs, bd, entry) == prev.push(seq![l]));
            assert(flatten_blocks(prev.push(seq![l])) == flatten_blocks(prev) + seq![l]);
        } else {
            let u = prev.update(prev.len() - 1, prev.last().push(l));
            assert(u.drop_last() == prev.drop_last());
            assert(flatten_blocks(prev) == flatten_blocks(prev.drop_last()) + prev.last());
            assert(flatten_blocks(prev.drop_last()) + prev.last().push(l) == (flatten_blocks(
                prev.drop_last(),
            ) + prev.last()).push(l));
            assert(split_blocks(ms, bs, bd, entry) == u);
            assert(flatten_blocks(u) == flatten_blocks(u.drop_last()) + u.last());
        }
    }
}

/// Recording instructions into an index adds exactly those instructions.
pub proof fn lemma_insert_all_keeps_instructions(base: Seq<Mnemonic>, ms: Seq<Mnemonic>)
    ensures
        insert_all_by_start(base, ms).to_multiset() == base.to_multiset().add(ms.to_multiset()),
    decreases ms.len(),
{
    broadcast use vstd::seq_lib::to_multiset_build, vstd::seq_lib::to_multiset_insert;
    broadcast use vstd::multiset::group_multiset_axioms;

    if ms.len() == 0 {
        broadcast use vstd::seq_lib::to_multiset_len, vstd::multiset::lemma_multiset_empty_len;
        assert(ms.to_multiset().len() == 0);
        assert(ms.to_multiset() =~= Multiset::empty());
        assert(base.to_multiset().add(Multiset::empty()) =~= base.to_multiset());
    } else {
        let init = ms.drop_last();
        lemma_insert_all_keeps_instructions(base, init);
        let s = insert_all_by_start(base, init);
        let k = upper_bound(s, ms.last().area.start);
        lemma_insert_all_sorted(Seq::empty(), Seq::empty());
        lemma_upper_bound_in_range(s, ms.last().area.start);
        assert(init.push(ms.last()) == ms);
        assert(s.insert(k, ms.last()).to_multiset() == s.to_multiset().insert(ms.last()));
        assert(base.to_multiset().add(ms.to_multiset()) =~= base.to_multiset().add(
            init.to_multiset(),
        ).insert(ms.last()));
    }
}

/// Assembling the index of a graph neither loses nor invents an instruction:
/// the index holds the instructions of the graph's blocks, each once and
/// ordered by start address, and the assembled blocks, read one after the
/// other, are exactly that sequence, whatever the entry.
pub proof fn lemma_round_trip_keeps_instructions(g: ControlFlowGraph, entry: u64)
    ensures
        sorted_by_start(index_mnemonics(g)),
        index_mnemonics(g).to_multiset() == block_mnemonics(g.vertices@).to_multiset(),
        flatten_blocks(
            split_blocks(index_mnemonics(g), index_sources(g), index_destinations(g), entry),
        ) == index_mnemonics(g),
{
    lemma_insert_all_sorted(Seq::empty(), block_mnemonics(g.vertices@));
    lemma_insert_all_keeps_instructions(Seq::empty(), block_mnemonics(g.vertices@));
    assert(Seq::<Mnemonic>::empty().to_multiset() =~= Multiset::empty()) by {
        broadcast use vstd::seq_lib::to_multiset_len, vstd::multiset::lemma_multiset_empty_len;
        assert(Seq::<Mnemonic>::empty().to_multiset().len() == 0);
    }
    assert(Multiset::<Mnemonic>::empty().add(block_mnemonics(g.vertices@).to_multiset())
        =~= block_mnemonics(g.vertices@).to_multiset()) by {
        broadcast use vstd::multiset::group_multiset_axioms;
    }
    lemma_split_keeps_order(index_mnemonics(g), index_sources(g), index_destinations(g), entry);
}

/// The blocks of the first `n` vertices, read one after the other, are the
/// first `n` of `blocks`.
proof fn lemma_blocks_read_in_order(vs: Seq<ControlFlowTarget>, blocks: Seq<Seq<Mnemonic>>, n: int)
    requires
        holds_blocks(vs, blocks),
        0 <= n <= blocks.len(),
    ensures
        block_mnemonics(vs.take(n)) == flatten_blocks(blocks.take(n)),
    decreases n,
{
    if n == 0 {
        assert(vs.take(0) == Seq::<ControlFlowTarget>::empty());
        assert(blocks.take(0) == Seq::<Seq<Mnemonic>>::empty());
    } else {
        lemma_blocks_read_in_order(vs, blocks, n - 1);
        assert(vs.take(n).drop_last() == vs.take(n - 1));
        assert(vs.take(n).last() == vs[n - 1]);
        assert(blocks.take(n).drop_last() == blocks.take(n - 1));
        assert(blocks.take(n).last() == blocks[n - 1]);
        assert(vs[n - 1] is Resolved);
    }
}

/// The blocks of an assembled graph, read vertex after vertex, hold exactly
/// the instructions it was assembled from, in their order.
pub proof fn lemma_assembly_keeps_instructions(
    vs: Seq<ControlFlowTarget>,
    es: Seq<CflowEdge>,
    ms: Seq<Mnemonic>,
    bs: Seq<IndexEdge>,
    bd: Seq<IndexEdge>,
    entry: u64,
)
    requires
        is_assembly(vs, es, ms, bs, bd, entry),
    ensures
        block_mnemonics(vs) == ms,
{
    let blocks = split_blocks(ms, bs, bd, entry);
    let nb = blocks.len() as int;
    let xs = wire(blocks, bs).0;
    assert forall|v: int| nb <= v < vs.len() implies (#[trigger] vs[v]) is Unresolved by {
        assert(vs[nb + (v - nb)] == ControlFlowTarget::Unresolved(Rvalue::Constant(xs[v - nb])));
    }
    lemma_targets_add_nothing(vs, nb);
    lemma_blocks_read_in_order(vs, blocks, nb);
    assert(blocks.take(nb) == blocks);
    lemma_split_keeps_order(ms, bs, bd, entry);
}

/// `ms` is a non-empty run of adjacent, non-empty instructions.
pub open spec fn is_run(ms: Seq<Mnemonic>) -> bool {
    &&& ms.len() > 0
    &&& forall|k: int| 0 <= k < ms.len() ==> (#[trigger] ms[k]).area.start < ms[k].area.end
    &&& forall|k: int| 0 <= k < ms.len() - 1 ==> (#[trigger] ms[k]).area.end == ms[k + 1].area.start
}

/// The instructions of vertex `u`.
pub open spec fn block_of(vs: Seq<ControlFlowTarget>, u: int) -> Seq<Mnemonic> {
    vs[u]->Resolved_0.mnemonics@
}

/// Every vertex is a block over the interval it spans, made of a run of
/// instructions, and each block lies below every later one.
pub open spec fn laid_out(vs: Seq<ControlFlowTarget>) -> bool {
    &&& forall|u: int|
        0 <= u < vs.len() ==> {
            &&& (#[trigger] vs[u]) is Resolved
            &&& is_run(block_of(vs, u))
            &&& vs[u]->Resolved_0.wf()
        }
    &&& forall|u: int, v: int|
        #![trigger block_of(vs, u), block_of(vs, v)]
        0 <= u < v < vs.len() ==> block_of(vs, u).last().area.end <= block_of(vs, v)[0].area.start
}

proof fn lemma_run_order(ms: Seq<Mnemonic>, j: int)
    requires
        is_run(ms),
        0 <= j < ms.len(),
    ensures
        forall|k: int| 0 <= k < j ==> ms[k].area.end <= ms[j].area.start,
    decreases j,
{
    if j > 0 {
        lemma_run_order(ms, j - 1);
        assert(ms[j - 1].area.end == ms[j].area.start);
        assert forall|k: int| 0 <= k < j implies ms[k].area.end <= ms[j].area.start by {
            if k < j - 1 {
                assert(ms[k].area.end <= ms[j - 1].area.start);
                assert(ms[j - 1].area.start < ms[j - 1].area.end);
            }
        }
    }
}

/// In a run, starts strictly increase, and every instruction lies between
/// the start of the first and the end of the last.
pub proof fn lemma_run(ms: Seq<Mnemonic>)
    requires
        is_run(ms),
    ensures
        forall|k: int, j: int| 0 <= k < j < ms.len() ==> ms[k].area.end <= ms[j].area.start,
        forall|k: int|
            0 <= k < ms.len() ==> ms[0].area.start <= ms[k].area.start && ms[k].area.end
                <= ms.last().area.end,
        span_of(ms) == (crate::mnemonic::Bound {
            start: ms[0].area.start,
            end: ms.last().area.end,
        }),
    decreases ms.len(),
{
    assert forall|k: int, j: int| 0 <= k < j < ms.len() implies ms[k].area.end
        <= ms[j].area.start by {
        lemma_run_order(ms, j);
    }
    assert forall|k: int| 0 <= k < ms.len() implies ms[0].area.start <= ms[k].area.start
        && ms[k].area.end <= ms.last().area.end by {
        if k > 0 {
            lemma_run_order(ms, k);
            assert(ms[0].area.start < ms[0].area.end);
        }
        if k < ms.len() - 1 {
            lemma_run_order(ms, ms.len() - 1);
            assert(ms.last().area.start < ms.last().area.end);
        }
    }
    if ms.len() > 1 {
        let init = ms.drop_last();
        assert(is_run(init)) by {
            assert forall|k: int| 0 <= k < init.len() - 1 implies (#[trigger] init[k]).area.end
                == init[k + 1].area.start by {
                assert(ms[k].area.end == ms[k + 1].area.start);
            }
        }
        lemma_run(init);
        lemma_run_order(ms, ms.len() - 1);
        assert(init.last() == ms[ms.len() - 2]);
    }
}

/// In laid-out vertices, an instruction start names one instruction.
pub proof fn lemma_same_start(vs: Seq<ControlFlowTarget>, u: int, k: int, w: int, j: int)
    requires
        laid_out(vs),
        0 <= u < vs.len(),
        0 <= w < vs.len(),
        0 <= k < block_of(vs, u).len(),
        0 <= j < block_of(vs, w).len(),
        block_of(vs, u)[k].area.start == block_of(vs, w)[j].area.start,
    ensures
        u == w,
        k == j,
{
    assert(vs[u] is Resolved && is_run(block_of(vs, u)));
    assert(vs[w] is Resolved && is_run(block_of(vs, w)));
    lemma_run(block_of(vs, u));
    lemma_run(block_of(vs, w));
    if u < w {
        assert(block_of(vs, u).last().area.end < block_of(vs, w)[0].area.start);
    } else if w < u {
        assert(block_of(vs, w).last().area.end < block_of(vs, u)[0].area.start);
    }
}

/// A prefix of laid-out vertices is laid out.
pub proof fn lemma_laid_out_prefix(vs: Seq<ControlFlowTarget>, n: int)
    requires
        laid_out(vs),
        0 <= n <= vs.len(),
    ensures
        laid_out(vs.take(n)),
        forall|u: int| 0 <= u < n ==> #[trigger] block_of(vs.take(n), u) == block_of(vs, u),
{
    assert forall|u: int| 0 <= u < n implies #[trigger] block_of(vs.take(n), u) == block_of(vs, u) by {
        assert(vs.take(n)[u] == vs[u]);
    }
    assert forall|u: int, v: int|
        #![trigger block_of(vs.take(n), u), block_of(vs.take(n), v)]
        0 <= u < v < n implies block_of(vs.take(n), u).last().area.end <= block_of(
            vs.take(n),
            v,
        )[0].area.start by {
        assert(block_of(vs, u) == block_of(vs.take(n), u));
        assert(block_of(vs, v) == block_of(vs.take(n), v));
    }
    assert forall|u: int| 0 <= u < n implies {
        &&& (#[trigger] vs.take(n)[u]) is Resolved
        &&& is_run(block_of(vs.take(n), u))
        &&& vs.take(n)[u]->Resolved_0.wf()
    } by {
        assert(vs.take(n)[u] == vs[u]);
    }
}

/// The instructions of laid-out vertices are ordered by start address, and
/// all end by the end of the last block.
pub proof fn lemma_laid_out_sorted(vs: Seq<ControlFlowTarget>)
    requires
        laid_out(vs),
    ensures
        sorted_by_start(block_mnemonics(vs)),
        forall|i: int|
            0 <= i < block_mnemonics(vs).len() ==> (#[trigger] block_mnemonics(vs)[i]).area.start
                < block_mnemonics(vs)[i].area.end,
        vs.len() > 0 ==> block_mnemonics(vs).len() > 0 && block_mnemonics(vs).last()
            == block_of(vs, vs.len() - 1).last(),
        vs.len() > 0 ==> forall|i: int|
            0 <= i < block_mnemonics(vs).len() ==> (#[trigger] block_mnemonics(vs)[i]).area.end
                <= block_of(vs, vs.len() - 1).last().area.end,
    decreases vs.len(),
{
    if vs.len() > 0 {
        let n = vs.len() - 1;
        let init = vs.drop_last();
        lemma_laid_out_prefix(vs, n);
        assert(init == vs.take(n));
        lemma_laid_out_sorted(init);
        let p = block_mnemonics(init);
        let b = block_of(vs, n);
        assert(vs[n] is Resolved && is_run(b));
        lemma_run(b);
        assert(block_mnemonics(vs) == p + b);
        let all = p + b;
        if n > 0 {
            assert(block_of(vs, n - 1).last().area.end <= b[0].area.start);
            assert(block_of(init, n - 1) == block_of(vs, n - 1));
        }
        assert forall|i: int, j: int| 0 <= i < j < all.len() implies all[i].area.start
            <= all[j].area.start by {
            if j < p.len() {
                assert(all[i] == p[i] && all[j] == p[j]);
            } else if i >= p.len() {
                assert(all[i] == b[i - p.len()] && all[j] == b[j - p.len()]);
                assert(b[i - p.len()].area.start < b[i - p.len()].area.end);
            } else {
                assert(all[i] == p[i] && all[j] == b[j - p.len()]);
                assert(p[i].area.start < p[i].area.end);
            }
        }
        assert forall|i: int| 0 <= i < all.len() implies (#[trigger] all[i]).area.start
            < all[i].area.end && all[i].area.end <= b.last().area.end by {
            if i < p.len() {
                assert(all[i] == p[i]);
                assert(b[0].area.start < b[0].area.end);
            } else {
                assert(all[i] == b[i - p.len()]);
            }
        }
        assert(all.last() == b.last());
    }
}

/// Recording an ordered sequence of instructions gives that sequence.
pub proof fn lemma_insert_sorted_identity(ms: Seq<Mnemonic>)
    requires
        sorted_by_start(ms),
    ensures
        insert_all_by_start(Seq::empty(), ms) == ms,
    decreases ms.len(),
{
    if ms.len() > 0 {
        let init = ms.drop_last();
        assert(sorted_by_start(init));
        lemma_insert_sorted_identity(init);
        assert(upper_bound(init, ms.last().area.start) == init.len());
        assert(init.insert(init.len() as int, ms.last()) == ms);
    }
}

/// The fall-throughs of a run of instructions, one for each adjacent pair.
proof fn lemma_chain_shape(ms: Seq<Mnemonic>)
    ensures
        ms.len() == 0 ==> chain_sources(ms).len() == 0 && chain_destinations(ms).len() == 0,
        ms.len() > 0 ==> chain_sources(ms).len() == ms.len() - 1 && chain_destinations(ms).len()
            == ms.len() - 1,
        forall|i: int|
            0 <= i < chain_sources(ms).len() ==> #[trigger] chain_sources(ms)[i] == (IndexEdge {
                address: ms[i].area.start,
                other: Some(ms[i + 1].area.start),
                guard: Guard::Always,
            }),
        forall|i: int|
            0 <= i < chain_destinations(ms).len() ==> #[trigger] chain_destinations(ms)[i]
                == (IndexEdge {
                address: ms[i + 1].area.start,
                other: Some(ms[i].area.start),
                guard: Guard::Always,
            }),
    decreases ms.len(),
{
    if ms.len() >= 2 {
        let init = ms.drop_last();
        lemma_chain_shape(init);
        assert forall|i: int| 0 <= i < init.len() implies #[trigger] init[i] == ms[i] by {}
    }
}

/// `e` is the fall-through, by source, from an instruction of a block of
/// `vs` to the next one in that block.
pub open spec fn fall_through_source(vs: Seq<ControlFlowTarget>, e: IndexEdge) -> bool {
    exists|u: int, k: int|
        #![trigger block_of(vs, u)[k]]
        0 <= u < vs.len() && 0 <= k < block_of(vs, u).len() - 1 && e == (IndexEdge {
            address: block_of(vs, u)[k].area.start,
            other: Some(block_of(vs, u)[k + 1].area.start),
            guard: Guard::Always,
        })
}

/// `e` is the fall-through, by destination, from an instruction of a block
/// of `vs` to the next one in that block.
pub open spec fn fall_through_destination(vs: Seq<ControlFlowTarget>, e: IndexEdge) -> bool {
    exists|u: int, k: int|
        #![trigger block_of(vs, u)[k]]
        0 <= u < vs.len() && 0 <= k < block_of(vs, u).len() - 1 && e == (IndexEdge {
            address: block_of(vs, u)[k + 1].area.start,
            other: Some(block_of(vs, u)[k].area.start),
            guard: Guard::Always,
        })
}

/// A fall-through of the first vertices is one of all of them.
proof fn lemma_fall_through_extend(vs: Seq<ControlFlowTarget>, e: IndexEdge, d: IndexEdge)
    requires
        vs.len() > 0,
    ensures
        fall_through_source(vs.drop_last(), e) ==> fall_through_source(vs, e),
        fall_through_destination(vs.drop_last(), d) ==> fall_through_destination(vs, d),
{
    let init = vs.drop_last();
    if fall_through_source(init, e) {
        let (u, k) = choose|u: int, k: int|
            #![trigger block_of(init, u)[k]]
            0 <= u < init.len() && 0 <= k < block_of(init, u).len() - 1 && e == (IndexEdge {
                address: block_of(init, u)[k].area.start,
                other: Some(block_of(init, u)[k + 1].area.start),
                guard: Guard::Always,
            });
        assert(init[u] == vs[u]);
        assert(block_of(vs, u)[k] == block_of(init, u)[k]);
    }
    if fall_through_destination(init, d) {
        let (u, k) = choose|u: int, k: int|
            #![trigger block_of(init, u)[k]]
            0 <= u < init.len() && 0 <= k < block_of(init, u).len() - 1 && d == (IndexEdge {
                address: block_of(init, u)[k + 1].area.start,
                other: Some(block_of(init, u)[k].area.start),
                guard: Guard::Always,
            });
        assert(init[u] == vs[u]);
        assert(block_of(vs, u)[k] == block_of(init, u)[k]);
    }
}

/// Inside its blocks, an all-resolved vertex list records only
/// fall-throughs between adjacent instructions of one block.
#[verifier::rlimit(80)]
proof fn lemma_block_entries(vs: Seq<ControlFlowTarget>)
    requires
        forall|u: int| 0 <= u < vs.len() ==> (#[trigger] vs[u]) is Resolved,
    ensures
        forall|i: int|
            0 <= i < block_sources(vs).len() ==> fall_through_source(
                vs,
                #[trigger] block_sources(vs)[i],
            ),
        forall|i: int|
            0 <= i < block_destinations(vs).len() ==> fall_through_destination(
                vs,
                #[trigger] block_destinations(vs)[i],
            ),
    decreases vs.len(),
{
    if vs.len() > 0 {
        let n = vs.len() - 1;
        let init = vs.drop_last();
        assert forall|u: int| 0 <= u < init.len() implies (#[trigger] init[u]) is Resolved by {
            assert(init[u] == vs[u]);
        }
        lemma_block_entries(init);
        let b = block_of(vs, n);
        assert(vs[n] is Resolved);
        lemma_chain_shape(b);
        let ps = block_sources(init);
        let pd = block_destinations(init);
        let alls = block_sources(vs);
        let alld = block_destinations(vs);
        assert(alls == ps + chain_sources(b));
        assert(alld == pd + chain_destinations(b));
        assert forall|i: int| 0 <= i < alls.len() implies fall_through_source(
            vs,
            #[trigger] alls[i],
        ) by {
            if i < ps.len() {
                assert(alls[i] == ps[i]);
                lemma_fall_through_extend(vs, ps[i], ps[i]);
            } else {
                let k = i - ps.len();
                assert(alls[i] == chain_sources(b)[k]);
                assert(b[k] == block_of(vs, n)[k]);
            }
        }
        assert forall|i: int| 0 <= i < alld.len() implies fall_through_destination(
            vs,
            #[trigger] alld[i],
        ) by {
            if i < pd.len() {
                assert(alld[i] == pd[i]);
                lemma_fall_through_extend(vs, pd[i], pd[i]);
            } else {
                let k = i - pd.len();
                assert(alld[i] == chain_destinations(b)[k]);
                assert(b[k] == block_of(vs, n)[k]);
            }
        }
    }
}

/// The constant that an unresolved vertex stands for.
pub open spec fn constant_of(t: ControlFlowTarget) -> u64 {
    t->Unresolved_0->Constant_0
}

/// `c` lies in none of the blocks `bv`.
pub open spec fn outside_blocks(bv: Seq<ControlFlowTarget>, c: u64) -> bool {
    forall|u: int|
        0 <= u < bv.len() ==> !((#[trigger] block_of(bv, u))[0].area.start <= c && c < block_of(
            bv,
            u,
        ).last().area.end)
}

/// The first `nb` vertices are laid-out blocks; the others are unresolved
/// constants that lie in none of the blocks.
pub open spec fn blocks_then_targets(vs: Seq<ControlFlowTarget>, nb: int) -> bool {
    &&& 0 <= nb <= vs.len()
    &&& laid_out(vs.take(nb))
    &&& forall|v: int|
        nb <= v < vs.len() ==> {
            &&& (#[trigger] vs[v]) is Unresolved
            &&& vs[v]->Unresolved_0 is Constant
            &&& outside_blocks(vs.take(nb), constant_of(vs[v]))
        }
}

/// Each edge joins vertices of `vs`, and at least one of its ends is one of
/// the first `nb`.
pub open spec fn edges_reach_blocks(vs: Seq<ControlFlowTarget>, nb: int, es: Seq<CflowEdge>) -> bool {
    forall|i: int|
        0 <= i < es.len() ==> (#[trigger] es[i]).source < vs.len() && es[i].target < vs.len() && (
        es[i].source < nb || es[i].target < nb)
}

/// The number of edges of `es` with an end beyond the first `nb` vertices.
pub open spec fn edges_to_targets(nb: int, es: Seq<CflowEdge>) -> nat
    decreases es.len(),
{
    if es.len() == 0 {
        0
    } else {
        edges_to_targets(nb, es.drop_last()) + if es.last().source >= nb || es.last().target
            >= nb {
            1nat
        } else {
            0nat
        }
    }
}

/// Vertices after the blocks add no instruction and no fall-through.
proof fn lemma_targets_add_nothing(vs: Seq<ControlFlowTarget>, nb: int)
    requires
        0 <= nb <= vs.len(),
        forall|v: int| nb <= v < vs.len() ==> (#[trigger] vs[v]) is Unresolved,
    ensures
        block_mnemonics(vs) == block_mnemonics(vs.take(nb)),
        block_sources(vs) == block_sources(vs.take(nb)),
        block_destinations(vs) == block_destinations(vs.take(nb)),
    decreases vs.len(),
{
    if vs.len() > nb {
        let init = vs.drop_last();
        assert forall|v: int| nb <= v < init.len() implies (#[trigger] init[v]) is Unresolved by {
            assert(init[v] == vs[v]);
        }
        lemma_targets_add_nothing(init, nb);
        assert(init.take(nb) == vs.take(nb));
        assert(block_mnemonics(vs) == block_mnemonics(init) + Seq::<Mnemonic>::empty());
        assert(block_sources(vs) == block_sources(init) + Seq::<IndexEdge>::empty());
        assert(block_destinations(vs) == block_destinations(init) + Seq::<IndexEdge>::empty());
    } else {
        assert(vs.take(nb) == vs);
    }
}

/// An edge that reaches a block records one transfer each way.
proof fn lemma_one_edge_entry(vs: Seq<ControlFlowTarget>, nb: int, e: CflowEdge)
    requires
        blocks_then_targets(vs, nb),
        e.source < vs.len(),
        e.target < vs.len(),
        e.source < nb || e.target < nb,
    ensures
        edge_source_entry(vs, e).len() == 1,
        edge_destination_entry(vs, e).len() == 1,
{
    let src = e.source as int;
    let tgt = e.target as int;
    if src < nb {
        assert(vs.take(nb)[src] == vs[src]);
        assert(vs[src] is Resolved);
    } else {
        assert(vs[src] is Unresolved && vs[src]->Unresolved_0 is Constant);
    }
    if tgt < nb {
        assert(vs.take(nb)[tgt] == vs[tgt]);
        assert(vs[tgt] is Resolved);
    } else {
        assert(vs[tgt] is Unresolved && vs[tgt]->Unresolved_0 is Constant);
    }
}

/// Edges that reach blocks record, by source, one transfer each, in order.
#[verifier::rlimit(80)]
proof fn lemma_edge_source_list(vs: Seq<ControlFlowTarget>, nb: int, es: Seq<CflowEdge>)
    requires
        blocks_then_targets(vs, nb),
        edges_reach_blocks(vs, nb, es),
    ensures
        edge_sources(vs, es).len() == es.len(),
        forall|i: int|
            0 <= i < es.len() ==> #[trigger] edge_sources(vs, es)[i] == edge_source_entry(
                vs,
                es[i],
            )[0] && edge_source_entry(vs, es[i]).len() == 1,
    decreases es.len(),
{
    if es.len() > 0 {
        let init = es.drop_last();
        assert forall|i: int| 0 <= i < init.len() implies #[trigger] init[i] == es[i] by {}
        lemma_edge_source_list(vs, nb, init);
        let e = es.last();
        lemma_one_edge_entry(vs, nb, e);
        let ps = edge_sources(vs, init);
        assert(edge_sources(vs, es) == ps + edge_source_entry(vs, e));
        assert forall|i: int| 0 <= i < es.len() implies #[trigger] edge_sources(vs, es)[i]
            == edge_source_entry(vs, es[i])[0] && edge_source_entry(vs, es[i]).len() == 1 by {
            if i < init.len() {
                assert(edge_sources(vs, es)[i] == ps[i]);
                assert(init[i] == es[i]);
            } else {
                lemma_one_edge_entry(vs, nb, es[i]);
            }
        }
    }
}

/// Edges that reach blocks record, by destination, one transfer each, in
/// order.
#[verifier::rlimit(80)]
proof fn lemma_edge_destination_list(vs: Seq<ControlFlowTarget>, nb: int, es: Seq<CflowEdge>)
    requires
        blocks_then_targets(vs, nb),
        edges_reach_blocks(vs, nb, es),
    ensures
        edge_destinations(vs, es).len() == es.len(),
        forall|i: int|
            0 <= i < es.len() ==> #[trigger] edge_destinations(vs, es)[i]
                == edge_destination_entry(vs, es[i])[0] && edge_destination_entry(vs, es[i]).len()
                == 1,
    decreases es.len(),
{
    if es.len() > 0 {
        let init = es.drop_last();
        assert forall|i: int| 0 <= i < init.len() implies #[trigger] init[i] == es[i] by {}
        lemma_edge_destination_list(vs, nb, init);
        let e = es.last();
        lemma_one_edge_entry(vs, nb, e);
        let pd = edge_destinations(vs, init);
        assert(edge_destinations(vs, es) == pd + edge_destination_entry(vs, e));
        assert forall|i: int| 0 <= i < es.len() implies #[trigger] edge_destinations(vs, es)[i]
            == edge_destination_entry(vs, es[i])[0] && edge_destination_entry(vs, es[i]).len()
            == 1 by {
            if i < init.len() {
                assert(edge_destinations(vs, es)[i] == pd[i]);
                assert(init[i] == es[i]);
            } else {
                lemma_one_edge_entry(vs, nb, es[i]);
            }
        }
    }
}

/// Each edge that reaches a block records one transfer each way.
proof fn lemma_edge_entries(vs: Seq<ControlFlowTarget>, nb: int, es: Seq<CflowEdge>)
    requires
        blocks_then_targets(vs, nb),
        edges_reach_blocks(vs, nb, es),
    ensures
        edge_sources(vs, es).len() == es.len(),
        edge_destinations(vs, es).len() == es.len(),
        forall|i: int|
            0 <= i < es.len() ==> #[trigger] edge_sources(vs, es)[i] == edge_source_entry(
                vs,
                es[i],
            )[0] && edge_source_entry(vs, es[i]).len() == 1,
        forall|i: int|
            0 <= i < es.len() ==> #[trigger] edge_destinations(vs, es)[i]
                == edge_destination_entry(vs, es[i])[0] && edge_destination_entry(vs, es[i]).len()
                == 1,
{
    lemma_edge_source_list(vs, nb, es);
    lemma_edge_destination_list(vs, nb, es);
}

/// What an edge that reaches a block records by source and by destination.
proof fn lemma_edge_entry_shape(vs: Seq<ControlFlowTarget>, nb: int, e: CflowEdge)
    requires
        blocks_then_targets(vs, nb),
        e.source < vs.len(),
        e.target < vs.len(),
        e.source < nb || e.target < nb,
    ensures
        ({
            let bv = vs.take(nb);
            let s = e.source as int;
            let t = e.target as int;
            let es = edge_source_entry(vs, e)[0];
            let ed = edge_destination_entry(vs, e)[0];
            &&& s < nb ==> es.address == block_of(bv, s).last().area.start
            &&& s >= nb ==> es.address == constant_of(vs[s]) && outside_blocks(bv, es.address)
            &&& t < nb ==> es.other == Some(block_of(bv, t)[0].area.start)
            &&& t >= nb ==> es.other == Some(constant_of(vs[t])) && outside_blocks(bv, constant_of(vs[t]))
            &&& es.guard == e.guard
            &&& t < nb ==> ed.address == block_of(bv, t)[0].area.start
            &&& t >= nb ==> ed.address == constant_of(vs[t]) && outside_blocks(bv, ed.address)
            &&& s < nb ==> ed.other == Some(block_of(bv, s).last().area.start)
            &&& s >= nb ==> ed.other == Some(constant_of(vs[s])) && outside_blocks(bv, constant_of(vs[s]))
        }),
{
    let bv = vs.take(nb);
    let s = e.source as int;
    let t = e.target as int;
    if s < nb {
        assert(bv[s] == vs[s]);
        assert(bv[s] is Resolved && is_run(block_of(bv, s)));
    } else {
        assert(vs[s] is Unresolved && vs[s]->Unresolved_0 is Constant);
    }
    if t < nb {
        assert(bv[t] == vs[t]);
        assert(bv[t] is Resolved && is_run(block_of(bv, t)) && bv[t]->Resolved_0.wf());
        lemma_run(block_of(bv, t));
    } else {
        assert(vs[t] is Unresolved && vs[t]->Unresolved_0 is Constant);
    }
}

/// An instruction of a block lies inside that block.
proof fn lemma_inside(bv: Seq<ControlFlowTarget>, n: int, k: int, c: u64)
    requires
        laid_out(bv),
        0 <= n < bv.len(),
        0 <= k < block_of(bv, n).len(),
        outside_blocks(bv, c),
    ensures
        block_of(bv, n)[k].area.start != c,
{
    assert(bv[n] is Resolved && is_run(block_of(bv, n)));
    lemma_run(block_of(bv, n));
    assert(block_of(bv, n)[k].area.start < block_of(bv, n)[k].area.end);
    assert(!(block_of(bv, n)[0].area.start <= c && c < block_of(bv, n).last().area.end));
}

/// Inside a block, no instruction must start a block when the entry is the
/// start of some block.
proof fn lemma_no_cut(
    vs: Seq<ControlFlowTarget>,
    nb: int,
    es: Seq<CflowEdge>,
    entry: u64,
    w: int,
    n: int,
    k: int,
)
    requires
        blocks_then_targets(vs, nb),
        edges_reach_blocks(vs, nb, es),
        0 <= w < nb,
        block_of(vs.take(nb), w)[0].area.start == entry,
        0 <= n < nb,
        1 <= k < block_of(vs.take(nb), n).len(),
    ensures
        !starts_block(
            block_sources(vs.take(nb)) + edge_sources(vs, es),
            block_destinations(vs.take(nb)) + edge_destinations(vs, es),
            block_of(vs.take(nb), n)[k - 1],
            block_of(vs.take(nb), n)[k],
            entry,
        ),
{
    let bv = vs.take(nb);
    let b = block_of(bv, n);
    assert(bv[n] is Resolved && is_run(b));
    assert(bv[w] is Resolved && is_run(block_of(bv, w)));
    assert forall|u: int| 0 <= u < bv.len() implies (#[trigger] bv[u]) is Resolved by {}
    lemma_block_entries(bv);
    lemma_edge_entries(vs, nb, es);
    let cs = block_sources(bv);
    let cd = block_destinations(bv);
    let bs = cs + edge_sources(vs, es);
    let bd = cd + edge_destinations(vs, es);
    assert(b[k - 1].area.end == b[k].area.start);
    assert forall|i: int| 0 <= i < bs.len() implies !((#[trigger] bs[i]).address
        == b[k - 1].area.start && bs[i].other is Some && bs[i].other->Some_0 != b[k].area.start) by {
        if i < cs.len() {
            assert(bs[i] == cs[i]);
            assert(fall_through_source(bv, cs[i]));
            let (u, q) = choose|u: int, q: int|
                #![trigger block_of(bv, u)[q]]
                0 <= u < bv.len() && 0 <= q < block_of(bv, u).len() - 1 && cs[i] == (IndexEdge {
                    address: block_of(bv, u)[q].area.start,
                    other: Some(block_of(bv, u)[q + 1].area.start),
                    guard: Guard::Always,
                });
            if cs[i].address == b[k - 1].area.start {
                lemma_same_start(bv, u, q, n, k - 1);
            }
        } else {
            let j = i - cs.len();
            assert(bs[i] == edge_sources(vs, es)[j]);
            let e = es[j];
            lemma_edge_entry_shape(vs, nb, e);
            let src = e.source as int;
            if src < nb {
                assert(bv[src] is Resolved && is_run(block_of(bv, src)));
                let sb = block_of(bv, src);
                if bs[i].address == b[k - 1].area.start {
                    assert(bs[i].address == sb[sb.len() - 1].area.start);
                    lemma_same_start(bv, src, sb.len() - 1, n, k - 1);
                }
            } else {
                lemma_inside(bv, n, k - 1, bs[i].address);
            }
        }
    }
    assert(!jumps_elsewhere(bs, b[k - 1].area.start, b[k].area.start));
    assert forall|i: int| 0 <= i < bd.len() implies !((#[trigger] bd[i]).address
        == b[k].area.start && bd[i].other is Some && bd[i].other->Some_0 != b[k - 1].area.start) by {
        if i < cd.len() {
            assert(bd[i] == cd[i]);
            assert(fall_through_destination(bv, cd[i]));
            let (u, q) = choose|u: int, q: int|
                #![trigger block_of(bv, u)[q]]
                0 <= u < bv.len() && 0 <= q < block_of(bv, u).len() - 1 && cd[i] == (IndexEdge {
                    address: block_of(bv, u)[q + 1].area.start,
                    other: Some(block_of(bv, u)[q].area.start),
                    guard: Guard::Always,
                });
            if cd[i].address == b[k].area.start {
                lemma_same_start(bv, u, q + 1, n, k);
            }
        } else {
            let j = i - cd.len();
            assert(bd[i] == edge_destinations(vs, es)[j]);
            let e = es[j];
            lemma_edge_entry_shape(vs, nb, e);
            let tgt = e.target as int;
            if tgt < nb {
                assert(bv[tgt] is Resolved && is_run(block_of(bv, tgt)));
                if bd[i].address == b[k].area.start {
                    lemma_same_start(bv, tgt, 0, n, k);
                }
            } else {
                lemma_inside(bv, n, k, bd[i].address);
            }
        }
    }
    assert(!jumps_elsewhere(bd, b[k].area.start, b[k - 1].area.start));
    if b[k].area.start == entry {
        lemma_same_start(bv, w, 0, n, k);
    }
}

/// Each block that begins right where the block before it ends begins a
/// block for a reason that the graph gives: it is the entry, an edge
/// reaches it from another vertex than the block before it, or an edge
/// leaves the block before it for another vertex.
pub open spec fn heads_marked(vs: Seq<ControlFlowTarget>, nb: int, es: Seq<CflowEdge>, entry: u64) -> bool {
    forall|n: int|
        #![trigger block_of(vs.take(nb), n)]
        0 < n < nb && block_of(vs.take(nb), n - 1).last().area.end == block_of(vs.take(nb), n)[0].area.start
            ==> {
            ||| block_of(vs.take(nb), n)[0].area.start == entry
            ||| exists|i: int|
                0 <= i < es.len() && (#[trigger] es[i]).target == n && es[i].source != n - 1
            ||| exists|i: int|
                0 <= i < es.len() && (#[trigger] es[i]).source == n - 1 && es[i].target != n
        }
}

/// A block that follows another in the ordered instructions starts a block.
proof fn lemma_head_cut(vs: Seq<ControlFlowTarget>, nb: int, es: Seq<CflowEdge>, entry: u64, n: int)
    requires
        blocks_then_targets(vs, nb),
        edges_reach_blocks(vs, nb, es),
        heads_marked(vs, nb, es, entry),
        0 < n < nb,
    ensures
        starts_block(
            block_sources(vs.take(nb)) + edge_sources(vs, es),
            block_destinations(vs.take(nb)) + edge_destinations(vs, es),
            block_of(vs.take(nb), n - 1).last(),
            block_of(vs.take(nb), n)[0],
            entry,
        ),
{
    let bv = vs.take(nb);
    let prev = block_of(bv, n - 1);
    let cur = block_of(bv, n);
    assert(bv[n - 1] is Resolved && is_run(prev));
    assert(bv[n] is Resolved && is_run(cur));
    let cs = block_sources(bv);
    let cd = block_destinations(bv);
    let bs = cs + edge_sources(vs, es);
    let bd = cd + edge_destinations(vs, es);
    if prev.last().area.end == cur[0].area.start && cur[0].area.start != entry {
        lemma_edge_entries(vs, nb, es);
        if exists|i: int| 0 <= i < es.len() && (#[trigger] es[i]).target == n && es[i].source != n - 1 {
            let i = choose|i: int|
                0 <= i < es.len() && (#[trigger] es[i]).target == n && es[i].source != n - 1;
            let e = es[i];
            lemma_edge_entry_shape(vs, nb, e);
            let ed = bd[cd.len() + i];
            assert(ed == edge_destinations(vs, es)[i]);
            assert(ed.address == cur[0].area.start);
            let src = e.source as int;
            if src < nb {
                assert(bv[src] is Resolved && is_run(block_of(bv, src)));
                if block_of(bv, src).last().area.start == prev.last().area.start {
                    lemma_same_start(bv, src, block_of(bv, src).len() - 1, n - 1, prev.len() - 1);
                }
            } else {
                lemma_inside(bv, n - 1, prev.len() - 1, constant_of(vs[src]));
            }
            assert(jumps_elsewhere(bd, cur[0].area.start, prev.last().area.start));
        } else {
            assert(exists|i: int|
                0 <= i < es.len() && (#[trigger] es[i]).source == n - 1 && es[i].target != n);
            let i = choose|i: int|
                0 <= i < es.len() && (#[trigger] es[i]).source == n - 1 && es[i].target != n;
            let e = es[i];
            lemma_edge_entry_shape(vs, nb, e);
            let eb = bs[cs.len() + i];
            assert(eb == edge_sources(vs, es)[i]);
            assert(eb.address == prev.last().area.start);
            let tgt = e.target as int;
            if tgt < nb {
                assert(bv[tgt] is Resolved && is_run(block_of(bv, tgt)));
                if block_of(bv, tgt)[0].area.start == cur[0].area.start {
                    lemma_same_start(bv, tgt, 0, n, 0);
                }
            } else {
                lemma_inside(bv, n, 0, constant_of(vs[tgt]));
            }
            assert(jumps_elsewhere(bs, prev.last().area.start, cur[0].area.start));
        }
    }
}

/// The instruction runs of all-resolved vertices, vertex after vertex.
pub open spec fn resolved_blocks(vs: Seq<ControlFlowTarget>) -> Seq<Seq<Mnemonic>> {
    Seq::new(vs.len(), |u: int| block_of(vs, u))
}

/// Cutting the instructions of the first `n` blocks and a prefix of the
/// next gives those blocks and that prefix.
proof fn lemma_split_block(
    vs: Seq<ControlFlowTarget>,
    nb: int,
    es: Seq<CflowEdge>,
    entry: u64,
    w: int,
    n: int,
    k: int,
)
    requires
        heads_marked(vs, nb, es, entry),
        blocks_then_targets(vs, nb),
        edges_reach_blocks(vs, nb, es),
        0 <= w < nb,
        block_of(vs.take(nb), w)[0].area.start == entry,
        0 <= n < nb,
        1 <= k <= block_of(vs.take(nb), n).len(),
        split_blocks(
            block_mnemonics(vs.take(nb).take(n)),
            block_sources(vs.take(nb)) + edge_sources(vs, es),
            block_destinations(vs.take(nb)) + edge_destinations(vs, es),
            entry,
        ) == resolved_blocks(vs.take(nb)).take(n),
    ensures
        split_blocks(
            block_mnemonics(vs.take(nb).take(n)) + block_of(vs.take(nb), n).take(k),
            block_sources(vs.take(nb)) + edge_sources(vs, es),
            block_destinations(vs.take(nb)) + edge_destinations(vs, es),
            entry,
        ) == resolved_blocks(vs.take(nb)).take(n).push(block_of(vs.take(nb), n).take(k)),
    decreases k,
{
    let bv = vs.take(nb);
    let bs = block_sources(bv) + edge_sources(vs, es);
    let bd = block_destinations(bv) + edge_destinations(vs, es);
    let x = block_mnemonics(bv.take(n));
    let b = block_of(bv, n);
    let ms = x + b.take(k);
    let rb = resolved_blocks(bv).take(n);
    assert(bv[n] is Resolved && is_run(b));
    if k == 1 {
        assert(ms == x.push(b[0]));
        assert(b.take(1) == seq![b[0]]);
        if n == 0 {
            assert(bv.take(0) == Seq::<ControlFlowTarget>::empty());
            assert(x == Seq::<Mnemonic>::empty());
            assert(ms == seq![b[0]]);
            assert(rb == Seq::<Seq<Mnemonic>>::empty());
            assert(rb.push(seq![b[0]]) == seq![seq![b[0]]]);
        } else {
            lemma_laid_out_prefix(bv, n);
            lemma_laid_out_sorted(bv.take(n));
            assert(block_of(bv.take(n), n - 1) == block_of(bv, n - 1));
            lemma_head_cut(vs, nb, es, entry, n);
            assert(ms.drop_last() == x);
            assert(ms[ms.len() - 2] == x.last());
            assert(starts_block(bs, bd, ms[ms.len() - 2], ms.last(), entry));
        }
    } else {
        lemma_split_block(vs, nb, es, entry, w, n, k - 1);
        lemma_no_cut(vs, nb, es, entry, w, n, k - 1);
        let prev = rb.push(b.take(k - 1));
        assert(ms.drop_last() == x + b.take(k - 1));
        assert(ms.last() == b[k - 1]);
        assert(ms[ms.len() - 2] == b[k - 2]);
        assert(b.take(k - 1).push(b[k - 1]) == b.take(k));
        assert(prev.update(prev.len() - 1, prev.last().push(b[k - 1])) == rb.push(b.take(k)));
    }
}

/// Cutting the instructions of the blocks gives those blocks.
proof fn lemma_split_all(
    vs: Seq<ControlFlowTarget>,
    nb: int,
    es: Seq<CflowEdge>,
    entry: u64,
    w: int,
    n: int,
)
    requires
        heads_marked(vs, nb, es, entry),
        blocks_then_targets(vs, nb),
        edges_reach_blocks(vs, nb, es),
        0 <= w < nb,
        block_of(vs.take(nb), w)[0].area.start == entry,
        0 <= n <= nb,
    ensures
        split_blocks(
            block_mnemonics(vs.take(nb).take(n)),
            block_sources(vs.take(nb)) + edge_sources(vs, es),
            block_destinations(vs.take(nb)) + edge_destinations(vs, es),
            entry,
        ) == resolved_blocks(vs.take(nb)).take(n),
    decreases n,
{
    let bv = vs.take(nb);
    if n == 0 {
        assert(bv.take(0) == Seq::<ControlFlowTarget>::empty());
        assert(resolved_blocks(bv).take(0) == Seq::<Seq<Mnemonic>>::empty());
    } else {
        lemma_split_all(vs, nb, es, entry, w, n - 1);
        let b = block_of(bv, n - 1);
        assert(bv[n - 1] is Resolved && is_run(b));
        lemma_split_block(vs, nb, es, entry, w, n - 1, b.len() as int);
        assert(bv.take(n).drop_last() == bv.take(n - 1));
        assert(bv.take(n).last() == bv[n - 1]);
        assert(block_mnemonics(bv.take(n)) == block_mnemonics(bv.take(n - 1)) + b);
        assert(b.take(b.len() as int) == b);
        assert(resolved_blocks(bv).take(n - 1).push(b) == resolved_blocks(bv).take(n));
    }
}

/// The block that ends with an instruction is the one it belongs to; the
/// block that starts at its first instruction is that block.
proof fn lemma_ends_of_block(vs: Seq<ControlFlowTarget>, n: int)
    requires
        laid_out(vs),
        0 <= n < vs.len(),
    ensures
        tail_block(resolved_blocks(vs), block_of(vs, n).last().area.start) == Some(n),
        head_block(resolved_blocks(vs), block_of(vs, n)[0].area.start) == Some(n),
{
    let rb = resolved_blocks(vs);
    let b = block_of(vs, n);
    assert(vs[n] is Resolved && is_run(b));
    let a = b.last().area.start;
    assert forall|j: int| 0 <= j < n implies (#[trigger] rb[j]).last().area.start != a by {
        assert(vs[j] is Resolved && is_run(block_of(vs, j)));
        if rb[j].last().area.start == a {
            lemma_same_start(vs, j, block_of(vs, j).len() - 1, n, b.len() - 1);
        }
    }
    assert(is_first_tail(rb, a, n));
    let c = choose|i: int| is_first_tail(rb, a, i);
    assert(c == n);
    let h = b[0].area.start;
    lemma_run(b);
    assert forall|j: int| 0 <= j < n implies span_of(#[trigger] rb[j]).start != h by {
        assert(vs[j] is Resolved && is_run(block_of(vs, j)));
        lemma_run(block_of(vs, j));
        if span_of(rb[j]).start == h {
            lemma_same_start(vs, j, 0, n, 0);
        }
    }
    assert(is_first_head(rb, h, n));
    let d = choose|i: int| is_first_head(rb, h, i);
    assert(d == n);
}

/// No block ends with an instruction that has a successor in its block,
/// and none starts at an instruction that has a predecessor.
proof fn lemma_inside_block(vs: Seq<ControlFlowTarget>, u: int, k: int)
    requires
        laid_out(vs),
        0 <= u < vs.len(),
        0 <= k < block_of(vs, u).len() - 1,
    ensures
        tail_block(resolved_blocks(vs), block_of(vs, u)[k].area.start) is None,
        head_block(resolved_blocks(vs), block_of(vs, u)[k + 1].area.start) is None,
{
    let rb = resolved_blocks(vs);
    let b = block_of(vs, u);
    assert(vs[u] is Resolved && is_run(b));
    assert forall|i: int| !#[trigger] is_first_tail(rb, b[k].area.start, i) by {
        if 0 <= i < rb.len() && rb[i].last().area.start == b[k].area.start {
            assert(vs[i] is Resolved && is_run(block_of(vs, i)));
            lemma_same_start(vs, i, block_of(vs, i).len() - 1, u, k);
        }
    }
    assert forall|i: int| !#[trigger] is_first_head(rb, b[k + 1].area.start, i) by {
        if 0 <= i < rb.len() && span_of(rb[i]).start == b[k + 1].area.start {
            assert(vs[i] is Resolved && is_run(block_of(vs, i)));
            lemma_run(block_of(vs, i));
            lemma_same_start(vs, i, 0, u, k + 1);
        }
    }
}

/// No block ends or starts at an address that lies in none of them, and
/// none covers it.
proof fn lemma_outside_no_block(vs: Seq<ControlFlowTarget>, c: u64)
    requires
        laid_out(vs),
        outside_blocks(vs, c),
    ensures
        tail_block(resolved_blocks(vs), c) is None,
        head_block(resolved_blocks(vs), c) is None,
        forall|u: int|
            0 <= u < vs.len() ==> !bound_contains(span_of(#[trigger] resolved_blocks(vs)[u]), c),
{
    let rb = resolved_blocks(vs);
    assert forall|i: int| !#[trigger] is_first_tail(rb, c, i) by {
        if 0 <= i < rb.len() {
            assert(vs[i] is Resolved && is_run(block_of(vs, i)));
            if rb[i].last().area.start == c {
                lemma_inside(vs, i, block_of(vs, i).len() - 1, c);
            }
        }
    }
    assert forall|i: int| !#[trigger] is_first_head(rb, c, i) by {
        if 0 <= i < rb.len() {
            assert(vs[i] is Resolved && is_run(block_of(vs, i)));
            lemma_run(block_of(vs, i));
            if span_of(rb[i]).start == c {
                lemma_inside(vs, i, 0, c);
            }
        }
    }
    assert forall|u: int| 0 <= u < vs.len() implies !bound_contains(
        span_of(#[trigger] rb[u]),
        c,
    ) by {
        assert(vs[u] is Resolved && is_run(block_of(vs, u)));
        lemma_run(block_of(vs, u));
    }
}

/// Wiring a fall-through inside a block adds no vertex and no edge.
proof fn lemma_wire_fall_through(vs: Seq<ControlFlowTarget>, nb: int, es: Seq<CflowEdge>, p: int)
    requires
        blocks_then_targets(vs, nb),
        1 <= p <= block_sources(vs.take(nb)).len(),
    ensures
        ({
            let bs = block_sources(vs.take(nb)) + edge_sources(vs, es);
            let rb = resolved_blocks(vs.take(nb));
            &&& wire(rb, bs.take(p)).0 == wire(rb, bs.take(p - 1)).0
            &&& wire(rb, bs.take(p)).1 == wire(rb, bs.take(p - 1)).1
        }),
{
    let bv = vs.take(nb);
    let cs = block_sources(bv);
    let bs = cs + edge_sources(vs, es);
    let t = bs.take(p);
    assert(t.drop_last() == bs.take(p - 1));
    assert(t.last() == bs[p - 1]);
    assert forall|u: int| 0 <= u < bv.len() implies (#[trigger] bv[u]) is Resolved by {}
    lemma_block_entries(bv);
    assert(bs[p - 1] == cs[p - 1]);
    assert(fall_through_source(bv, cs[p - 1]));
    let (u, q) = choose|u: int, q: int|
        #![trigger block_of(bv, u)[q]]
        0 <= u < bv.len() && 0 <= q < block_of(bv, u).len() - 1 && cs[p - 1] == (IndexEdge {
            address: block_of(bv, u)[q].area.start,
            other: Some(block_of(bv, u)[q + 1].area.start),
            guard: Guard::Always,
        });
    lemma_inside_block(bv, u, q);
}

/// Wiring the transfer of an edge adds one edge, the same one where both
/// its ends are blocks, and one vertex where an end is not.
#[verifier::rlimit(80)]
proof fn lemma_wire_edge(vs: Seq<ControlFlowTarget>, nb: int, es: Seq<CflowEdge>, j: int)
    requires
        blocks_then_targets(vs, nb),
        edges_reach_blocks(vs, nb, es),
        0 <= j < es.len(),
    ensures
        ({
            let cs = block_sources(vs.take(nb));
            let bs = cs + edge_sources(vs, es);
            let rb = resolved_blocks(vs.take(nb));
            let prev = wire(rb, bs.take(cs.len() + j));
            let cur = wire(rb, bs.take(cs.len() + j + 1));
            &&& cur.1.len() == prev.1.len() + 1
            &&& forall|i: int| 0 <= i < prev.1.len() ==> #[trigger] cur.1[i] == prev.1[i]
            &&& es[j].source < nb && es[j].target < nb ==> cur.1.last() == es[j]
            &&& cur.0.len() == prev.0.len() + if es[j].source >= nb || es[j].target >= nb {
                1nat
            } else {
                0nat
            }
        }),
{
    let bv = vs.take(nb);
    let rb = resolved_blocks(bv);
    let cs = block_sources(bv);
    let bs = cs + edge_sources(vs, es);
    lemma_edge_entries(vs, nb, es);
    let p = cs.len() + j + 1;
    let t = bs.take(p);
    assert(t.drop_last() == bs.take(p - 1));
    assert(t.last() == bs[p - 1]);
    assert(bs[p - 1] == edge_sources(vs, es)[j]);
    let e = es[j];
    lemma_edge_entry_shape(vs, nb, e);
    let src = e.source as int;
    let tgt = e.target as int;
    if src < nb {
        lemma_ends_of_block(bv, src);
    } else {
        lemma_outside_no_block(bv, constant_of(vs[src]));
    }
    if tgt < nb {
        lemma_ends_of_block(bv, tgt);
    } else {
        lemma_outside_no_block(bv, constant_of(vs[tgt]));
    }
}

/// Wiring the first `p` transfers of the index: fall-throughs add nothing;
/// each edge adds one edge, the same where both its ends are blocks, and a
/// vertex where one end is not.
#[verifier::rlimit(80)]
proof fn lemma_wire_prefix(vs: Seq<ControlFlowTarget>, nb: int, es: Seq<CflowEdge>, p: int)
    requires
        blocks_then_targets(vs, nb),
        edges_reach_blocks(vs, nb, es),
        0 <= p <= block_sources(vs.take(nb)).len() + es.len(),
    ensures
        ({
            let cs = block_sources(vs.take(nb));
            let w = wire(resolved_blocks(vs.take(nb)), (cs + edge_sources(vs, es)).take(p));
            &&& p <= cs.len() ==> w.0.len() == 0 && w.1.len() == 0
            &&& p > cs.len() ==> w.0.len() == edges_to_targets(nb, es.take(p - cs.len()))
                && w.1.len() == p - cs.len()
            &&& forall|i: int|
                0 <= i < p - cs.len() && es[i].source < nb && es[i].target < nb ==> w.1[i]
                    == es[i]
        }),
    decreases p,
{
    let bv = vs.take(nb);
    let rb = resolved_blocks(bv);
    let cs = block_sources(bv);
    let bs = cs + edge_sources(vs, es);
    lemma_edge_entries(vs, nb, es);
    let cur = wire(rb, bs.take(p));
    if p == 0 {
        assert(bs.take(0) == Seq::<IndexEdge>::empty());
        assert(cur.0.len() == 0 && cur.1.len() == 0);
    } else if p <= cs.len() {
        lemma_wire_prefix(vs, nb, es, p - 1);
        lemma_wire_fall_through(vs, nb, es, p);
        let prev = wire(rb, bs.take(p - 1));
        assert(prev.0.len() == 0 && prev.1.len() == 0);
        assert(cur.0 == prev.0 && cur.1 == prev.1);
    } else {
        lemma_wire_prefix(vs, nb, es, p - 1);
        let j = p - 1 - cs.len();
        lemma_wire_edge(vs, nb, es, j);
        let prev = wire(rb, bs.take(p - 1));
        assert(es.take(j + 1).drop_last() == es.take(j));
        assert(es.take(j + 1).last() == es[j]);
        if j == 0 {
            assert(es.take(0) == Seq::<CflowEdge>::empty());
            assert(prev.0.len() == 0 && prev.1.len() == 0);
        } else {
            assert(prev.0.len() == edges_to_targets(nb, es.take(j)) && prev.1.len() == j);
        }
        assert(edges_to_targets(nb, es.take(j + 1)) == edges_to_targets(nb, es.take(j)) + if es[j].source
            >= nb || es[j].target >= nb {
            1nat
        } else {
            0nat
        });
        assert(cur.1.len() == j + 1);
        assert forall|i: int|
            0 <= i < p - cs.len() && es[i].source < nb && es[i].target < nb implies cur.1[i]
            == es[i] by {
            if i < j {
                assert(cur.1[i] == prev.1[i]);
            } else {
                assert(cur.1[i] == cur.1.last());
            }
        }
    }
}

/// Flattening a graph to its address index and assembling the index again
/// gives its blocks back, with the same instructions over the same
/// intervals and in the same order, and as many edges, the same ones
/// between blocks. Each edge to or from an unresolved vertex gives one new
/// unresolved vertex (`lemma_round_trip_vertex_count` counts them). This
/// holds for a graph whose first `nb` vertices are blocks listed by
/// address, each a run of adjacent instructions, where a block that begins
/// right where the one before it ends has a reason of the graph to begin a
/// block (`heads_marked`), and whose other vertices are unresolved
/// constants outside every block; whose edges each reach a block; assembled
/// with the start of one of its blocks as entry.
#[verifier::rlimit(80)]
pub proof fn lemma_round_trip(
    g: ControlFlowGraph,
    nb: int,
    entry: u64,
    vs: Seq<ControlFlowTarget>,
    es: Seq<CflowEdge>,
)
    requires
        heads_marked(g.vertices@, nb, g.edges@, entry),
        blocks_then_targets(g.vertices@, nb),
        edges_reach_blocks(g.vertices@, nb, g.edges@),
        exists|w: int|
            0 <= w < nb && (#[trigger] block_of(g.vertices@.take(nb), w))[0].area.start
                == entry,
        is_assembly(vs, es, index_mnemonics(g), index_sources(g), index_destinations(g), entry),
    ensures
        vs.len() == nb + edges_to_targets(nb, g.edges@),
        es.len() == g.edges@.len(),
        forall|u: int|
            0 <= u < nb ==> {
                &&& (#[trigger] vs[u]) is Resolved
                &&& vs[u]->Resolved_0.mnemonics@ == g.vertices@[u]->Resolved_0.mnemonics@
                &&& vs[u]->Resolved_0.area == g.vertices@[u]->Resolved_0.area
            },
        forall|u: int|
            nb <= u < vs.len() ==> (#[trigger] vs[u]) is Unresolved && vs[u]->Unresolved_0 is Constant,
        forall|i: int|
            0 <= i < es.len() && g.edges@[i].source < nb && g.edges@[i].target < nb ==> (#[trigger] es[i])
                == g.edges@[i],
{
    let gv = g.vertices@;
    let ge = g.edges@;
    let bv = gv.take(nb);
    let w = choose|w: int| 0 <= w < nb && (#[trigger] block_of(bv, w))[0].area.start == entry;
    assert forall|v: int| nb <= v < gv.len() implies (#[trigger] gv[v]) is Unresolved by {}
    lemma_targets_add_nothing(gv, nb);
    lemma_laid_out_sorted(bv);
    lemma_insert_sorted_identity(block_mnemonics(bv));
    lemma_split_all(gv, nb, ge, entry, w, nb);
    assert(bv.take(nb) == bv);
    let rb = resolved_blocks(bv);
    assert(rb.take(nb) == rb);
    assert(index_mnemonics(g) == block_mnemonics(bv));
    assert(index_sources(g) == block_sources(bv) + edge_sources(gv, ge));
    assert(index_destinations(g) == block_destinations(bv) + edge_destinations(gv, ge));
    assert(split_blocks(index_mnemonics(g), index_sources(g), index_destinations(g), entry) == rb);
    lemma_edge_entries(gv, nb, ge);
    let bs = block_sources(bv) + edge_sources(gv, ge);
    lemma_wire_prefix(gv, nb, ge, bs.len() as int);
    assert(bs.take(bs.len() as int) == bs);
    assert(ge.take(ge.len() as int) == ge);
    if ge.len() == 0 {
        assert(ge == Seq::<CflowEdge>::empty());
    }
    let wired = wire(rb, bs);
    assert(rb.len() == nb);
    assert(vs.len() == nb + wired.0.len());
    assert(es == wired.1);
    assert forall|u: int| nb <= u < vs.len() implies (#[trigger] vs[u]) is Unresolved
        && vs[u]->Unresolved_0 is Constant by {
        assert(vs[nb + (u - nb)] == ControlFlowTarget::Unresolved(Rvalue::Constant(wired.0[u - nb])));
    }
    assert forall|u: int| 0 <= u < nb implies {
        &&& (#[trigger] vs[u]) is Resolved
        &&& vs[u]->Resolved_0.mnemonics@ == gv[u]->Resolved_0.mnemonics@
        &&& vs[u]->Resolved_0.area == gv[u]->Resolved_0.area
    } by {
        assert(rb[u] == block_of(bv, u));
        assert(bv[u] == gv[u]);
        assert(bv[u] is Resolved && bv[u]->Resolved_0.wf());
    }
}

/// The number of edges of `es` that have `v` as an end.
pub open spec fn degree(v: int, es: Seq<CflowEdge>) -> nat
    decreases es.len(),
{
    if es.len() == 0 {
        0
    } else {
        degree(v, es.drop_last()) + if es.last().source == v || es.last().target == v {
            1nat
        } else {
            0nat
        }
    }
}

/// The degrees of the vertices `lo..hi`, added up.
pub open spec fn degree_sum(lo: int, hi: int, es: Seq<CflowEdge>) -> nat
    decreases hi - lo,
{
    if hi <= lo {
        0
    } else {
        degree_sum(lo, hi - 1, es) + degree(hi - 1, es)
    }
}

/// Adding an edge with ends `s` and `t` adds one to the degree sum of a
/// range that holds exactly one of them, and nothing to one that holds none.
proof fn lemma_degree_sum_push(lo: int, hi: int, es: Seq<CflowEdge>, e: CflowEdge)
    requires
        lo <= hi,
        e.source < lo || e.target < lo,
    ensures
        degree_sum(lo, hi, es.push(e)) == degree_sum(lo, hi, es) + if (lo <= e.source < hi)
            || (lo <= e.target < hi) {
            1nat
        } else {
            0nat
        },
    decreases hi - lo,
{
    assert(es.push(e).drop_last() == es);
    if hi > lo {
        lemma_degree_sum_push(lo, hi - 1, es, e);
    }
}

/// The edges with an end beyond the first `nb` vertices are as many as the
/// degrees of those vertices add up to.
proof fn lemma_targets_by_degree(vs: Seq<ControlFlowTarget>, nb: int, es: Seq<CflowEdge>)
    requires
        0 <= nb <= vs.len(),
        edges_reach_blocks(vs, nb, es),
    ensures
        edges_to_targets(nb, es) == degree_sum(nb, vs.len() as int, es),
    decreases es.len(),
{
    if es.len() == 0 {
        lemma_degree_sum_empty(nb, vs.len() as int, es);
    } else {
        let init = es.drop_last();
        assert forall|i: int| 0 <= i < init.len() implies (#[trigger] init[i]).source < vs.len()
            && init[i].target < vs.len() && (init[i].source < nb || init[i].target < nb) by {
            assert(init[i] == es[i]);
        }
        lemma_targets_by_degree(vs, nb, init);
        let e = es.last();
        assert(init.push(e) == es);
        lemma_degree_sum_push(nb, vs.len() as int, init, e);
    }
}

proof fn lemma_degree_sum_empty(lo: int, hi: int, es: Seq<CflowEdge>)
    requires
        es.len() == 0,
    ensures
        degree_sum(lo, hi, es) == 0,
    decreases hi - lo,
{
    if hi > lo {
        lemma_degree_sum_empty(lo, hi - 1, es);
    }
}

proof fn lemma_degree_sum_ones(lo: int, hi: int, es: Seq<CflowEdge>)
    requires
        lo <= hi,
        forall|v: int| lo <= v < hi ==> #[trigger] degree(v, es) == 1,
    ensures
        degree_sum(lo, hi, es) == hi - lo,
    decreases hi - lo,
{
    if hi > lo {
        lemma_degree_sum_ones(lo, hi - 1, es);
    }
}

/// Where each unresolved vertex is the end of exactly one edge, flattening
/// the graph of `lemma_round_trip` to its index and assembling it again
/// keeps the number of vertices.
pub proof fn lemma_round_trip_vertex_count(
    g: ControlFlowGraph,
    nb: int,
    entry: u64,
    vs: Seq<ControlFlowTarget>,
    es: Seq<CflowEdge>,
)
    requires
        heads_marked(g.vertices@, nb, g.edges@, entry),
        blocks_then_targets(g.vertices@, nb),
        edges_reach_blocks(g.vertices@, nb, g.edges@),
        forall|v: int| nb <= v < g.vertices@.len() ==> #[trigger] degree(v, g.edges@) == 1,
        exists|w: int|
            0 <= w < nb && (#[trigger] block_of(g.vertices@.take(nb), w))[0].area.start
                == entry,
        is_assembly(vs, es, index_mnemonics(g), index_sources(g), index_destinations(g), entry),
    ensures
        vs.len() == g.vertices@.len(),
        es.len() == g.edges@.len(),
{
    lemma_round_trip(g, nb, entry, vs, es);
    lemma_targets_by_degree(g.vertices@, nb, g.edges@);
    lemma_degree_sum_ones(nb, g.vertices@.len() as int, g.edges@);
}

/// Every instruction of a block is among the instructions of the blocks.
proof fn lemma_in_block_mnemonics(vs: Seq<ControlFlowTarget>, u: int, k: int)
    requires
        forall|v: int| 0 <= v < vs.len() ==> (#[trigger] vs[v]) is Resolved,
        0 <= u < vs.len(),
        0 <= k < block_of(vs, u).len(),
    ensures
        exists|i: int|
            0 <= i < block_mnemonics(vs).len() && #[trigger] block_mnemonics(vs)[i] == block_of(
                vs,
                u,
            )[k],
    decreases vs.len(),
{
    let n = vs.len() - 1;
    let init = vs.drop_last();
    let p = block_mnemonics(init);
    assert(block_mnemonics(vs) == p + block_of(vs, n));
    if u == n {
        assert(block_mnemonics(vs)[p.len() + k] == block_of(vs, u)[k]);
    } else {
        assert(init[u] == vs[u]);
        assert(block_of(init, u) == block_of(vs, u));
        lemma_in_block_mnemonics(init, u, k);
        let i = choose|i: int| 0 <= i < p.len() && #[trigger] p[i] == block_of(init, u)[k];
        assert(block_mnemonics(vs)[i] == p[i]);
    }
}

/// Disassembling a function again at the start of one of its blocks gives
/// back a graph with as many vertices and edges, the same blocks, and the
/// same edges between blocks, where the graph is laid out as
/// `lemma_round_trip_vertex_count` asks. `vs` and `es` stand for the
/// resulting graph, which `Function::disassemble` assembles from the
/// function's own index once the start is known decoded.
pub proof fn lemma_reentry_keeps_graph(
    f: Function,
    nb: int,
    start: u64,
    vs: Seq<ControlFlowTarget>,
    es: Seq<CflowEdge>,
)
    requires
        heads_marked(f.cflow_graph.vertices@, nb, f.cflow_graph.edges@, start),
        blocks_then_targets(f.cflow_graph.vertices@, nb),
        edges_reach_blocks(f.cflow_graph.vertices@, nb, f.cflow_graph.edges@),
        forall|v: int|
            nb <= v < f.cflow_graph.vertices@.len() ==> #[trigger] degree(v, f.cflow_graph.edges@)
                == 1,
        exists|w: int|
            0 <= w < nb && (#[trigger] block_of(f.cflow_graph.vertices@.take(nb), w))[0].area.start
                == start,
        starts_at(index_mnemonics(f.cflow_graph), start) ==> is_assembly(
            vs,
            es,
            index_mnemonics(f.cflow_graph),
            index_sources(f.cflow_graph),
            index_destinations(f.cflow_graph),
            start,
        ),
    ensures
        vs.len() == f.cflow_graph.vertices@.len(),
        es.len() == f.cflow_graph.edges@.len(),
        forall|u: int|
            0 <= u < nb ==> {
                &&& (#[trigger] vs[u]) is Resolved
                &&& vs[u]->Resolved_0.mnemonics@ == f.cflow_graph.vertices@[u]->Resolved_0.mnemonics@
                &&& vs[u]->Resolved_0.area == f.cflow_graph.vertices@[u]->Resolved_0.area
            },
        forall|i: int|
            0 <= i < es.len() && f.cflow_graph.edges@[i].source < nb
                && f.cflow_graph.edges@[i].target < nb ==> (#[trigger] es[i])
                == f.cflow_graph.edges@[i],
{
    let g = f.cflow_graph;
    let gv = g.vertices@;
    let bv = gv.take(nb);
    let w = choose|w: int| 0 <= w < nb && (#[trigger] block_of(bv, w))[0].area.start == start;
    assert(bv[w] is Resolved && is_run(block_of(bv, w)));
    assert forall|v: int| nb <= v < gv.len() implies (#[trigger] gv[v]) is Unresolved by {}
    assert forall|v: int| 0 <= v < bv.len() implies (#[trigger] bv[v]) is Resolved by {}
    lemma_targets_add_nothing(gv, nb);
    lemma_laid_out_sorted(bv);
    lemma_insert_sorted_identity(block_mnemonics(bv));
    lemma_in_block_mnemonics(bv, w, 0);
    let i = choose|i: int|
        0 <= i < block_mnemonics(bv).len() && #[trigger] block_mnemonics(bv)[i] == block_of(
            bv,
            w,
        )[0];
    assert(index_mnemonics(g) == block_mnemonics(bv));
    assert(index_mnemonics(g)[i].area.start == start);
    assert(starts_at(index_mnemonics(g), start));
    lemma_round_trip_vertex_count(g, nb, start, vs, es);
    lemma_round_trip(g, nb, start, vs, es);
}

} // verus!
