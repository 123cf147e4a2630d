//! The address index: every decoded instruction by start address, and the
//! control transfers by source and by destination address.
use vstd::prelude::*;
use crate::basic_block::{span_of, BasicBlock};
use crate::graph::{CflowEdge, ControlFlowTarget};
use crate::guard::Guard;
use crate::mnemonic::{bound_contains, Mnemonic};
use crate::value::Rvalue;

verus! {

/// One recorded control transfer. In the by-source list `address` is the
/// source and `other` the destination; in the by-destination list the other
/// way round. `None` stands for an endpoint that is no fixed address.
#[derive(Debug, PartialEq, Eq)]
pub struct IndexEdge {
    pub address: u64,
    pub other: Option<u64>,
    pub guard: Guard,
}

/// Instructions ordered by start address; instructions with the same start
/// stay in the order they were recorded.
#[derive(Debug, PartialEq, Eq)]
pub struct AddressIndex {
    pub mnemonics: Vec<Mnemonic>,
    pub by_source: Vec<IndexEdge>,
    pub by_destination: Vec<IndexEdge>,
}

/// Start addresses never decrease along `s`.
pub open spec fn sorted_by_start(s: Seq<Mnemonic>) -> bool {
    forall|i: int, j: int| 0 <= i < j < s.len() ==> s[i].area.start <= s[j].area.start
}

/// The number of leading instructions of a sorted `s` that start at or below `a`:
/// where an instruction starting at `a` goes after those already recorded.
pub open spec fn upper_bound(s: Seq<Mnemonic>, a: u64) -> int
    decreases s.len(),
{
    if s.len() == 0 {
        0
    } else if s.last().area.start <= a {
        s.len() as int
    } else {
        upper_bound(s.drop_last(), a)
    }
}

/// `s` with `m` recorded under its start address.
pub open spec fn insert_by_start(s: Seq<Mnemonic>, m: Mnemonic) -> Seq<Mnemonic> {
    s.insert(upper_bound(s, m.area.start), m)
}

/// `base` with each instruction of `ms` recorded in turn.
pub open spec fn insert_all_by_start(base: Seq<Mnemonic>, ms: Seq<Mnemonic>) -> Seq<Mnemonic>
    decreases ms.len(),
{
    if ms.len() == 0 {
        base
    } else {
        insert_by_start(insert_all_by_start(base, ms.drop_last()), ms.last())
    }
}

/// Whether some transfer of `es` at `a` names a fixed endpoint other than `b`.
pub open spec fn jumps_elsewhere(es: Seq<IndexEdge>, a: u64, b: u64) -> bool {
    exists|i: int|
        0 <= i < es.len() && (#[trigger] es[i]).address == a && es[i].other is Some
            && es[i].other->Some_0 != b
}

/// Whether an instruction of `s` starts at `a`.
pub open spec fn starts_at(s: Seq<Mnemonic>, a: u64) -> bool {
    exists|i: int| 0 <= i < s.len() && (#[trigger] s[i]).area.start == a
}

/// Whether an instruction of `s` covers `a` without starting there.
pub open spec fn straddles(s: Seq<Mnemonic>, a: u64) -> bool {
    exists|i: int|
        0 <= i < s.len() && (#[trigger] s[i]).area.start < a && a < s[i].area.end
}

pub proof fn lemma_upper_bound(s: Seq<Mnemonic>, a: u64)
    requires
        sorted_by_start(s),
    ensures
        0 <= upper_bound(s, a) <= s.len(),
        forall|j: int| 0 <= j < upper_bound(s, a) ==> s[j].area.start <= a,
        forall|j: int| upper_bound(s, a) <= j < s.len() ==> s[j].area.start > a,
    decreases s.len(),
{
    if s.len() > 0 {
        if s.last().area.start > a {
            let t = s.drop_last();
            assert(sorted_by_start(t));
            lemma_upper_bound(t, a);
            assert forall|j: int| 0 <= j < upper_bound(s, a) implies s[j].area.start <= a by {
                assert(s[j] == t[j]);
            }
            assert forall|j: int| upper_bound(s, a) <= j < s.len() implies s[j].area.start
                > a by {
                if j < s.len() - 1 {
                    assert(s[j] == t[j]);
                }
            }
        } else {
            assert forall|j: int| 0 <= j < s.len() implies s[j].area.start <= a by {
                if j < s.len() - 1 {
                    assert(s[j].area.start <= s[s.len() - 1].area.start);
                }
            }
        }
    }
}

/// The place where an instruction is recorded lies within the sequence.
pub proof fn lemma_upper_bound_in_range(s: Seq<Mnemonic>, a: u64)
    ensures
        0 <= upper_bound(s, a) <= s.len(),
    decreases s.len(),
{
    if s.len() > 0 {
        lemma_upper_bound_in_range(s.drop_last(), a);
    }
}

/// Recording an instruction keeps the instructions ordered by start address.
pub proof fn lemma_insert_sorted(s: Seq<Mnemonic>, m: Mnemonic)
    requires
        sorted_by_start(s),
    ensures
        sorted_by_start(insert_by_start(s, m)),
        insert_by_start(s, m).len() == s.len() + 1,
{
    lemma_upper_bound(s, m.area.start);
    let k = upper_bound(s, m.area.start);
    let r = insert_by_start(s, m);
    assert forall|i: int, j: int| 0 <= i < j < r.len() implies r[i].area.start
        <= r[j].area.start by {
        if i < k && j > k {
            assert(r[i] == s[i]);
            assert(r[j] == s[j - 1]);
        }
    }
}

/// Recording many instructions keeps the order too.
pub proof fn lemma_insert_all_sorted(base: Seq<Mnemonic>, ms: Seq<Mnemonic>)
    requires
        sorted_by_start(base),
    ensures
        sorted_by_start(insert_all_by_start(base, ms)),
        insert_all_by_start(base, ms).len() == base.len() + ms.len(),
    decreases ms.len(),
{
    if ms.len() > 0 {
        lemma_insert_all_sorted(base, ms.drop_last());
        lemma_insert_sorted(insert_all_by_start(base, ms.drop_last()), ms.last());
    }
}

impl AddressIndex {
    pub open spec fn wf(&self) -> bool {
        sorted_by_start(self.mnemonics@)
    }

    /// The index with nothing recorded.
    pub fn new() -> (r: AddressIndex)
        ensures
            r.mnemonics@.len() == 0,
            r.by_source@.len() == 0,
            r.by_destination@.len() == 0,
            r.wf(),
    {
        AddressIndex { mnemonics: Vec::new(), by_source: Vec::new(), by_destination: Vec::new() }
    }

    /// Records `m` under its start address, after those already there.
    pub fn record_mnemonic(&mut self, m: Mnemonic)
        requires
            old(self).wf(),
        ensures
            final(self).mnemonics@ == insert_by_start(old(self).mnemonics@, m),
            final(self).by_source@ == old(self).by_source@,
            final(self).by_destination@ == old(self).by_destination@,
            final(self).wf(),
    {
        proof {
            lemma_upper_bound(self.mnemonics@, m.area.start);
            lemma_insert_sorted(self.mnemonics@, m);
        }
        let a = m.area.start;
        let mut k: usize = self.mnemonics.len();
        while k > 0 && self.mnemonics[k - 1].area.start > a
            invariant
                k <= self.mnemonics@.len(),
                forall|j: int| k <= j < self.mnemonics@.len() ==> self.mnemonics@[j].area.start > a,
            decreases k,
        {
            k = k - 1;
        }
        self.mnemonics.insert(k, m);
    }

    /// Whether a recorded instruction starts at `a`.
    pub fn decoded_at(&self, a: u64) -> (r: bool)
        ensures
            r == starts_at(self.mnemonics@, a),
    {
        let mut i: usize = 0;
        while i < self.mnemonics.len()
            invariant
                i <= self.mnemonics@.len(),
                forall|j: int| 0 <= j < i ==> self.mnemonics@[j].area.start != a,
            decreases self.mnemonics@.len() - i,
        {
            if self.mnemonics[i].area.start == a {
                return true;
            }
            i = i + 1;
        }
        false
    }

    /// Whether a recorded instruction covers `a` without starting there.
    pub fn inside_instruction(&self, a: u64) -> (r: bool)
        ensures
            r == straddles(self.mnemonics@, a),
    {
        let mut i: usize = 0;
        while i < self.mnemonics.len()
            invariant
                i <= self.mnemonics@.len(),
                forall|j: int|
                    0 <= j < i ==> !(self.mnemonics@[j].area.start < a && a
                        < self.mnemonics@[j].area.end),
            decreases self.mnemonics@.len() - i,
        {
            if self.mnemonics[i].area.start < a && a < self.mnemonics[i].area.end {
                return true;
            }
            i = i + 1;
        }
        false
    }
}

/// Whether some transfer of `es` at `a` names a fixed endpoint other than `b`.
pub fn has_jump_elsewhere(es: &Vec<IndexEdge>, a: u64, b: u64) -> (r: bool)
    ensures
        r == jumps_elsewhere(es@, a, b),
{
    let mut i: usize = 0;
    while i < es.len()
        invariant
            i <= es@.len(),
            forall|j: int|
                0 <= j < i ==> !((#[trigger] es@[j]).address == a && es@[j].other is Some
                    && es@[j].other->Some_0 != b),
        decreases es@.len() - i,
    {
        match es[i].other {
            Some(o) => {
                if es[i].address == a && o != b {
                    return true;
                }
            },
            None => {},
        }
        i = i + 1;
    }
    false
}

/// The start of the last instruction of a block; the block's own start when
/// it holds none.
pub open spec fn last_start(bb: BasicBlock) -> u64 {
    if bb.mnemonics@.len() > 0 {
        bb.mnemonics@.last().area.start
    } else {
        bb.area.start
    }
}

/// The instructions of the resolved vertices of `vs`, vertex after vertex.
pub open spec fn block_mnemonics(vs: Seq<ControlFlowTarget>) -> Seq<Mnemonic>
    decreases vs.len(),
{
    if vs.len() == 0 {
        Seq::empty()
    } else {
        block_mnemonics(vs.drop_last()) + match vs.last() {
            ControlFlowTarget::Resolved(bb) => bb.mnemonics@,
            ControlFlowTarget::Unresolved(_) => Seq::empty(),
        }
    }
}

/// The unconditional fall-through from each instruction of `ms` to the next,
/// by source.
pub open spec fn chain_sources(ms: Seq<Mnemonic>) -> Seq<IndexEdge>
    decreases ms.len(),
{
    if ms.len() < 2 {
        Seq::empty()
    } else {
        chain_sources(ms.drop_last()).push(
            IndexEdge {
                address: ms[ms.len() - 2].area.start,
                other: Some(ms.last().area.start),
                guard: Guard::Always,
            },
        )
    }
}

/// The same fall-throughs, by destination.
pub open spec fn chain_destinations(ms: Seq<Mnemonic>) -> Seq<IndexEdge>
    decreases ms.len(),
{
    if ms.len() < 2 {
        Seq::empty()
    } else {
        chain_destinations(ms.drop_last()).push(
            IndexEdge {
                address: ms.last().area.start,
                other: Some(ms[ms.len() - 2].area.start),
                guard: Guard::Always,
            },
        )
    }
}

/// The fall-throughs inside the resolved vertices of `vs`, by source.
pub open spec fn block_sources(vs: Seq<ControlFlowTarget>) -> Seq<IndexEdge>
    decreases vs.len(),
{
    if vs.len() == 0 {
        Seq::empty()
    } else {
        block_sources(vs.drop_last()) + match vs.last() {
            ControlFlowTarget::Resolved(bb) => chain_sources(bb.mnemonics@),
            ControlFlowTarget::Unresolved(_) => Seq::empty(),
        }
    }
}

/// The fall-throughs inside the resolved vertices of `vs`, by destination.
pub open spec fn block_destinations(vs: Seq<ControlFlowTarget>) -> Seq<IndexEdge>
    decreases vs.len(),
{
    if vs.len() == 0 {
        Seq::empty()
    } else {
        block_destinations(vs.drop_last()) + match vs.last() {
            ControlFlowTarget::Resolved(bb) => chain_destinations(bb.mnemonics@),
            ControlFlowTarget::Unresolved(_) => Seq::empty(),
        }
    }
}

/// What the edge `e` of a graph over `vs` records by source: resolved to
/// resolved from the last instruction to the block start, a constant standing
/// for a missing block, and a computed target as no fixed address. Edges
/// between two unresolved vertices, or naming no vertex, record nothing.
pub open spec fn edge_source_entry(vs: Seq<ControlFlowTarget>, e: CflowEdge) -> Seq<IndexEdge> {
    if e.source >= vs.len() || e.target >= vs.len() {
        Seq::empty()
    } else {
        match (vs[e.source as int], vs[e.target as int]) {
            (ControlFlowTarget::Resolved(s), ControlFlowTarget::Resolved(t)) => seq![
                IndexEdge { address: last_start(s), other: Some(t.area.start), guard: e.guard },
            ],
            (ControlFlowTarget::Resolved(s), ControlFlowTarget::Unresolved(Rvalue::Constant(c))) => seq![
                IndexEdge { address: last_start(s), other: Some(c), guard: e.guard },
            ],
            (ControlFlowTarget::Resolved(s), ControlFlowTarget::Unresolved(_)) => seq![
                IndexEdge { address: s.area.start, other: None, guard: e.guard },
            ],
            (ControlFlowTarget::Unresolved(Rvalue::Constant(c)), ControlFlowTarget::Resolved(t)) => seq![
                IndexEdge { address: c, other: Some(t.area.start), guard: e.guard },
            ],
            _ => Seq::empty(),
        }
    }
}

/// What the edge `e` of a graph over `vs` records by destination.
pub open spec fn edge_destination_entry(vs: Seq<ControlFlowTarget>, e: CflowEdge) -> Seq<
    IndexEdge,
> {
    if e.source >= vs.len() || e.target >= vs.len() {
        Seq::empty()
    } else {
        match (vs[e.source as int], vs[e.target as int]) {
            (ControlFlowTarget::Resolved(s), ControlFlowTarget::Resolved(t)) => seq![
                IndexEdge { address: t.area.start, other: Some(last_start(s)), guard: e.guard },
            ],
            (ControlFlowTarget::Resolved(s), ControlFlowTarget::Unresolved(Rvalue::Constant(c))) => seq![
                IndexEdge { address: c, other: Some(last_start(s)), guard: e.guard },
            ],
            (ControlFlowTarget::Unresolved(Rvalue::Constant(c)), ControlFlowTarget::Resolved(t)) => seq![
                IndexEdge { address: t.area.start, other: Some(c), guard: e.guard },
            ],
            (ControlFlowTarget::Unresolved(_), ControlFlowTarget::Resolved(t)) => seq![
                IndexEdge { address: t.area.start, other: None, guard: e.guard },
            ],
            _ => Seq::empty(),
        }
    }
}

/// What the edges `es` record by source, edge after edge.
pub open spec fn edge_sources(vs: Seq<ControlFlowTarget>, es: Seq<CflowEdge>) -> Seq<IndexEdge>
    decreases es.len(),
{
    if es.len() == 0 {
        Seq::empty()
    } else {
        edge_sources(vs, es.drop_last()) + edge_source_entry(vs, es.last())
    }
}

/// What the edges `es` record by destination, edge after edge.
pub open spec fn edge_destinations(vs: Seq<ControlFlowTarget>, es: Seq<CflowEdge>) -> Seq<
    IndexEdge,
>
    decreases es.len(),
{
    if es.len() == 0 {
        Seq::empty()
    } else {
        edge_destinations(vs, es.drop_last()) + edge_destination_entry(vs, es.last())
    }
}

/// Something found wrong while disassembling; reported beside the result.
#[derive(Clone, Copy, Debug, PartialEq, Eq)]
pub enum Diagnostic {
    /// The decoder matched nothing at this address.
    DecodeFailure(u64),
    /// This jump target lies inside an instruction decoded before.
    JumpIntoInstruction(u64),
    /// A recorded transfer between two addresses that neither ends nor
    /// starts a block.
    DanglingEdge { from: u64, to: u64 },
}

/// Whether `cur`, which follows `prev` in the ordered instructions, must start
/// a new block: the two are not adjacent, `prev` transfers somewhere other
/// than `cur`, something other than `prev` transfers to `cur`, or `cur` is
/// the entry.
pub open spec fn starts_block(
    bs: Seq<IndexEdge>,
    bd: Seq<IndexEdge>,
    prev: Mnemonic,
    cur: Mnemonic,
    entry: u64,
) -> bool {
    ||| prev.area.end != cur.area.start
    ||| jumps_elsewhere(bs, prev.area.start, cur.area.start)
    ||| jumps_elsewhere(bd, cur.area.start, prev.area.start)
    ||| cur.area.start == entry
}

/// The instructions `ms`, cut into blocks before each one that must start one.
pub open spec fn split_blocks(
    ms: Seq<Mnemonic>,
    bs: Seq<IndexEdge>,
    bd: Seq<IndexEdge>,
    entry: u64,
) -> Seq<Seq<Mnemonic>>
    decreases ms.len(),
{
    if ms.len() == 0 {
        Seq::empty()
    } else if ms.len() == 1 {
        seq![seq![ms[0]]]
    } else {
        let prev = split_blocks(ms.drop_last(), bs, bd, entry);
        if starts_block(bs, bd, ms[ms.len() - 2], ms.last(), entry) {
            prev.push(seq![ms.last()])
        } else {
            prev.update(prev.len() - 1, prev.last().push(ms.last()))
        }
    }
}

pub proof fn lemma_split_blocks(ms: Seq<Mnemonic>, bs: Seq<IndexEdge>, bd: Seq<IndexEdge>, entry: u64)
    requires
        ms.len() > 0,
    ensures
        split_blocks(ms, bs, bd, entry).len() > 0,
        split_blocks(ms, bs, bd, entry).last().len() > 0,
        split_blocks(ms, bs, bd, entry).last().last() == ms.last(),
        forall|i: int|
            0 <= i < split_blocks(ms, bs, bd, entry).len() ==> (#[trigger] split_blocks(
                ms,
                bs,
                bd,
                entry,
            )[i]).len() > 0,
    decreases ms.len(),
{
    if ms.len() > 1 {
        lemma_split_blocks(ms.drop_last(), bs, bd, entry);
    }
}

/// `i` is the first block whose last instruction starts at `a`.
pub open spec fn is_first_tail(blocks: Seq<Seq<Mnemonic>>, a: u64, i: int) -> bool {
    &&& 0 <= i < blocks.len()
    &&& blocks[i].last().area.start == a
    &&& forall|j: int| 0 <= j < i ==> (#[trigger] blocks[j]).last().area.start != a
}

/// `i` is the first block that starts at `a`.
pub open spec fn is_first_head(blocks: Seq<Seq<Mnemonic>>, a: u64, i: int) -> bool {
    &&& 0 <= i < blocks.len()
    &&& span_of(blocks[i]).start == a
    &&& forall|j: int| 0 <= j < i ==> span_of(#[trigger] blocks[j]).start != a
}

/// The first block whose last instruction starts at `a`, if any.
pub open spec fn tail_block(blocks: Seq<Seq<Mnemonic>>, a: u64) -> Option<int> {
    if exists|i: int| is_first_tail(blocks, a, i) {
        Some(choose|i: int| is_first_tail(blocks, a, i))
    } else {
        None
    }
}

/// The first block that starts at `a`, if any.
pub open spec fn head_block(blocks: Seq<Seq<Mnemonic>>, a: u64) -> Option<int> {
    if exists|i: int| is_first_head(blocks, a, i) {
        Some(choose|i: int| is_first_head(blocks, a, i))
    } else {
        None
    }
}

/// Wiring the transfers `es` between `blocks`, in order: the constants of the
/// unresolved vertices added after the blocks, the edges, and the transfers
/// that hit no block. A transfer with a block at both ends joins them; with a
/// block at one end only, it joins that block to a new unresolved vertex for
/// the other address, unless the block covers that address; with none, it is
/// reported.
pub open spec fn wire(blocks: Seq<Seq<Mnemonic>>, es: Seq<IndexEdge>) -> (
    Seq<u64>,
    Seq<CflowEdge>,
    Seq<Diagnostic>,
)
    decreases es.len(),
{
    if es.len() == 0 {
        (Seq::empty(), Seq::empty(), Seq::empty())
    } else {
        let (xs, eds, dg) = wire(blocks, es.drop_last());
        let e = es.last();
        let fresh = (blocks.len() + xs.len()) as usize;
        match e.other {
            None => (xs, eds, dg),
            Some(t) => match (tail_block(blocks, e.address), head_block(blocks, t)) {
                (Some(f), Some(h)) => (
                    xs,
                    eds.push(CflowEdge { source: f as usize, target: h as usize, guard: e.guard }),
                    dg,
                ),
                (None, Some(h)) => if bound_contains(span_of(blocks[h]), e.address) {
                    (xs, eds, dg)
                } else {
                    (
                        xs.push(e.address),
                        eds.push(CflowEdge { source: fresh, target: h as usize, guard: e.guard }),
                        dg,
                    )
                },
                (Some(f), None) => if bound_contains(span_of(blocks[f]), t) {
                    (xs, eds, dg)
                } else {
                    (
                        xs.push(t),
                        eds.push(CflowEdge { source: f as usize, target: fresh, guard: e.guard }),
                        dg,
                    )
                },
                (None, None) => (xs, eds, dg.push(Diagnostic::DanglingEdge { from: e.address, to: t })),
            },
        }
    }
}

/// The first vertices of `vs` are the blocks `blocks`, each over the interval
/// it spans.
pub open spec fn holds_blocks(vs: Seq<ControlFlowTarget>, blocks: Seq<Seq<Mnemonic>>) -> bool {
    &&& blocks.len() <= vs.len()
    &&& forall|i: int|
        0 <= i < blocks.len() ==> {
            &&& (#[trigger] vs[i]) is Resolved
            &&& vs[i]->Resolved_0.mnemonics@ == blocks[i]
            &&& vs[i]->Resolved_0.area == span_of(blocks[i])
        }
}

/// `vs` and `es` are the graph assembled from the ordered instructions `ms`
/// and the transfers `bs` (by source) and `bd` (by destination), with `entry`
/// starting a block: the blocks first, then the unresolved vertices, with the
/// edges that wiring gives.
pub open spec fn is_assembly(
    vs: Seq<ControlFlowTarget>,
    es: Seq<CflowEdge>,
    ms: Seq<Mnemonic>,
    bs: Seq<IndexEdge>,
    bd: Seq<IndexEdge>,
    entry: u64,
) -> bool {
    let blocks = split_blocks(ms, bs, bd, entry);
    let (xs, eds, _) = wire(blocks, bs);
    &&& vs.len() == blocks.len() + xs.len()
    &&& holds_blocks(vs, blocks)
    &&& forall|i: int|
        0 <= i < xs.len() ==> vs[blocks.len() + i] == ControlFlowTarget::Unresolved(
            Rvalue::Constant(#[trigger] xs[i]),
        )
    &&& es == eds
}

/// The transfers that assembling reports as hitting no block.
pub open spec fn assembly_diagnostics(
    ms: Seq<Mnemonic>,
    bs: Seq<IndexEdge>,
    bd: Seq<IndexEdge>,
    entry: u64,
) -> Seq<Diagnostic> {
    wire(split_blocks(ms, bs, bd, entry), bs).2
}

} // verus!
