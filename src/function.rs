//! Functions: a control-flow graph with an identity, a name and an entry,
//! and the transforms between graphs and address indices.
use vstd::prelude::*;
use crate::basic_block::{span_of, statements_of, BasicBlock};
use crate::graph::{CflowEdge, ControlFlowGraph, ControlFlowRef, ControlFlowTarget};
use crate::decoder::{
    lemma_place_of, lemma_run_shift, lemma_run_settles, place_of, queue, queue_all, run, step,
    strictly_increasing, Decoder, Worklist,
};
use crate::guard::Guard;
use crate::index::{
    block_destinations, block_mnemonics, block_sources, chain_destinations, chain_sources,
    edge_destinations, edge_sources,
    has_jump_elsewhere, head_block, holds_blocks, insert_all_by_start, is_assembly,
    is_first_head, is_first_tail, assembly_diagnostics, last_start, lemma_split_blocks,
    split_blocks, starts_at, straddles, tail_block, wire, AddressIndex, Diagnostic, IndexEdge,
};
use crate::mnemonic::{call_target, Instr, Mnemonic};
use crate::round_trip::{
    lemma_assembly_keeps_instructions, lemma_insert_all_keeps_instructions,
    lemma_round_trip_keeps_instructions,
};
use vstd::multiset::Multiset;
use crate::value::Rvalue;
use uuid::Uuid;

verus! {

/// uuid's `Uuid`, carried through as an opaque identifier.
#[verifier::external_type_specification]
#[verifier::external_body]
pub struct ExUuid(Uuid);

/// Relies on uuid's `Uuid::new_v4`: a random identifier, of which nothing is promised.
pub assume_specification[ Uuid::new_v4 ]() -> Uuid;

/// A function: its identifier, its name, its control-flow graph and,
/// where known, the vertex at which it is entered.
#[derive(Debug)]
pub struct Function {
    pub uuid: Uuid,
    pub name: String,
    pub cflow_graph: ControlFlowGraph,
    pub entry_point: Option<ControlFlowRef>,
}

/// The decimal digits of `n`, most significant first.
pub open spec fn decimal(n: nat) -> Seq<char>
    decreases n,
{
    let d = seq!['0', '1', '2', '3', '4', '5', '6', '7', '8', '9'][(n % 10) as int];
    if n < 10 {
        seq![d]
    } else {
        decimal(n / 10).push(d)
    }
}

/// The name of a function found at `start`: "func_" and the address in decimal.
pub open spec fn default_name(start: u64) -> Seq<char> {
    seq!['f', 'u', 'n', 'c', '_'] + decimal(start as nat)
}

/// The decimal digit `d` as text.
fn digit_text(d: u64) -> (r: &'static str)
    requires
        d < 10,
    ensures
        r@ == seq![seq!['0', '1', '2', '3', '4', '5', '6', '7', '8', '9'][d as int]],
{
    proof {
        reveal_strlit("0");
        reveal_strlit("1");
        reveal_strlit("2");
        reveal_strlit("3");
        reveal_strlit("4");
        reveal_strlit("5");
        reveal_strlit("6");
        reveal_strlit("7");
        reveal_strlit("8");
        reveal_strlit("9");
    }
    match d {
        0 => "0",
        1 => "1",
        2 => "2",
        3 => "3",
        4 => "4",
        5 => "5",
        6 => "6",
        7 => "7",
        8 => "8",
        _ => "9",
    }
}

/// Appends the decimal digits of `n` to `s`.
fn append_decimal(s: &mut String, n: u64)
    ensures
        final(s)@ == old(s)@ + decimal(n as nat),
    decreases n,
{
    if n >= 10 {
        append_decimal(s, n / 10);
    }
    s.append(digit_text(n % 10));
    assert((n / 10) as nat == (n as nat) / 10);
}

/// The name of a function found at `start`.
fn function_name(start: u64) -> (r: String)
    ensures
        r@ == default_name(start),
{
    let mut name = String::from_str("func_");
    proof {
        reveal_strlit("func_");
    }
    append_decimal(&mut name, start);
    name
}

/// The address whose block becomes the entry after disassembling at `start`:
/// the start of the prior function's entry block, if it has one; else `start`.
pub open spec fn resume_address(cont: Option<Function>, start: u64) -> u64 {
    match cont {
        Some(f) => match f.entry_point {
            Some(v) => if v < f.cflow_graph.vertices@.len()
                && f.cflow_graph.vertices@[v as int] is Resolved {
                f.cflow_graph.vertices@[v as int]->Resolved_0.area.start
            } else {
                start
            },
            None => start,
        },
        None => start,
    }
}

/// Vertex `v` of `vs` is a block that starts at `a`.
pub open spec fn block_starts_at(vs: Seq<ControlFlowTarget>, v: int, a: u64) -> bool {
    0 <= v < vs.len() && vs[v] is Resolved && vs[v]->Resolved_0.area.start == a
}

/// Vertex `v` of `vs` is a block whose interval holds `a`.
pub open spec fn block_covers(vs: Seq<ControlFlowTarget>, v: int, a: u64) -> bool {
    0 <= v < vs.len() && vs[v] is Resolved && vs[v]->Resolved_0.area.start <= a && a
        < vs[v]->Resolved_0.area.end
}

/// Where disassembly from `cont` at `start` begins: the index of `cont`'s
/// graph (or an empty one), with `start` pending and nothing taken or
/// reported yet.
pub open spec fn initial_worklist(cont: Option<Function>, start: u64) -> Worklist {
    Worklist {
        mnemonics: if cont is Some {
            index_mnemonics(cont->Some_0.cflow_graph)
        } else {
            Seq::empty()
        },
        by_source: if cont is Some {
            index_sources(cont->Some_0.cflow_graph)
        } else {
            Seq::empty()
        },
        by_destination: if cont is Some {
            index_destinations(cont->Some_0.cflow_graph)
        } else {
            Seq::empty()
        },
        pending: seq![start],
        visited: Seq::empty(),
        diags: Seq::empty(),
    }
}

/// `vs` and `es` are what disassembly from `cont` at `start` gives, and
/// `after` is `before` with what it reported: the worklist runs until
/// nothing is pending, and its index is assembled with `start` starting a
/// block.
pub open spec fn disassembled<D: Decoder>(
    dec: D,
    cont: Option<Function>,
    start: u64,
    vs: Seq<ControlFlowTarget>,
    es: Seq<CflowEdge>,
    before: Seq<Diagnostic>,
    after: Seq<Diagnostic>,
) -> bool {
    exists|n: nat|
        #![trigger run(dec, initial_worklist(cont, start), n)]
        {
            let w = run(dec, initial_worklist(cont, start), n);
            &&& w.pending.len() == 0
            &&& is_assembly(vs, es, w.mnemonics, w.by_source, w.by_destination, start)
            &&& after == before + w.diags + assembly_diagnostics(
                w.mnemonics,
                w.by_source,
                w.by_destination,
                start,
            )
        }
}

/// The instructions of the index of a graph.
pub open spec fn index_mnemonics(g: ControlFlowGraph) -> Seq<Mnemonic> {
    insert_all_by_start(Seq::empty(), block_mnemonics(g.vertices@))
}

/// The transfers by source of the index of a graph.
pub open spec fn index_sources(g: ControlFlowGraph) -> Seq<IndexEdge> {
    block_sources(g.vertices@) + edge_sources(g.vertices@, g.edges@)
}

/// The transfers by destination of the index of a graph.
pub open spec fn index_destinations(g: ControlFlowGraph) -> Seq<IndexEdge> {
    block_destinations(g.vertices@) + edge_destinations(g.vertices@, g.edges@)
}

/// The constant call targets of the statements of `vs`, vertex after vertex.
pub open spec fn graph_calls(vs: Seq<ControlFlowTarget>) -> Seq<u64>
    decreases vs.len(),
{
    if vs.len() == 0 {
        Seq::empty()
    } else {
        graph_calls(vs.drop_last()) + match vs.last() {
            ControlFlowTarget::Resolved(bb) => calls_in(statements_of(bb.mnemonics@)),
            ControlFlowTarget::Unresolved(_) => Seq::empty(),
        }
    }
}

/// The constant call targets of `is`, in order.
pub open spec fn calls_in(is: Seq<Instr>) -> Seq<u64>
    decreases is.len(),
{
    if is.len() == 0 {
        Seq::empty()
    } else {
        match call_target(is.last()) {
            Some(c) => calls_in(is.drop_last()).push(c),
            None => calls_in(is.drop_last()),
        }
    }
}

/// Running the worklist never loses an instruction of the index.
proof fn lemma_run_grows<D: Decoder>(dec: D, s: Worklist, n: nat)
    ensures
        s.mnemonics.to_multiset().subset_of(run(dec, s, n).mnemonics.to_multiset()),
    decreases n,
{
    broadcast use vstd::multiset::group_multiset_axioms;

    if n > 0 {
        lemma_run_grows(dec, s, (n - 1) as nat);
        let w = run(dec, s, (n - 1) as nat);
        assert(run(dec, s, n) == step(dec, w));
        if w.pending.len() > 0 {
            let addr = w.pending[0];
            if !starts_at(w.mnemonics, addr) && !straddles(w.mnemonics, addr) {
                if let Some(m) = dec.decodes(addr) {
                    lemma_insert_all_keeps_instructions(w.mnemonics, m.mnemonics@);
                }
            }
        }
    }
}

/// What a finished disassembly gives in the cases its first step settles,
/// and that it keeps the instructions it started from or first decoded.
proof fn lemma_disassembly_facts<D: Decoder>(
    dec: D,
    cont: Option<Function>,
    start: u64,
    n: nat,
    vs: Seq<ControlFlowTarget>,
    es: Seq<CflowEdge>,
    before: Seq<Diagnostic>,
    after: Seq<Diagnostic>,
)
    requires
        ({
            let w = run(dec, initial_worklist(cont, start), n);
            &&& w.pending.len() == 0
            &&& is_assembly(vs, es, w.mnemonics, w.by_source, w.by_destination, start)
            &&& after == before + w.diags + assembly_diagnostics(
                w.mnemonics,
                w.by_source,
                w.by_destination,
                start,
            )
        }),
    ensures
        cont is None && dec.decodes(start) is None ==> vs.len() == 0 && after == before.push(
            Diagnostic::DecodeFailure(start),
        ),
        cont is None && dec.decodes(start) is Some ==> dec.decodes(
            start,
        )->Some_0.mnemonics@.to_multiset().subset_of(block_mnemonics(vs).to_multiset()),
        cont is Some ==> block_mnemonics(
            cont->Some_0.cflow_graph.vertices@,
        ).to_multiset().subset_of(block_mnemonics(vs).to_multiset()),
        cont is Some && starts_at(index_mnemonics(cont->Some_0.cflow_graph), start) ==> is_assembly(
            vs,
            es,
            index_mnemonics(cont->Some_0.cflow_graph),
            index_sources(cont->Some_0.cflow_graph),
            index_destinations(cont->Some_0.cflow_graph),
            start,
        ) && after == before + assembly_diagnostics(
            index_mnemonics(cont->Some_0.cflow_graph),
            index_sources(cont->Some_0.cflow_graph),
            index_destinations(cont->Some_0.cflow_graph),
            start,
        ),
        cont is Some && !starts_at(index_mnemonics(cont->Some_0.cflow_graph), start) && straddles(
            index_mnemonics(cont->Some_0.cflow_graph),
            start,
        ) ==> is_assembly(
            vs,
            es,
            index_mnemonics(cont->Some_0.cflow_graph),
            index_sources(cont->Some_0.cflow_graph),
            index_destinations(cont->Some_0.cflow_graph),
            start,
        ) && after == before.push(Diagnostic::JumpIntoInstruction(start)) + assembly_diagnostics(
            index_mnemonics(cont->Some_0.cflow_graph),
            index_sources(cont->Some_0.cflow_graph),
            index_destinations(cont->Some_0.cflow_graph),
            start,
        ),
{
    broadcast use vstd::multiset::group_multiset_axioms;

    let init = initial_worklist(cont, start);
    let w = run(dec, init, n);
    assert(n > 0) by {
        if n == 0 {
            assert(init.pending.len() == 1);
        }
    }
    let s1 = step(dec, init);
    assert(run(dec, init, 1) == step(dec, run(dec, init, 0)));
    assert(init.pending[0] == start);
    assert(init.pending.drop_first() =~= Seq::<u64>::empty());
    lemma_run_shift(dec, init, (n - 1) as nat);
    lemma_assembly_keeps_instructions(vs, es, w.mnemonics, w.by_source, w.by_destination, start);
    if cont is None {
        assert(!starts_at(init.mnemonics, start));
        assert(!straddles(init.mnemonics, start));
        match dec.decodes(start) {
            None => {
                lemma_run_settles(dec, init, 1, n);
                assert(w == s1);
                assert(split_blocks(w.mnemonics, w.by_source, w.by_destination, start)
                    =~= Seq::<Seq<Mnemonic>>::empty());
                assert(w.by_source =~= Seq::<IndexEdge>::empty());
                assert(w.diags =~= seq![Diagnostic::DecodeFailure(start)]);
                assert(after =~= before.push(Diagnostic::DecodeFailure(start)));
            },
            Some(m) => {
                lemma_run_grows(dec, s1, (n - 1) as nat);
                lemma_insert_all_keeps_instructions(Seq::empty(), m.mnemonics@);
                assert(Seq::<Mnemonic>::empty().to_multiset() =~= Multiset::empty()) by {
                    broadcast use vstd::seq_lib::to_multiset_len, vstd::multiset::lemma_multiset_empty_len;
                    assert(Seq::<Mnemonic>::empty().to_multiset().len() == 0);
                }
                assert(Multiset::<Mnemonic>::empty().add(m.mnemonics@.to_multiset())
                    =~= m.mnemonics@.to_multiset());
            },
        }
    } else {
        let p = cont->Some_0.cflow_graph;
        lemma_run_grows(dec, init, n);
        lemma_round_trip_keeps_instructions(p, start);
        if starts_at(index_mnemonics(p), start) {
            lemma_run_settles(dec, init, 1, n);
            assert(w == s1);
            assert(w.diags =~= Seq::<Diagnostic>::empty());
            assert(after =~= before + assembly_diagnostics(
                index_mnemonics(p),
                index_sources(p),
                index_destinations(p),
                start,
            ));
        } else if straddles(index_mnemonics(p), start) {
            lemma_run_settles(dec, init, 1, n);
            assert(w == s1);
            assert(w.diags =~= seq![Diagnostic::JumpIntoInstruction(start)]);
            assert(before + w.diags =~= before.push(Diagnostic::JumpIntoInstruction(start)));
        }
    }
}

/// The first block of `g` that starts at `a`.
fn find_block_starting_at(g: &ControlFlowGraph, a: u64) -> (r: Option<ControlFlowRef>)
    ensures
        r matches Some(v) ==> block_starts_at(g.vertices@, v as int, a) && forall|u: int|
            0 <= u < v ==> !block_starts_at(g.vertices@, u, a),
        r is None ==> forall|u: int| !block_starts_at(g.vertices@, u, a),
{
    let mut i: usize = 0;
    while i < g.vertices.len()
        invariant
            i <= g.vertices@.len(),
            forall|u: int| 0 <= u < i ==> !block_starts_at(g.vertices@, u, a),
        decreases g.vertices@.len() - i,
    {
        match &g.vertices[i] {
            ControlFlowTarget::Resolved(bb) => {
                if bb.area.start == a {
                    return Some(i);
                }
            },
            ControlFlowTarget::Unresolved(_) => {},
        }
        i = i + 1;
    }
    None
}

/// Adds `c` to the strictly increasing address list `pending`, in its place,
/// unless it is there.
fn insert_pending(pending: &mut Vec<u64>, c: u64)
    requires
        strictly_increasing(old(pending)@),
    ensures
        strictly_increasing(final(pending)@),
        final(pending)@ == queue(old(pending)@, c),
{
    let ghost listed = pending@;
    proof {
        lemma_place_of(listed, c);
    }
    let mut k: usize = 0;
    while k < pending.len() && pending[k] < c
        invariant
            k <= pending@.len(),
            pending@ == listed,
            forall|j: int| 0 <= j < k ==> pending@[j] < c,
        decreases pending@.len() - k,
    {
        k = k + 1;
    }
    proof {
        let pl = place_of(listed, c);
        if (k as int) < pl {
            assert(listed[k as int] < c);
        } else if (k as int) > pl {
            assert(listed[pl] < c);
        }
    }
    assert(k == place_of(listed, c));
    if k < pending.len() && pending[k] == c {
        assert(listed.contains(c));
        return;
    }
    assert(!listed.contains(c)) by {
        if listed.contains(c) {
            let i = choose|i: int| 0 <= i < listed.len() && listed[i] == c;
            if i >= k && i > k {
                assert(listed[k as int] < listed[i]);
            }
        }
    }
    pending.insert(k, c);
    assert forall|i: int, j: int| 0 <= i < j < pending@.len() implies pending@[i] < pending@[j] by {
        if j < k {
        } else if i > k {
            assert(pending@[i] == listed[i - 1] && pending@[j] == listed[j - 1]);
        } else if i == k {
            assert(pending@[j] == listed[j - 1]);
        } else if j == k {
        } else {
            assert(pending@[j] == listed[j - 1]);
            assert(listed[i] < c);
        }
    }
}

/// Whether `v` holds `a`.
fn holds_address(v: &Vec<u64>, a: u64) -> (r: bool)
    ensures
        r == v@.contains(a),
{
    let mut i: usize = 0;
    while i < v.len()
        invariant
            i <= v@.len(),
            forall|j: int| 0 <= j < i ==> v@[j] != a,
        decreases v@.len() - i,
    {
        if v[i] == a {
            return true;
        }
        i = i + 1;
    }
    false
}

/// The start of the last instruction of `bb`, or its start where it has none.
fn last_start_of(bb: &BasicBlock) -> (r: u64)
    ensures
        r == last_start(*bb),
{
    if bb.mnemonics.len() > 0 {
        bb.mnemonics[bb.mnemonics.len() - 1].area.start
    } else {
        bb.area.start
    }
}

/// The first of the `blocks` (the first vertices of `g`) whose last
/// instruction starts at `a`.
fn find_tail(g: &ControlFlowGraph, nb: usize, blocks: Ghost<Seq<Seq<Mnemonic>>>, a: u64) -> (r:
    Option<usize>)
    requires
        nb == blocks@.len(),
        holds_blocks(g.vertices@, blocks@),
        forall|i: int| 0 <= i < blocks@.len() ==> (#[trigger] blocks@[i]).len() > 0,
    ensures
        r matches Some(i) ==> tail_block(blocks@, a) == Some(i as int),
        r is None ==> tail_block(blocks@, a) is None,
{
    let mut i: usize = 0;
    while i < nb
        invariant
            i <= nb,
            nb == blocks@.len(),
            holds_blocks(g.vertices@, blocks@),
            forall|i: int| 0 <= i < blocks@.len() ==> (#[trigger] blocks@[i]).len() > 0,
            forall|j: int| 0 <= j < i ==> (#[trigger] blocks@[j]).last().area.start != a,
        decreases nb - i,
    {
        match &g.vertices[i] {
            ControlFlowTarget::Resolved(bb) => {
                assert(bb.mnemonics@ == blocks@[i as int]);
                if bb.mnemonics.len() > 0 && bb.mnemonics[bb.mnemonics.len() - 1].area.start == a {
                    assert(is_first_tail(blocks@, a, i as int));
                    return Some(i);
                }
            },
            ControlFlowTarget::Unresolved(_) => {},
        }
        i = i + 1;
    }
    assert(!exists|i: int| is_first_tail(blocks@, a, i));
    None
}

/// The first of the `blocks` (the first vertices of `g`) that starts at `a`.
fn find_head(g: &ControlFlowGraph, nb: usize, blocks: Ghost<Seq<Seq<Mnemonic>>>, a: u64) -> (r:
    Option<usize>)
    requires
        nb == blocks@.len(),
        holds_blocks(g.vertices@, blocks@),
    ensures
        r matches Some(i) ==> head_block(blocks@, a) == Some(i as int),
        r is None ==> head_block(blocks@, a) is None,
{
    let mut i: usize = 0;
    while i < nb
        invariant
            i <= nb,
            nb == blocks@.len(),
            holds_blocks(g.vertices@, blocks@),
            forall|j: int| 0 <= j < i ==> span_of(#[trigger] blocks@[j]).start != a,
        decreases nb - i,
    {
        match &g.vertices[i] {
            ControlFlowTarget::Resolved(bb) => {
                if bb.area.start == a {
                    assert(is_first_head(blocks@, a, i as int));
                    return Some(i);
                }
            },
            ControlFlowTarget::Unresolved(_) => {},
        }
        i = i + 1;
    }
    assert(!exists|i: int| is_first_head(blocks@, a, i));
    None
}

impl Function {
    /// An empty function with a fresh random identifier.
    pub fn new(a: String) -> (r: Function)
        ensures
            r.name == a,
            r.cflow_graph.vertices@.len() == 0,
            r.cflow_graph.edges@.len() == 0,
            r.entry_point is None,
    {
        Function {
            uuid: Uuid::new_v4(),
            name: a,
            cflow_graph: ControlFlowGraph::new(),
            entry_point: None,
        }
    }

    /// An empty function with the given identifier.
    pub fn with_uuid(a: String, uu: Uuid) -> (r: Function)
        ensures
            r.name == a,
            r.uuid == uu,
            r.cflow_graph.vertices@.len() == 0,
            r.cflow_graph.edges@.len() == 0,
            r.entry_point is None,
    {
        Function { uuid: uu, name: a, cflow_graph: ControlFlowGraph::new(), entry_point: None }
    }

    /// Flattens a graph into an address index: every instruction of every
    /// block under its start address, the fall-through inside each block as
    /// an unconditional transfer, and each edge that names an address.
    pub fn index_cflow_graph(g: ControlFlowGraph) -> (r: AddressIndex)
        ensures
            r.wf(),
            r.mnemonics@ == insert_all_by_start(Seq::empty(), block_mnemonics(g.vertices@)),
            r.by_source@ == block_sources(g.vertices@) + edge_sources(g.vertices@, g.edges@),
            r.by_destination@ == block_destinations(g.vertices@) + edge_destinations(
                g.vertices@,
                g.edges@,
            ),
    {
        let ghost vs = g.vertices@;
        let ghost es = g.edges@;
        assert(vs.len() == g.vertices.len());
        let mut by_source: Vec<IndexEdge> = Vec::new();
        let mut by_destination: Vec<IndexEdge> = Vec::new();

        // fall-through inside each block
        let mut i: usize = 0;
        while i < g.vertices.len()
            invariant
                i <= vs.len(),
                g.vertices@ == vs,
                by_source@ == block_sources(vs.take(i as int)),
                by_destination@ == block_destinations(vs.take(i as int)),
            decreases vs.len() - i,
        {
            assert(vs.take(i + 1).drop_last() == vs.take(i as int));
            match &g.vertices[i] {
                ControlFlowTarget::Resolved(bb) => {
                    let ghost bs0 = by_source@;
                    let ghost bd0 = by_destination@;
                    let ghost ms = bb.mnemonics@;
                    let mut j: usize = 0;
                    while j < bb.mnemonics.len()
                        invariant
                            j <= ms.len(),
                            ms == bb.mnemonics@,
                            by_source@ == bs0 + chain_sources(ms.take(j as int)),
                            by_destination@ == bd0 + chain_destinations(ms.take(j as int)),
                        decreases ms.len() - j,
                    {
                        assert(ms.take(j + 1).drop_last() == ms.take(j as int));
                        if j > 0 {
                            let prev = bb.mnemonics[j - 1].area.start;
                            let cur = bb.mnemonics[j].area.start;
                            by_source.push(
                                IndexEdge { address: prev, other: Some(cur), guard: Guard::always() },
                            );
                            by_destination.push(
                                IndexEdge { address: cur, other: Some(prev), guard: Guard::always() },
                            );
                        }
                        j = j + 1;
                    }
                    assert(ms.take(ms.len() as int) == ms);
                },
                ControlFlowTarget::Unresolved(_) => {},
            }
            i = i + 1;
        }
        assert(vs.take(vs.len() as int) == vs);

        // each edge between vertices that name addresses
        let mut edge_src: Vec<IndexEdge> = Vec::new();
        let mut edge_dst: Vec<IndexEdge> = Vec::new();
        let n = g.vertices.len();
        let mut k: usize = 0;
        while k < g.edges.len()
            invariant
                k <= es.len(),
                g.edges@ == es,
                g.vertices@ == vs,
                n == vs.len(),
                edge_src@ == edge_sources(vs, es.take(k as int)),
                edge_dst@ == edge_destinations(vs, es.take(k as int)),
            decreases es.len() - k,
        {
            assert(es.take(k + 1).drop_last() == es.take(k as int));
            let e = &g.edges[k];
            if e.source < n && e.target < n {
                match (&g.vertices[e.source], &g.vertices[e.target]) {
                    (ControlFlowTarget::Resolved(s), ControlFlowTarget::Resolved(t)) => {
                        let last = last_start_of(s);
                        edge_src.push(
                            IndexEdge {
                                address: last,
                                other: Some(t.area.start),
                                guard: e.guard.duplicate(),
                            },
                        );
                        edge_dst.push(
                            IndexEdge {
                                address: t.area.start,
                                other: Some(last),
                                guard: e.guard.duplicate(),
                            },
                        );
                    },
                    (
                        ControlFlowTarget::Resolved(s),
                        ControlFlowTarget::Unresolved(Rvalue::Constant(c)),
                    ) => {
                        let last = last_start_of(s);
                        edge_src.push(
                            IndexEdge { address: last, other: Some(*c), guard: e.guard.duplicate() },
                        );
                        edge_dst.push(
                            IndexEdge { address: *c, other: Some(last), guard: e.guard.duplicate() },
                        );
                    },
                    (ControlFlowTarget::Resolved(s), ControlFlowTarget::Unresolved(_)) => {
                        edge_src.push(
                            IndexEdge { address: s.area.start, other: None, guard: e.guard.duplicate() },
                        );
                    },
                    (
                        ControlFlowTarget::Unresolved(Rvalue::Constant(c)),
                        ControlFlowTarget::Resolved(t),
                    ) => {
                        edge_src.push(
                            IndexEdge {
                                address: *c,
                                other: Some(t.area.start),
                                guard: e.guard.duplicate(),
                            },
                        );
                        edge_dst.push(
                            IndexEdge {
                                address: t.area.start,
                                other: Some(*c),
                                guard: e.guard.duplicate(),
                            },
                        );
                    },
                    (ControlFlowTarget::Unresolved(_), ControlFlowTarget::Resolved(t)) => {
                        edge_dst.push(
                            IndexEdge { address: t.area.start, other: None, guard: e.guard.duplicate() },
                        );
                    },
                    _ => {},
                }
            }
            k = k + 1;
        }
        assert(es.take(es.len() as int) == es);
        by_source.append(&mut edge_src);
        by_destination.append(&mut edge_dst);

        // every instruction under its start address
        let ControlFlowGraph { vertices, edges: _ } = g;
        let mut rest = vertices;
        let mut idx = AddressIndex { mnemonics: Vec::new(), by_source, by_destination };
        let ghost bs = idx.by_source@;
        let ghost bd = idx.by_destination@;
        let mut i: usize = 0;
        while rest.len() > 0
            invariant
                i <= vs.len(),
                vs.len() <= usize::MAX,
                rest@ == vs.skip(i as int),
                idx.wf(),
                idx.mnemonics@ == insert_all_by_start(Seq::empty(), block_mnemonics(vs.take(i as int))),
                idx.by_source@ == bs,
                idx.by_destination@ == bd,
            decreases rest@.len(),
        {
            let v = rest.remove(0);
            assert(v == vs[i as int]);
            assert(vs.take(i + 1).drop_last() == vs.take(i as int));
            let ghost before = block_mnemonics(vs.take(i as int));
            match v {
                ControlFlowTarget::Resolved(bb) => {
                    let mut ms = bb.mnemonics;
                    let ghost m0 = ms@;
                    assert(m0.len() == ms.len());
                    let mut j: usize = 0;
                    while ms.len() > 0
                        invariant
                            j <= m0.len(),
                            m0.len() <= usize::MAX,
                            ms@ == m0.skip(j as int),
                            idx.wf(),
                            idx.mnemonics@ == insert_all_by_start(
                                Seq::empty(),
                                before + m0.take(j as int),
                            ),
                            idx.by_source@ == bs,
                            idx.by_destination@ == bd,
                        decreases ms@.len(),
                    {
                        let m = ms.remove(0);
                        assert(m == m0[j as int]);
                        let ghost next = before + m0.take(j + 1);
                        assert(next.drop_last() == before + m0.take(j as int));
                        assert(next.last() == m);
                        idx.record_mnemonic(m);
                        j = j + 1;
                    }
                    assert(m0.take(j as int) == m0);
                    assert(block_mnemonics(vs.take(i + 1)) == before + m0);
                },
                ControlFlowTarget::Unresolved(_) => {
                    assert(block_mnemonics(vs.take(i + 1)) == before + Seq::<Mnemonic>::empty());
                    assert(before + Seq::<Mnemonic>::empty() == before);
                },
            }
            i = i + 1;
        }
        assert(vs.take(vs.len() as int) == vs);
        idx
    }

    /// Builds a graph from an address index: the instructions, in order, are
    /// cut into blocks before each one that must start a block (see
    /// `starts_block`; `start` always starts one), and each recorded transfer
    /// by source is wired between blocks or to a new unresolved vertex.
    /// Transfers that hit no block are added to `diags`.
    pub fn assemble_cflow_graph(idx: AddressIndex, start: u64, diags: &mut Vec<Diagnostic>) -> (r:
        ControlFlowGraph)
        ensures
            r.wf(),
            is_assembly(
                r.vertices@,
                r.edges@,
                idx.mnemonics@,
                idx.by_source@,
                idx.by_destination@,
                start,
            ),
            final(diags)@ == old(diags)@ + assembly_diagnostics(
                idx.mnemonics@,
                idx.by_source@,
                idx.by_destination@,
                start,
            ),
    {
        let AddressIndex { mnemonics, by_source, by_destination } = idx;
        let ghost ms = mnemonics@;
        let ghost bs = by_source@;
        let ghost bd = by_destination@;
        assert(ms.len() == mnemonics.len());
        let mut rest = mnemonics;
        let mut ret = ControlFlowGraph::new();
        let mut pending: Vec<Mnemonic> = Vec::new();

        // cut the ordered instructions into blocks
        let mut k: usize = 0;
        while rest.len() > 0
            invariant
                k <= ms.len(),
                ms.len() <= usize::MAX,
                rest@ == ms.skip(k as int),
                by_source@ == bs,
                by_destination@ == bd,
                ret.wf(),
                ret.edges@.len() == 0,
                k == 0 ==> pending@.len() == 0 && ret.vertices@.len() == 0,
                k > 0 ==> {
                    let segs = split_blocks(ms.take(k as int), bs, bd, start);
                    &&& ret.vertices@.len() + 1 == segs.len()
                    &&& pending@ == segs.last()
                    &&& holds_blocks(ret.vertices@, segs.drop_last())
                },
            decreases rest@.len(),
        {
            let cur = rest.remove(0);
            assert(cur == ms[k as int]);
            let ghost taken = ms.take(k + 1);
            assert(taken.drop_last() == ms.take(k as int));
            assert(taken.last() == cur);
            if k > 0 {
                proof {
                    lemma_split_blocks(ms.take(k as int), bs, bd, start);
                }
                let ghost segs = split_blocks(ms.take(k as int), bs, bd, start);
                assert(taken[k - 1] == ms.take(k as int).last());
                let prev_start = pending[pending.len() - 1].area.start;
                let prev_end = pending[pending.len() - 1].area.end;
                let cut = prev_end != cur.area.start || has_jump_elsewhere(
                    &by_source,
                    prev_start,
                    cur.area.start,
                ) || has_jump_elsewhere(&by_destination, cur.area.start, prev_start)
                    || cur.area.start == start;
                if cut {
                    let mut block: Vec<Mnemonic> = Vec::new();
                    std::mem::swap(&mut block, &mut pending);
                    ret.add_vertex(ControlFlowTarget::Resolved(BasicBlock::from_vec(block)));
                    pending.push(cur);
                    let ghost segs2 = split_blocks(taken, bs, bd, start);
                    assert(segs2 == segs.push(seq![cur]));
                    assert(segs2.drop_last() == segs);
                    assert(pending@ == seq![cur]);
                } else {
                    pending.push(cur);
                    let ghost segs2 = split_blocks(taken, bs, bd, start);
                    assert(segs2 == segs.update(segs.len() - 1, segs.last().push(cur)));
                    assert(segs2.drop_last() == segs.drop_last());
                }
            } else {
                pending.push(cur);
                assert(split_blocks(taken, bs, bd, start) == seq![seq![cur]]);
                assert(pending@ == seq![cur]);
            }
            k = k + 1;
        }
        assert(ms.take(ms.len() as int) == ms);
        let ghost blocks = split_blocks(ms, bs, bd, start);
        proof {
            if ms.len() > 0 {
                lemma_split_blocks(ms, bs, bd, start);
            }
        }
        if pending.len() > 0 {
            let ghost before = ret.vertices@;
            let ghost last = pending@;
            ret.add_vertex(ControlFlowTarget::Resolved(BasicBlock::from_vec(pending)));
            assert forall|i: int| 0 <= i < blocks.len() implies {
                &&& (#[trigger] ret.vertices@[i]) is Resolved
                &&& ret.vertices@[i]->Resolved_0.mnemonics@ == blocks[i]
                &&& ret.vertices@[i]->Resolved_0.area == span_of(blocks[i])
            } by {
                if i < blocks.len() - 1 {
                    assert(blocks.drop_last()[i] == blocks[i]);
                    assert(ret.vertices@[i] == before[i]);
                } else {
                    assert(last == blocks[i]);
                }
            }
        } else {
            assert(ms.len() == 0);
            assert(blocks.len() == 0);
        }
        assert(holds_blocks(ret.vertices@, blocks));

        // wire the transfers
        let nb = ret.vertices.len();
        let ghost d0 = diags@;
        let mut jumps = by_source;
        let mut j: usize = 0;
        assert(bs.len() == jumps.len());
        while jumps.len() > 0
            invariant
                j <= bs.len(),
                bs.len() <= usize::MAX,
                jumps@ == bs.skip(j as int),
                nb == blocks.len(),
                blocks == split_blocks(ms, bs, bd, start),
                forall|i: int| 0 <= i < blocks.len() ==> (#[trigger] blocks[i]).len() > 0,
                ret.wf(),
                holds_blocks(ret.vertices@, blocks),
                ({
                    let (xs, eds, dg) = wire(blocks, bs.take(j as int));
                    &&& ret.vertices@.len() == nb + xs.len()
                    &&& forall|i: int|
                        0 <= i < xs.len() ==> ret.vertices@[nb + i]
                            == ControlFlowTarget::Unresolved(Rvalue::Constant(#[trigger] xs[i]))
                    &&& ret.edges@ == eds
                    &&& diags@ == d0 + dg
                }),
            decreases jumps@.len(),
        {
            let e = jumps.remove(0);
            assert(e == bs[j as int]);
            let ghost taken = bs.take(j + 1);
            assert(taken.drop_last() == bs.take(j as int));
            assert(taken.last() == e);
            let IndexEdge { address, other, guard } = e;
            match other {
                None => {},
                Some(t) => {
                    let from = find_tail(&ret, nb, Ghost(blocks), address);
                    let to = find_head(&ret, nb, Ghost(blocks), t);
                    match (from, to) {
                        (Some(f), Some(h)) => {
                            ret.add_edge(guard, f, h);
                        },
                        (None, Some(h)) => {
                            let covers = match &ret.vertices[h] {
                                ControlFlowTarget::Resolved(bb) => bb.area.start <= address
                                    && address < bb.area.end,
                                ControlFlowTarget::Unresolved(_) => false,
                            };
                            if !covers {
                                let vx = ret.add_vertex(
                                    ControlFlowTarget::Unresolved(Rvalue::Constant(address)),
                                );
                                ret.add_edge(guard, vx, h);
                            }
                        },
                        (Some(f), None) => {
                            let covers = match &ret.vertices[f] {
                                ControlFlowTarget::Resolved(bb) => bb.area.start <= t && t
                                    < bb.area.end,
                                ControlFlowTarget::Unresolved(_) => false,
                            };
                            if !covers {
                                let vx = ret.add_vertex(
                                    ControlFlowTarget::Unresolved(Rvalue::Constant(t)),
                                );
                                ret.add_edge(guard, f, vx);
                            }
                        },
                        (None, None) => {
                            diags.push(Diagnostic::DanglingEdge { from: address, to: t });
                        },
                    }
                },
            }
            j = j + 1;
        }
        assert(bs.take(bs.len() as int) == bs);
        ret
    }

    /// Disassembles a function at `start`, extending `cont` where given.
    ///
    /// The index is seeded from `cont`'s graph (or empty), and the worklist
    /// runs (see `step`) until nothing is pending: addresses are taken
    /// smallest first from `start` on, an address where an instruction
    /// already starts is skipped, one inside an instruction is reported,
    /// elsewhere a decoding failure is reported or the match recorded and
    /// its constant targets queued; no address is taken twice. The index is
    /// then assembled with `start` starting a block, and the entry is the
    /// first block that starts at `resume_address(cont, start)`. Name and
    /// identifier come from `cont`; a fresh function is named after `start`
    /// and gets a random identifier.
    pub fn disassemble<D: Decoder>(
        cont: Option<Function>,
        dec: &D,
        start: u64,
        diags: &mut Vec<Diagnostic>,
    ) -> (r: Function)
        ensures
            r.cflow_graph.wf(),
            disassembled(
                *dec,
                cont,
                start,
                r.cflow_graph.vertices@,
                r.cflow_graph.edges@,
                old(diags)@,
                final(diags)@,
            ),
            cont matches Some(f) ==> r.name == f.name && r.uuid == f.uuid,
            cont is None ==> r.name@ == default_name(start),
            r.entry_point matches Some(v) ==> block_starts_at(
                r.cflow_graph.vertices@,
                v as int,
                resume_address(cont, start),
            ) && forall|u: int|
                0 <= u < v ==> !block_starts_at(
                    r.cflow_graph.vertices@,
                    u,
                    resume_address(cont, start),
                ),
            r.entry_point is None ==> forall|u: int|
                !block_starts_at(r.cflow_graph.vertices@, u, resume_address(cont, start)),
            cont is None && dec.decodes(start) is None ==> r.cflow_graph.vertices@.len() == 0
                && r.entry_point is None && final(diags)@ == old(diags)@.push(
                Diagnostic::DecodeFailure(start),
            ),
            cont is None && dec.decodes(start) is Some ==> dec.decodes(
                start,
            )->Some_0.mnemonics@.to_multiset().subset_of(
                block_mnemonics(r.cflow_graph.vertices@).to_multiset(),
            ),
            cont is Some ==> block_mnemonics(
                cont->Some_0.cflow_graph.vertices@,
            ).to_multiset().subset_of(block_mnemonics(r.cflow_graph.vertices@).to_multiset()),
            cont is Some && starts_at(index_mnemonics(cont->Some_0.cflow_graph), start)
                ==> is_assembly(
                r.cflow_graph.vertices@,
                r.cflow_graph.edges@,
                index_mnemonics(cont->Some_0.cflow_graph),
                index_sources(cont->Some_0.cflow_graph),
                index_destinations(cont->Some_0.cflow_graph),
                start,
            ) && final(diags)@ == old(diags)@ + assembly_diagnostics(
                index_mnemonics(cont->Some_0.cflow_graph),
                index_sources(cont->Some_0.cflow_graph),
                index_destinations(cont->Some_0.cflow_graph),
                start,
            ),
            cont is Some && !starts_at(index_mnemonics(cont->Some_0.cflow_graph), start)
                && straddles(index_mnemonics(cont->Some_0.cflow_graph), start) ==> is_assembly(
                r.cflow_graph.vertices@,
                r.cflow_graph.edges@,
                index_mnemonics(cont->Some_0.cflow_graph),
                index_sources(cont->Some_0.cflow_graph),
                index_destinations(cont->Some_0.cflow_graph),
                start,
            ) && final(diags)@ == old(diags)@.push(Diagnostic::JumpIntoInstruction(start))
                + assembly_diagnostics(
                index_mnemonics(cont->Some_0.cflow_graph),
                index_sources(cont->Some_0.cflow_graph),
                index_destinations(cont->Some_0.cflow_graph),
                start,
            ),
    {
        let ghost init = initial_worklist(cont, start);
        let resume: u64 = match &cont {
            Some(f) => match f.entry_point {
                Some(v) => if v < f.cflow_graph.vertices.len() {
                    match &f.cflow_graph.vertices[v] {
                        ControlFlowTarget::Resolved(bb) => bb.area.start,
                        ControlFlowTarget::Unresolved(_) => start,
                    }
                } else {
                    start
                },
                None => start,
            },
            None => start,
        };
        assert(resume == resume_address(cont, start));
        let (name, uuid, mut idx) = match cont {
            Some(f) => {
                let Function { uuid, name, cflow_graph, entry_point: _ } = f;
                (name, uuid, Self::index_cflow_graph(cflow_graph))
            },
            None => (function_name(start), Uuid::new_v4(), AddressIndex::new()),
        };
        let ghost earlier = diags@;
        let mut pending: Vec<u64> = Vec::new();
        pending.push(start);
        let mut visited: Vec<u64> = Vec::new();
        let ghost mut n: nat = 0;
        assert(idx.mnemonics@ =~= init.mnemonics);
        assert(idx.by_source@ =~= init.by_source);
        assert(idx.by_destination@ =~= init.by_destination);
        assert(pending@ =~= init.pending);
        assert(visited@ =~= init.visited);
        assert(diags@ =~= earlier + init.diags);
        while pending.len() > 0
            invariant
                idx.wf(),
                strictly_increasing(pending@),
                run(*dec, init, n) == (Worklist {
                    mnemonics: idx.mnemonics@,
                    by_source: idx.by_source@,
                    by_destination: idx.by_destination@,
                    pending: pending@,
                    visited: visited@,
                    diags: run(*dec, init, n).diags,
                }),
                diags@ == earlier + run(*dec, init, n).diags,
            decreases usize::MAX - visited@.len(),
        {
            let ghost w = run(*dec, init, n);
            let addr = pending.remove(0);
            assert(pending@ =~= w.pending.drop_first());
            visited.push(addr);
            assert(visited@.len() == visited.len());
            if idx.decoded_at(addr) {
                // decoded before
            } else if idx.inside_instruction(addr) {
                diags.push(Diagnostic::JumpIntoInstruction(addr));
                assert(diags@ =~= earlier + w.diags.push(Diagnostic::JumpIntoInstruction(addr)));
            } else {
                let found = dec.next_match(addr);
                match found {
                    None => {
                        diags.push(Diagnostic::DecodeFailure(addr));
                        assert(diags@ =~= earlier + w.diags.push(Diagnostic::DecodeFailure(addr)));
                    },
                    Some(m) => {
                        let ghost p1 = pending@;
                        let targets = idx.record_match(m);
                        let mut t: usize = 0;
                        while t < targets.len()
                            invariant
                                idx.wf(),
                                t <= targets@.len(),
                                strictly_increasing(pending@),
                                pending@ == queue_all(p1, visited@, targets@.take(t as int)),
                            decreases targets@.len() - t,
                        {
                            let c = targets[t];
                            assert(targets@.take(t + 1).drop_last() == targets@.take(t as int));
                            if !holds_address(&visited, c) {
                                insert_pending(&mut pending, c);
                            }
                            t = t + 1;
                        }
                        assert(targets@.take(targets@.len() as int) == targets@);
                    },
                }
            }
            proof {
                n = n + 1;
            }
        }
        let ghost w = run(*dec, init, n);
        let cfg = Self::assemble_cflow_graph(idx, start, diags);
        assert(diags@ =~= earlier + w.diags + assembly_diagnostics(
            w.mnemonics,
            w.by_source,
            w.by_destination,
            start,
        ));
        assert(disassembled(*dec, cont, start, cfg.vertices@, cfg.edges@, earlier, diags@));
        proof {
            lemma_disassembly_facts(*dec, cont, start, n, cfg.vertices@, cfg.edges@, earlier, diags@);
        }
        let entry_point = find_block_starting_at(&cfg, resume);
        Function { uuid, name, cflow_graph: cfg, entry_point }
    }

    /// The constant call targets of the statements of the resolved blocks,
    /// vertex after vertex.
    pub fn collect_calls(&self) -> (r: Vec<u64>)
        ensures
            r@ == graph_calls(self.cflow_graph.vertices@),
    {
        let ghost vs = self.cflow_graph.vertices@;
        let mut ret: Vec<u64> = Vec::new();
        let mut i: usize = 0;
        while i < self.cflow_graph.vertices.len()
            invariant
                i <= vs.len(),
                vs == self.cflow_graph.vertices@,
                ret@ == graph_calls(vs.take(i as int)),
            decreases vs.len() - i,
        {
            assert(vs.take(i + 1).drop_last() == vs.take(i as int));
            match &self.cflow_graph.vertices[i] {
                ControlFlowTarget::Resolved(bb) => {
                    let ghost before = ret@;
                    let found = bb.execute(|s: &Instr| -> (o: Option<u64>)
                        ensures
                            o == call_target(*s),
                        { s.constant_call() });
                    let ghost is = statements_of(bb.mnemonics@);
                    assert(found@.len() == is.len());
                    let mut k: usize = 0;
                    while k < found.len()
                        invariant
                            k <= found@.len(),
                            found@.len() == is.len(),
                            forall|q: int| 0 <= q < found@.len() ==> found@[q] == call_target(is[q]),
                            ret@ == before + calls_in(is.take(k as int)),
                        decreases found@.len() - k,
                    {
                        assert(is.take(k + 1).drop_last() == is.take(k as int));
                        match found[k] {
                            Some(c) => {
                                ret.push(c);
                            },
                            None => {},
                        }
                        k = k + 1;
                    }
                    assert(is.take(is.len() as int) == is);
                },
                ControlFlowTarget::Unresolved(_) => {
                    assert(ret@ == ret@ + Seq::<u64>::empty());
                },
            }
            i = i + 1;
        }
        assert(vs.take(vs.len() as int) == vs);
        ret
    }

    /// The first block whose interval holds `a`.
    pub fn find_basic_block_at_address(&self, a: u64) -> (r: Option<ControlFlowRef>)
        ensures
            r matches Some(v) ==> block_covers(self.cflow_graph.vertices@, v as int, a)
                && forall|u: int| 0 <= u < v ==> !block_covers(self.cflow_graph.vertices@, u, a),
            r is None ==> forall|u: int| !block_covers(self.cflow_graph.vertices@, u, a),
    {
        let mut i: usize = 0;
        while i < self.cflow_graph.vertices.len()
            invariant
                i <= self.cflow_graph.vertices@.len(),
                forall|u: int| 0 <= u < i ==> !block_covers(self.cflow_graph.vertices@, u, a),
            decreases self.cflow_graph.vertices@.len() - i,
        {
            match &self.cflow_graph.vertices[i] {
                ControlFlowTarget::Resolved(bb) => {
                    if bb.area.start <= a && a < bb.area.end {
                        return Some(i);
                    }
                },
                ControlFlowTarget::Unresolved(_) => {},
            }
            i = i + 1;
        }
        None
    }
}

} // verus!
