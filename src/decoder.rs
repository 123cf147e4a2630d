//! The decoder interface and how its findings are folded into an index.
use vstd::prelude::*;
use crate::guard::Guard;
use crate::index::{insert_all_by_start, starts_at, straddles, AddressIndex, Diagnostic, IndexEdge};
use crate::mnemonic::Mnemonic;
use crate::value::Rvalue;

verus! {

/// What a decoder found at an address: the instructions decoded there, in
/// order, and the control transfers of the last one, each with its target
/// and guard.
#[derive(Debug)]
pub struct Match {
    pub mnemonics: Vec<Mnemonic>,
    pub jumps: Vec<(Rvalue, Guard)>,
}

/// An instruction decoder for one architecture, over its own bytes and
/// configuration.
pub trait Decoder {
    /// What decoding at `address` gives.
    spec fn decodes(&self, address: u64) -> Option<Match>;

    /// Decodes at `address`; `None` where nothing matches.
    fn next_match(&self, address: u64) -> (r: Option<Match>)
        ensures
            r == self.decodes(address),
    ;
}

/// The address that the transfers of a match leave from: the start of its
/// last instruction, or zero where it has none.
pub open spec fn match_source(ms: Seq<Mnemonic>) -> u64 {
    if ms.len() > 0 {
        ms.last().area.start
    } else {
        0
    }
}

/// The transfers `js` from `src`, by source; a target that is no constant
/// has no fixed address.
pub open spec fn jump_sources(src: u64, js: Seq<(Rvalue, Guard)>) -> Seq<IndexEdge>
    decreases js.len(),
{
    if js.len() == 0 {
        Seq::empty()
    } else {
        let (t, g) = js.last();
        jump_sources(src, js.drop_last()).push(
            IndexEdge {
                address: src,
                other: match t {
                    Rvalue::Constant(c) => Some(c),
                    _ => None,
                },
                guard: g,
            },
        )
    }
}

/// The transfers `js` from `src` to constant targets, by destination.
pub open spec fn jump_destinations(src: u64, js: Seq<(Rvalue, Guard)>) -> Seq<IndexEdge>
    decreases js.len(),
{
    if js.len() == 0 {
        Seq::empty()
    } else {
        let (t, g) = js.last();
        let rest = jump_destinations(src, js.drop_last());
        match t {
            Rvalue::Constant(c) => rest.push(IndexEdge { address: c, other: Some(src), guard: g }),
            _ => rest,
        }
    }
}

/// The constant targets of `js`, in order.
pub open spec fn jump_targets(js: Seq<(Rvalue, Guard)>) -> Seq<u64>
    decreases js.len(),
{
    if js.len() == 0 {
        Seq::empty()
    } else {
        let rest = jump_targets(js.drop_last());
        match js.last().0 {
            Rvalue::Constant(c) => rest.push(c),
            _ => rest,
        }
    }
}

/// Addresses are strictly increasing along `p`.
pub open spec fn strictly_increasing(p: Seq<u64>) -> bool {
    forall|i: int, j: int| 0 <= i < j < p.len() ==> p[i] < p[j]
}

/// The number of leading addresses of an increasing `p` below `c`: where
/// `c` goes.
pub open spec fn place_of(p: Seq<u64>, c: u64) -> int
    decreases p.len(),
{
    if p.len() == 0 {
        0
    } else if p.last() < c {
        p.len() as int
    } else {
        place_of(p.drop_last(), c)
    }
}

/// The pending addresses `p` with `c` added in its place, unless already there.
pub open spec fn queue(p: Seq<u64>, c: u64) -> Seq<u64> {
    if p.contains(c) {
        p
    } else {
        p.insert(place_of(p, c), c)
    }
}

/// The pending addresses `p` with the targets `ts` added in turn, leaving
/// out those already visited.
pub open spec fn queue_all(p: Seq<u64>, visited: Seq<u64>, ts: Seq<u64>) -> Seq<u64>
    decreases ts.len(),
{
    if ts.len() == 0 {
        p
    } else {
        let q = queue_all(p, visited, ts.drop_last());
        if visited.contains(ts.last()) {
            q
        } else {
            queue(q, ts.last())
        }
    }
}

pub proof fn lemma_place_of(p: Seq<u64>, c: u64)
    requires
        strictly_increasing(p),
    ensures
        0 <= place_of(p, c) <= p.len(),
        forall|j: int| 0 <= j < place_of(p, c) ==> p[j] < c,
        forall|j: int| place_of(p, c) <= j < p.len() ==> p[j] >= c,
    decreases p.len(),
{
    if p.len() > 0 {
        let t = p.drop_last();
        assert(strictly_increasing(t));
        lemma_place_of(t, c);
        if p.last() >= c {
            assert forall|j: int| 0 <= j < place_of(p, c) implies p[j] < c by {
                assert(p[j] == t[j]);
            }
            assert forall|j: int| place_of(p, c) <= j < p.len() implies p[j] >= c by {
                if j < p.len() - 1 {
                    assert(p[j] == t[j]);
                }
            }
        } else {
            assert forall|j: int| 0 <= j < p.len() implies p[j] < c by {
                if j < p.len() - 1 {
                    assert(p[j] < p[p.len() - 1]);
                }
            }
        }
    }
}

/// The state of disassembly: the index, the addresses still to decode
/// (smallest first), those already taken, and what was reported.
pub struct Worklist {
    pub mnemonics: Seq<Mnemonic>,
    pub by_source: Seq<IndexEdge>,
    pub by_destination: Seq<IndexEdge>,
    pub pending: Seq<u64>,
    pub visited: Seq<u64>,
    pub diags: Seq<Diagnostic>,
}

/// One step of disassembly: the smallest pending address is taken; where an
/// instruction starts there it is skipped, inside an instruction it is
/// reported; elsewhere the decoder's failure is reported, or its match
/// recorded and its constant targets not yet taken queued.
pub open spec fn step<D: Decoder>(dec: D, s: Worklist) -> Worklist {
    if s.pending.len() == 0 {
        s
    } else {
        let addr = s.pending[0];
        let pending = s.pending.drop_first();
        let visited = s.visited.push(addr);
        if starts_at(s.mnemonics, addr) {
            Worklist { pending, visited, ..s }
        } else if straddles(s.mnemonics, addr) {
            Worklist {
                pending,
                visited,
                diags: s.diags.push(Diagnostic::JumpIntoInstruction(addr)),
                ..s
            }
        } else {
            match dec.decodes(addr) {
                None => Worklist {
                    pending,
                    visited,
                    diags: s.diags.push(Diagnostic::DecodeFailure(addr)),
                    ..s
                },
                Some(m) => {
                    let src = match_source(m.mnemonics@);
                    Worklist {
                        mnemonics: insert_all_by_start(s.mnemonics, m.mnemonics@),
                        by_source: s.by_source + jump_sources(src, m.jumps@),
                        by_destination: s.by_destination + jump_destinations(src, m.jumps@),
                        pending: queue_all(pending, visited, jump_targets(m.jumps@)),
                        visited,
                        diags: s.diags,
                    }
                },
            }
        }
    }
}

/// The state after `n` steps from `s`.
pub open spec fn run<D: Decoder>(dec: D, s: Worklist, n: nat) -> Worklist
    decreases n,
{
    if n == 0 {
        s
    } else {
        step(dec, run(dec, s, (n - 1) as nat))
    }
}

/// Running from `s` for `n + 1` steps is running from `step(s)` for `n`.
pub proof fn lemma_run_shift<D: Decoder>(dec: D, s: Worklist, n: nat)
    ensures
        run(dec, s, n + 1) == run(dec, step(dec, s), n),
    decreases n,
{
    if n > 0 {
        lemma_run_shift(dec, s, (n - 1) as nat);
        assert(run(dec, s, n + 1) == step(dec, run(dec, s, n)));
        assert(run(dec, step(dec, s), n) == step(dec, run(dec, step(dec, s), (n - 1) as nat)));
    } else {
        assert(run(dec, s, 1) == step(dec, run(dec, s, 0)));
    }
}

/// Once nothing is pending, further steps change nothing: a finished run
/// has one outcome.
pub proof fn lemma_run_settles<D: Decoder>(dec: D, s: Worklist, n: nat, m: nat)
    requires
        run(dec, s, n).pending.len() == 0,
        n <= m,
    ensures
        run(dec, s, m) == run(dec, s, n),
    decreases m - n,
{
    if m > n {
        lemma_run_settles(dec, s, n, (m - 1) as nat);
    }
}

impl AddressIndex {
    /// Records a match: each instruction under its start address, and each
    /// transfer from the start of the last instruction. Returns the constant
    /// targets, which are the addresses to decode next.
    pub fn record_match(&mut self, m: Match) -> (r: Vec<u64>)
        requires
            old(self).wf(),
        ensures
            final(self).wf(),
            final(self).mnemonics@ == insert_all_by_start(old(self).mnemonics@, m.mnemonics@),
            final(self).by_source@ == old(self).by_source@ + jump_sources(
                match_source(m.mnemonics@),
                m.jumps@,
            ),
            final(self).by_destination@ == old(self).by_destination@ + jump_destinations(
                match_source(m.mnemonics@),
                m.jumps@,
            ),
            r@ == jump_targets(m.jumps@),
    {
        let Match { mnemonics, jumps } = m;
        let ghost m0 = mnemonics@;
        let ghost j0 = jumps@;
        let ghost base = self.mnemonics@;
        let ghost bs = self.by_source@;
        let ghost bd = self.by_destination@;
        let mut src: u64 = 0;
        if mnemonics.len() > 0 {
            src = mnemonics[mnemonics.len() - 1].area.start;
        }
        assert(src == match_source(m0));
        assert(m0.len() == mnemonics.len());
        let mut ms = mnemonics;
        let mut i: usize = 0;
        while ms.len() > 0
            invariant
                i <= m0.len(),
                m0.len() <= usize::MAX,
                ms@ == m0.skip(i as int),
                self.wf(),
                self.mnemonics@ == insert_all_by_start(base, m0.take(i as int)),
                self.by_source@ == bs,
                self.by_destination@ == bd,
            decreases ms@.len(),
        {
            let x = ms.remove(0);
            assert(x == m0[i as int]);
            assert(m0.take(i + 1).drop_last() == m0.take(i as int));
            self.record_mnemonic(x);
            i = i + 1;
        }
        assert(m0.take(m0.len() as int) == m0);

        let mut targets: Vec<u64> = Vec::new();
        let mut js = jumps;
        let mut k: usize = 0;
        assert(j0.len() == js.len());
        while js.len() > 0
            invariant
                k <= j0.len(),
                j0.len() <= usize::MAX,
                js@ == j0.skip(k as int),
                self.wf(),
                self.mnemonics@ == insert_all_by_start(base, m0),
                self.by_source@ == bs + jump_sources(src, j0.take(k as int)),
                self.by_destination@ == bd + jump_destinations(src, j0.take(k as int)),
                targets@ == jump_targets(j0.take(k as int)),
            decreases js@.len(),
        {
            let (t, g) = js.remove(0);
            assert((t, g) == j0[k as int]);
            assert(j0.take(k + 1).drop_last() == j0.take(k as int));
            match t {
                Rvalue::Constant(c) => {
                    self.by_source.push(IndexEdge { address: src, other: Some(c), guard: g.duplicate() });
                    self.by_destination.push(IndexEdge { address: c, other: Some(src), guard: g });
                    targets.push(c);
                },
                _ => {
                    self.by_source.push(IndexEdge { address: src, other: None, guard: g });
                },
            }
            k = k + 1;
        }
        assert(j0.take(j0.len() as int) == j0);
        targets
    }
}

} // verus!
