//! Basic blocks: runs of decoded instructions over one address interval.
use vstd::prelude::*;
use crate::mnemonic::{Bound, Instr, Mnemonic};

verus! {

/// The smallest interval that covers every instruction of `ms`; the empty
/// interval at address zero when there is none.
pub open spec fn span_of(ms: Seq<Mnemonic>) -> Bound
    decreases ms.len(),
{
    if ms.len() == 0 {
        Bound { start: 0, end: 0 }
    } else if ms.len() == 1 {
        ms[0].area
    } else {
        let b = span_of(ms.drop_last());
        let a = ms.last().area;
        Bound {
            start: if a.start < b.start { a.start } else { b.start },
            end: if a.end > b.end { a.end } else { b.end },
        }
    }
}

/// The IR statements of `ms`, instruction after instruction.
pub open spec fn statements_of(ms: Seq<Mnemonic>) -> Seq<Instr>
    decreases ms.len(),
{
    if ms.len() == 0 {
        Seq::empty()
    } else {
        statements_of(ms.drop_last()) + ms.last().instructions@
    }
}

/// An ordered sequence of decoded instructions and the interval they span.
#[derive(Debug, PartialEq, Eq)]
pub struct BasicBlock {
    pub area: Bound,
    pub mnemonics: Vec<Mnemonic>,
}

impl BasicBlock {
    /// The interval is the one the instructions span.
    pub open spec fn wf(&self) -> bool {
        self.area == span_of(self.mnemonics@)
    }

    /// An empty block over the empty interval at address zero.
    pub fn new() -> (r: BasicBlock)
        ensures
            r.area == (Bound { start: 0, end: 0 }),
            r.mnemonics@.len() == 0,
            r.wf(),
    {
        BasicBlock { area: Bound { start: 0, end: 0 }, mnemonics: Vec::new() }
    }

    /// A block holding `ms` in the given order, over the interval they span.
    pub fn from_iter(ms: Vec<Mnemonic>) -> (r: BasicBlock)
        ensures
            r.mnemonics@ == ms@,
            r.area == span_of(ms@),
            r.wf(),
    {
        let mut area = Bound { start: 0, end: 0 };
        let mut i: usize = 0;
        while i < ms.len()
            invariant
                i <= ms@.len(),
                area == span_of(ms@.take(i as int)),
            decreases ms@.len() - i,
        {
            let a = ms[i].area;
            if i == 0 {
                area = a;
            } else {
                area = Bound {
                    start: if a.start < area.start { a.start } else { area.start },
                    end: if a.end > area.end { a.end } else { area.end },
                };
            }
            assert(ms@.take(i + 1).drop_last() == ms@.take(i as int));
            i = i + 1;
        }
        assert(ms@.take(ms@.len() as int) == ms@);
        BasicBlock { area, mnemonics: ms }
    }

    /// Same as `from_iter`.
    pub fn from_vec(ms: Vec<Mnemonic>) -> (r: BasicBlock)
        ensures
            r.mnemonics@ == ms@,
            r.area == span_of(ms@),
            r.wf(),
    {
        BasicBlock::from_iter(ms)
    }

    /// Applies `f` to every IR statement of the block, in order, and returns
    /// what it gave for each.
    pub fn execute<T, F: Fn(&Instr) -> T>(&self, f: F) -> (r: Vec<T>)
        requires
            forall|k: int|
                0 <= k < statements_of(self.mnemonics@).len() ==> f.requires(
                    (&statements_of(self.mnemonics@)[k],),
                ),
        ensures
            r@.len() == statements_of(self.mnemonics@).len(),
            forall|k: int|
                0 <= k < r@.len() ==> f.ensures((&statements_of(self.mnemonics@)[k],), #[trigger] r@[k]),
    {
        let ghost all = statements_of(self.mnemonics@);
        let mut r: Vec<T> = Vec::new();
        let mut i: usize = 0;
        while i < self.mnemonics.len()
            invariant
                i <= self.mnemonics@.len(),
                all == statements_of(self.mnemonics@),
                r@.len() == statements_of(self.mnemonics@.take(i as int)).len(),
                forall|k: int| 0 <= k < r@.len() ==> f.ensures((&all[k],), #[trigger] r@[k]),
                forall|k: int| 0 <= k < all.len() ==> f.requires((&all[k],)),
                statements_of(self.mnemonics@.take(i as int)).len() <= all.len(),
                forall|k: int|
                    0 <= k < statements_of(self.mnemonics@.take(i as int)).len() ==> all[k]
                        == statements_of(self.mnemonics@.take(i as int))[k],
            decreases self.mnemonics@.len() - i,
        {
            let ghost before = statements_of(self.mnemonics@.take(i as int));
            assert(self.mnemonics@.take(i + 1).drop_last() == self.mnemonics@.take(i as int));
            let ghost after = statements_of(self.mnemonics@.take(i + 1));
            assert(after == before + self.mnemonics@[i as int].instructions@);
            proof {
                lemma_statements_prefix(self.mnemonics@, i + 1);
            }
            let is = &self.mnemonics[i].instructions;
            let mut j: usize = 0;
            while j < is.len()
                invariant
                    j <= is@.len(),
                    is@ == self.mnemonics@[i as int].instructions@,
                    after == before + is@,
                    after.len() <= all.len(),
                    forall|k: int| 0 <= k < after.len() ==> all[k] == after[k],
                    r@.len() == before.len() + j,
                    forall|k: int| 0 <= k < r@.len() ==> f.ensures((&all[k],), #[trigger] r@[k]),
                    forall|k: int| 0 <= k < all.len() ==> f.requires((&all[k],)),
                decreases is@.len() - j,
            {
                assert(all[before.len() + j] == is@[j as int]);
                let x = f(&is[j]);
                r.push(x);
                j = j + 1;
            }
            i = i + 1;
        }
        assert(self.mnemonics@.take(self.mnemonics@.len() as int) == self.mnemonics@);
        r
    }

    /// Replaces every IR statement `s` of the block by `f(s)`, keeping the
    /// instructions, their intervals and the block's interval.
    pub fn rewrite<F: Fn(&Instr) -> Instr>(&mut self, f: F)
        requires
            forall|k: int, j: int|
                0 <= k < old(self).mnemonics@.len() && 0 <= j
                    < old(self).mnemonics@[k].instructions@.len() ==> f.requires(
                    (&old(self).mnemonics@[k].instructions@[j],),
                ),
        ensures
            final(self).area == old(self).area,
            final(self).mnemonics@.len() == old(self).mnemonics@.len(),
            forall|k: int|
                #![trigger final(self).mnemonics@[k]]
                0 <= k < final(self).mnemonics@.len() ==> {
                    let m = final(self).mnemonics@[k];
                    let o = old(self).mnemonics@[k];
                    &&& m.area == o.area
                    &&& m.opcode == o.opcode
                    &&& m.format == o.format
                    &&& m.operands == o.operands
                    &&& m.instructions@.len() == o.instructions@.len()
                    &&& forall|j: int|
                        0 <= j < m.instructions@.len() ==> f.ensures(
                            (&o.instructions@[j],),
                            #[trigger] m.instructions@[j],
                        )
                },
    {
        let ghost orig = self.mnemonics@;
        assert(orig.len() == self.mnemonics.len());
        let mut rest: Vec<Mnemonic> = Vec::new();
        std::mem::swap(&mut rest, &mut self.mnemonics);
        let mut done: Vec<Mnemonic> = Vec::new();
        let mut i: usize = 0;
        while rest.len() > 0
            invariant
                rest@ == orig.skip(i as int),
                i <= orig.len(),
                orig.len() <= usize::MAX,
                done@.len() == i,
                forall|k: int, j: int|
                    0 <= k < orig.len() && 0 <= j < orig[k].instructions@.len() ==> f.requires(
                        (&orig[k].instructions@[j],),
                    ),
                forall|k: int|
                    #![trigger done@[k]]
                    0 <= k < i ==> {
                        let m = done@[k];
                        let o = orig[k];
                        &&& m.area == o.area
                        &&& m.opcode == o.opcode
                        &&& m.format == o.format
                        &&& m.operands == o.operands
                        &&& m.instructions@.len() == o.instructions@.len()
                        &&& forall|j: int|
                            0 <= j < m.instructions@.len() ==> f.ensures(
                                (&o.instructions@[j],),
                                #[trigger] m.instructions@[j],
                            )
                    },
            decreases rest@.len(),
        {
            let m = rest.remove(0);
            assert(m == orig[i as int]);
            let mut is: Vec<Instr> = Vec::new();
            let mut j: usize = 0;
            while j < m.instructions.len()
                invariant
                    m == orig[i as int],
                    i < orig.len(),
                    j <= m.instructions@.len(),
                    is@.len() == j,
                    forall|k: int, j: int|
                        0 <= k < orig.len() && 0 <= j < orig[k].instructions@.len() ==> f.requires(
                            (&orig[k].instructions@[j],),
                        ),
                    forall|q: int|
                        0 <= q < j ==> f.ensures((&m.instructions@[q],), #[trigger] is@[q]),
                decreases m.instructions@.len() - j,
            {
                let x = f(&m.instructions[j]);
                is.push(x);
                j = j + 1;
            }
            let Mnemonic { area, opcode, format, operands, instructions: _ } = m;
            done.push(Mnemonic { area, opcode, format, operands, instructions: is });
            i = i + 1;
        }
        self.mnemonics = done;
    }
}

/// The statements of a prefix of `ms` are a prefix of the statements of `ms`.
proof fn lemma_statements_prefix(ms: Seq<Mnemonic>, n: int)
    requires
        0 <= n <= ms.len(),
    ensures
        statements_of(ms.take(n)).len() <= statements_of(ms).len(),
        forall|k: int|
            0 <= k < statements_of(ms.take(n)).len() ==> statements_of(ms)[k]
                == statements_of(ms.take(n))[k],
    decreases ms.len() - n,
{
    if n < ms.len() {
        lemma_statements_prefix(ms, n + 1);
        assert(ms.take(n + 1).drop_last() == ms.take(n));
    } else {
        assert(ms.take(n) == ms);
    }
}

} // verus!
