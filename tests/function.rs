use cflow::basic_block::BasicBlock;
use cflow::decoder::{Decoder, Match};
use cflow::function::Function;
use cflow::graph::{ControlFlowGraph, ControlFlowRef, ControlFlowTarget};
use cflow::guard::Guard;
use cflow::index::Diagnostic;
use cflow::mnemonic::{Bound, Instr, Mnemonic, Operation};
use cflow::value::{Lvalue, Rvalue};

/// A decoding rule: a token, the instruction length in bytes, its opcode
/// and its jump targets, each relative to the instruction's address or absolute.
struct Rule {
    token: u64,
    len: u64,
    opcode: &'static str,
    jumps: Vec<Target>,
}

enum Target {
    Rel(u64),
    Abs(u64),
}

/// Decodes little-endian tokens of `width` bytes by a table of rules.
struct TableDecoder {
    data: Vec<u8>,
    width: usize,
    rules: Vec<Rule>,
}

impl Decoder for TableDecoder {
    fn decodes(&self, address: u64) -> Option<Match> {
        self.decode(address)
    }

    fn next_match(&self, address: u64) -> Option<Match> {
        self.decode(address)
    }
}

impl TableDecoder {
    fn decode(&self, address: u64) -> Option<Match> {
        let a = address as usize;
        if a + self.width > self.data.len() {
            return None;
        }
        let mut token: u64 = 0;
        for k in 0..self.width {
            token |= (self.data[a + k] as u64) << (8 * k);
        }
        let rule = self.rules.iter().find(|r| r.token == token)?;
        let mne = Mnemonic::new(
            Bound::new(address, address + rule.len),
            rule.opcode.to_string(),
            String::new(),
            vec![],
            vec![],
        );
        let jumps = rule
            .jumps
            .iter()
            .map(|t| {
                let c = match t {
                    Target::Rel(d) => address + d,
                    Target::Abs(x) => *x,
                };
                (Rvalue::Constant(c), Guard::always())
            })
            .collect();
        Some(Match { mnemonics: vec![mne], jumps })
    }
}

fn rule(token: u64, len: u64, opcode: &'static str, jumps: Vec<Target>) -> Rule {
    Rule { token, len, opcode, jumps }
}

fn short(data: Vec<u8>, rules: Vec<Rule>) -> TableDecoder {
    TableDecoder { data, width: 1, rules }
}

/// The loop 0 -> 1 -> 2 -> 0 of one-byte instructions.
fn looping() -> Vec<Rule> {
    vec![
        rule(0, 1, "test0", vec![Target::Abs(1)]),
        rule(1, 1, "test1", vec![Target::Abs(2)]),
        rule(2, 1, "test2", vec![Target::Abs(0)]),
    ]
}

fn block(g: &ControlFlowGraph, v: ControlFlowRef) -> Option<&BasicBlock> {
    match g.vertex_label(v) {
        Some(ControlFlowTarget::Resolved(bb)) => Some(bb),
        _ => None,
    }
}

fn block_at(g: &ControlFlowGraph, start: u64) -> Option<ControlFlowRef> {
    (0..g.num_vertices()).find(|&v| block(g, v).map_or(false, |bb| bb.area.start == start))
}

fn constant_at(g: &ControlFlowGraph, c: u64) -> Option<ControlFlowRef> {
    (0..g.num_vertices()).find(|&v| match g.vertex_label(v) {
        Some(ControlFlowTarget::Unresolved(Rvalue::Constant(x))) => *x == c,
        _ => false,
    })
}

#[test]
fn new() {
    let f = Function::new("test".to_string());

    assert_eq!(f.name, "test".to_string());
    assert_eq!(f.cflow_graph.num_vertices(), 0);
    assert_eq!(f.cflow_graph.num_edges(), 0);
    assert_eq!(f.entry_point, None);
}

#[test]
fn index_resolved() {
    let mut cfg = ControlFlowGraph::new();

    let bb0 = BasicBlock::from_vec(vec![
        Mnemonic::dummy(Bound::new(0, 1)),
        Mnemonic::dummy(Bound::new(1, 2)),
        Mnemonic::dummy(Bound::new(2, 5)),
        Mnemonic::dummy(Bound::new(5, 6)),
    ]);
    let bb1 = BasicBlock::from_vec(vec![
        Mnemonic::dummy(Bound::new(10, 11)),
        Mnemonic::dummy(Bound::new(11, 12)),
        Mnemonic::dummy(Bound::new(12, 15)),
        Mnemonic::dummy(Bound::new(15, 16)),
    ]);
    let bb2 = BasicBlock::from_vec(vec![Mnemonic::dummy(Bound::new(6, 10))]);

    let vx0 = cfg.add_vertex(ControlFlowTarget::Resolved(bb0));
    let vx1 = cfg.add_vertex(ControlFlowTarget::Resolved(bb1));
    let vx2 = cfg.add_vertex(ControlFlowTarget::Resolved(bb2));

    cfg.add_edge(Guard::always(), vx0, vx1);
    cfg.add_edge(Guard::always(), vx1, vx1);
    cfg.add_edge(Guard::always(), vx1, vx2);
    cfg.add_edge(Guard::always(), vx2, vx0);

    let idx = Function::index_cflow_graph(cfg);

    assert_eq!(idx.mnemonics.len(), 9);
    assert_eq!(idx.by_source.len(), 10);
    assert_eq!(idx.by_destination.len(), 10);

    let mut diags = Vec::new();
    let cfg_re = Function::assemble_cflow_graph(idx, 0, &mut diags);

    assert_eq!(cfg_re.num_vertices(), 3);
    assert_eq!(cfg_re.num_edges(), 4);

    for vx in 0..cfg_re.num_vertices() {
        if let Some(bb) = block(&cfg_re, vx) {
            assert!(
                (bb.area.start == 0 && bb.area.end == 6)
                    || (bb.area.start == 10 && bb.area.end == 16)
                    || (bb.area.start == 6 && bb.area.end == 10)
            );
        } else {
            unreachable!();
        }
    }

    for e in &cfg_re.edges {
        let from = block(&cfg_re, e.source).unwrap();
        let to = block(&cfg_re, e.target).unwrap();
        assert!(
            (from.area.start == 0 && to.area.start == 10)
                || (from.area.start == 10 && to.area.start == 10)
                || (from.area.start == 10 && to.area.start == 6)
                || (from.area.start == 6 && to.area.start == 0)
        );
    }
}

#[test]
fn index_unresolved() {
    let mut cfg = ControlFlowGraph::new();

    let bb0 = BasicBlock::from_vec(vec![Mnemonic::dummy(Bound::new(0, 1))]);
    let bb1 = BasicBlock::from_vec(vec![Mnemonic::dummy(Bound::new(10, 11))]);

    let vx0 = cfg.add_vertex(ControlFlowTarget::Resolved(bb0));
    let vx1 = cfg.add_vertex(ControlFlowTarget::Resolved(bb1));
    let vx2 = cfg.add_vertex(ControlFlowTarget::Unresolved(Rvalue::Constant(42)));
    let vx3 = cfg.add_vertex(ControlFlowTarget::Unresolved(Rvalue::Constant(23)));
    let vx4 = cfg.add_vertex(ControlFlowTarget::Unresolved(Rvalue::Variable {
        name: "a".to_string(),
        width: 8,
        subscript: None,
    }));

    cfg.add_edge(Guard::always(), vx0, vx1);
    cfg.add_edge(Guard::always(), vx2, vx1);
    cfg.add_edge(Guard::always(), vx3, vx0);
    cfg.add_edge(Guard::always(), vx4, vx3);

    let idx = Function::index_cflow_graph(cfg);

    assert_eq!(idx.mnemonics.len(), 2);
    assert_eq!(idx.by_source.len(), 3);
    assert_eq!(idx.by_destination.len(), 3);

    let mut diags = Vec::new();
    let cfg_re = Function::assemble_cflow_graph(idx, 0, &mut diags);

    assert_eq!(cfg_re.num_vertices(), 4);
    assert_eq!(cfg_re.num_edges(), 3);

    for vx in 0..cfg_re.num_vertices() {
        match cfg_re.vertex_label(vx) {
            Some(ControlFlowTarget::Resolved(bb)) => {
                assert!(
                    (bb.area.start == 0 && bb.area.end == 1)
                        || (bb.area.start == 10 && bb.area.end == 11)
                );
            }
            Some(ControlFlowTarget::Unresolved(Rvalue::Constant(c))) => {
                assert!(*c == 42 || *c == 23);
            }
            _ => {
                unreachable!();
            }
        }
    }
}

#[test]
fn add_single() {
    let main = short(vec![0], vec![rule(0, 1, "A", vec![])]);
    let func = Function::disassemble(None, &main, 0, &mut Vec::new());

    assert_eq!(func.cflow_graph.num_vertices(), 1);
    assert_eq!(func.cflow_graph.num_edges(), 0);

    if let Some(bb) = block(&func.cflow_graph, 0) {
        assert_eq!(bb.mnemonics.len(), 1);
        assert_eq!(bb.mnemonics[0].opcode, "A".to_string());
        assert_eq!(bb.mnemonics[0].area, Bound::new(0, 1));
        assert_eq!(bb.area, Bound::new(0, 1));
    } else {
        unreachable!();
    }

    assert_eq!(func.entry_point, Some(0));
    assert_eq!(func.name, "func_0".to_string());
}

#[test]
fn continuous() {
    let main = short(
        vec![0, 1, 2, 3, 4, 5],
        vec![
            rule(0, 1, "test0", vec![Target::Rel(1)]),
            rule(1, 1, "test1", vec![Target::Rel(1)]),
            rule(2, 1, "test2", vec![Target::Rel(1)]),
            rule(3, 1, "test3", vec![Target::Rel(1)]),
            rule(4, 1, "test4", vec![Target::Rel(1)]),
            rule(5, 1, "test5", vec![Target::Rel(1)]),
        ],
    );
    let func = Function::disassemble(None, &main, 0, &mut Vec::new());

    assert_eq!(func.cflow_graph.num_vertices(), 2);
    assert_eq!(func.cflow_graph.num_edges(), 1);

    let mut bb_vx = None;
    let mut ures_vx = None;

    for vx in 0..func.cflow_graph.num_vertices() {
        if let Some(bb) = block(&func.cflow_graph, vx) {
            assert_eq!(bb.mnemonics.len(), 6);
            for k in 0..6u64 {
                assert_eq!(bb.mnemonics[k as usize].opcode, format!("test{}", k));
                assert_eq!(bb.mnemonics[k as usize].area, Bound::new(k, k + 1));
            }
            assert_eq!(bb.area, Bound::new(0, 6));
            bb_vx = Some(vx);
        } else if let Some(ControlFlowTarget::Unresolved(Rvalue::Constant(c))) =
            func.cflow_graph.vertex_label(vx)
        {
            assert_eq!(*c, 6);
            ures_vx = Some(vx);
        } else {
            unreachable!();
        }
    }

    assert!(ures_vx.is_some() && bb_vx.is_some());
    assert_eq!(func.entry_point, bb_vx);
    assert_eq!(func.name, "func_0".to_string());
    assert!(func.cflow_graph.edge(bb_vx.unwrap(), ures_vx.unwrap()).is_some());
}

#[test]
fn branch() {
    let main = short(
        vec![0, 1, 2],
        vec![
            rule(0, 1, "test0", vec![Target::Abs(1), Target::Abs(2)]),
            rule(1, 1, "test1", vec![Target::Abs(3)]),
            rule(2, 1, "test2", vec![Target::Abs(1)]),
        ],
    );
    let func = Function::disassemble(None, &main, 0, &mut Vec::new());

    assert_eq!(func.cflow_graph.num_vertices(), 4);
    assert_eq!(func.cflow_graph.num_edges(), 4);

    let mut bb0_vx = None;
    let mut bb1_vx = None;
    let mut bb2_vx = None;
    let mut ures_vx = None;

    for vx in 0..func.cflow_graph.num_vertices() {
        if let Some(bb) = block(&func.cflow_graph, vx) {
            let k = bb.area.start;
            assert!(k < 3);
            assert_eq!(bb.mnemonics.len(), 1);
            assert_eq!(bb.mnemonics[0].opcode, format!("test{}", k));
            assert_eq!(bb.mnemonics[0].area, Bound::new(k, k + 1));
            assert_eq!(bb.area, Bound::new(k, k + 1));
            match k {
                0 => bb0_vx = Some(vx),
                1 => bb1_vx = Some(vx),
                _ => bb2_vx = Some(vx),
            }
        } else if let Some(ControlFlowTarget::Unresolved(Rvalue::Constant(c))) =
            func.cflow_graph.vertex_label(vx)
        {
            assert_eq!(*c, 3);
            ures_vx = Some(vx);
        } else {
            unreachable!();
        }
    }

    assert!(ures_vx.is_some() && bb0_vx.is_some() && bb1_vx.is_some() && bb2_vx.is_some());
    assert_eq!(func.entry_point, bb0_vx);
    assert_eq!(func.name, "func_0".to_string());
    assert!(func.cflow_graph.edge(bb0_vx.unwrap(), bb1_vx.unwrap()).is_some());
    assert!(func.cflow_graph.edge(bb0_vx.unwrap(), bb2_vx.unwrap()).is_some());
    assert!(func.cflow_graph.edge(bb1_vx.unwrap(), ures_vx.unwrap()).is_some());
    assert!(func.cflow_graph.edge(bb2_vx.unwrap(), bb1_vx.unwrap()).is_some());
}

#[test]
fn function_loop() {
    let main = short(vec![0, 1, 2], looping());
    let func = Function::disassemble(None, &main, 0, &mut Vec::new());

    assert_eq!(func.cflow_graph.num_vertices(), 1);
    assert_eq!(func.cflow_graph.num_edges(), 1);

    let vx = 0;
    if let Some(bb) = block(&func.cflow_graph, vx) {
        if bb.area.start == 0 {
            assert_eq!(bb.mnemonics.len(), 3);
            for k in 0..3u64 {
                assert_eq!(bb.mnemonics[k as usize].opcode, format!("test{}", k));
                assert_eq!(bb.mnemonics[k as usize].area, Bound::new(k, k + 1));
            }
            assert_eq!(bb.area, Bound::new(0, 3));
        } else {
            unreachable!();
        }
    }

    assert_eq!(func.name, "func_0".to_string());
    assert_eq!(func.entry_point, Some(vx));
    assert!(func.cflow_graph.edge(vx, vx).is_some());
}

#[test]
fn empty() {
    let main = short(vec![], looping());
    let mut diags = Vec::new();
    let func = Function::disassemble(None, &main, 0, &mut diags);

    assert_eq!(func.cflow_graph.num_vertices(), 0);
    assert_eq!(func.cflow_graph.num_edges(), 0);
    assert_eq!(func.name, "func_0".to_string());
    assert_eq!(func.entry_point, None);
    assert_eq!(diags, vec![Diagnostic::DecodeFailure(0)]);
}

#[test]
fn entry_split() {
    let bb = BasicBlock::from_vec(vec![Mnemonic::dummy(Bound::new(0, 1)), Mnemonic::dummy(Bound::new(1, 2))]);
    let mut fun = Function::new("test_func".to_string());
    let vx0 = fun.cflow_graph.add_vertex(ControlFlowTarget::Resolved(bb));
    let vx1 = fun.cflow_graph.add_vertex(ControlFlowTarget::Unresolved(Rvalue::Constant(2)));

    fun.entry_point = Some(vx0);
    fun.cflow_graph.add_edge(Guard::always(), vx0, vx1);

    let main = short(
        vec![0, 1, 2],
        vec![
            rule(0, 1, "test0", vec![Target::Abs(1)]),
            rule(1, 1, "test1", vec![Target::Abs(2)]),
            rule(2, 1, "test2", vec![Target::Abs(1)]),
        ],
    );
    let func = Function::disassemble(Some(fun), &main, 2, &mut Vec::new());

    assert_eq!(func.cflow_graph.num_vertices(), 3);
    assert_eq!(func.cflow_graph.num_edges(), 3);
    assert_eq!(func.name, "test_func".to_string());

    let mut bb0_vx = None;
    let mut bb1_vx = None;
    let mut bb2_vx = None;

    for vx in 0..func.cflow_graph.num_vertices() {
        if let Some(bb) = block(&func.cflow_graph, vx) {
            let k = bb.area.start;
            assert_eq!(bb.mnemonics.len(), 1);
            assert_eq!(bb.mnemonics[0].area, Bound::new(k, k + 1));
            assert_eq!(bb.area, Bound::new(k, k + 1));
            if k == 0 {
                assert_eq!(bb.mnemonics[0].opcode, "dummy".to_string());
                bb0_vx = Some(vx);
            } else if k == 1 {
                assert_eq!(bb.mnemonics[0].opcode, "dummy".to_string());
                bb1_vx = Some(vx);
            } else if k == 2 {
                assert_eq!(bb.mnemonics[0].opcode, "test2".to_string());
                bb2_vx = Some(vx);
            } else {
                unreachable!();
            }
        } else {
            unreachable!();
        }
    }

    assert!(bb0_vx.is_some() && bb1_vx.is_some() && bb2_vx.is_some());
    assert_eq!(func.entry_point, bb0_vx);
    assert!(func.cflow_graph.edge(bb0_vx.unwrap(), bb1_vx.unwrap()).is_some());
    assert!(func.cflow_graph.edge(bb1_vx.unwrap(), bb2_vx.unwrap()).is_some());
    assert!(func.cflow_graph.edge(bb2_vx.unwrap(), bb1_vx.unwrap()).is_some());
}

#[test]
fn wide_token() {
    let def = vec![0x11, 0x22, 0x33, 0x44, 0x55, 0x44];
    let dec = TableDecoder {
        data: def,
        width: 2,
        rules: vec![
            rule(0x2211, 2, "A", vec![Target::Rel(2)]),
            rule(0x4433, 2, "B", vec![Target::Rel(2), Target::Rel(4)]),
            rule(0x4455, 2, "C", vec![]),
        ],
    };

    let func = Function::disassemble(None, &dec, 0, &mut Vec::new());

    assert_eq!(func.cflow_graph.num_vertices(), 3);
    assert_eq!(func.cflow_graph.num_edges(), 2);

    let mut bb0_vx = None;
    let mut bb1_vx = None;

    for vx in 0..func.cflow_graph.num_vertices() {
        match func.cflow_graph.vertex_label(vx) {
            Some(ControlFlowTarget::Resolved(bb)) => {
                if bb.area.start == 0 {
                    assert_eq!(bb.mnemonics.len(), 2);
                    assert_eq!(bb.area, Bound::new(0, 4));
                    bb0_vx = Some(vx);
                } else if bb.area.start == 4 {
                    assert_eq!(bb.mnemonics.len(), 1);
                    assert_eq!(bb.area, Bound::new(4, 6));
                    bb1_vx = Some(vx);
                } else {
                    unreachable!();
                }
            }
            Some(ControlFlowTarget::Unresolved(Rvalue::Constant(6))) => {}
            _ => unreachable!(),
        }
    }

    assert!(bb0_vx.is_some() && bb1_vx.is_some());
    assert_eq!(func.entry_point, bb0_vx);
}

#[test]
fn issue_51_treat_entry_point_as_incoming_edge() {
    let main = short(vec![0, 1, 2], looping());
    let func = Function::disassemble(None, &main, 1, &mut Vec::new());

    assert_eq!(func.cflow_graph.num_vertices(), 2);
    assert_eq!(func.cflow_graph.num_edges(), 2);

    let mut bb0_vx = None;
    let mut bb1_vx = None;

    for vx in 0..func.cflow_graph.num_vertices() {
        if let Some(bb) = block(&func.cflow_graph, vx) {
            if bb.area.start == 0 {
                assert_eq!(bb.mnemonics.len(), 1);
                assert_eq!(bb.area, Bound::new(0, 1));
                bb0_vx = Some(vx);
            } else if bb.area.start == 1 {
                assert_eq!(bb.mnemonics.len(), 2);
                assert_eq!(bb.area, Bound::new(1, 3));
                bb1_vx = Some(vx);
            } else {
                unreachable!();
            }
        } else {
            unreachable!();
        }
    }

    assert!(bb0_vx.is_some() && bb1_vx.is_some());
    assert_eq!(func.entry_point, bb1_vx);
    assert!(func.cflow_graph.edge(bb0_vx.unwrap(), bb1_vx.unwrap()).is_some());
    assert!(func.cflow_graph.edge(bb1_vx.unwrap(), bb0_vx.unwrap()).is_some());
}

#[test]
fn reentry_splits_merged_block_at_new_entry() {
    // a block [0,2) of instructions at 0 and 1, entered again at 1
    let bb = BasicBlock::from_vec(vec![Mnemonic::dummy(Bound::new(0, 1)), Mnemonic::dummy(Bound::new(1, 2))]);
    let mut fun = Function::new("f".to_string());
    fun.cflow_graph.add_vertex(ControlFlowTarget::Resolved(bb));

    let main = short(vec![0, 1, 2], looping());
    let func = Function::disassemble(Some(fun), &main, 1, &mut Vec::new());

    let b0 = block_at(&func.cflow_graph, 0).unwrap();
    let b1 = block_at(&func.cflow_graph, 1).unwrap();
    assert_eq!(block(&func.cflow_graph, b0).unwrap().area, Bound::new(0, 1));
    assert_eq!(block(&func.cflow_graph, b1).unwrap().area, Bound::new(1, 2));
    assert_eq!(func.entry_point, Some(b1));
    assert_eq!(func.name, "f".to_string());
    assert!(func.cflow_graph.edge(b0, b1).is_some());
}

#[test]
fn reentry_at_covered_entry_keeps_counts() {
    let main = short(
        vec![0, 1, 2],
        vec![
            rule(0, 1, "test0", vec![Target::Abs(1), Target::Abs(2)]),
            rule(1, 1, "test1", vec![Target::Abs(3)]),
            rule(2, 1, "test2", vec![Target::Abs(1)]),
        ],
    );
    let first = Function::disassemble(None, &main, 0, &mut Vec::new());
    let (nv, ne) = (first.cflow_graph.num_vertices(), first.cflow_graph.num_edges());
    let uuid = first.uuid;
    let again = Function::disassemble(Some(first), &main, 0, &mut Vec::new());
    assert_eq!(again.cflow_graph.num_vertices(), nv);
    assert_eq!(again.cflow_graph.num_edges(), ne);
    assert_eq!(again.uuid, uuid);
    assert_eq!(again.name, "func_0".to_string());
    assert_eq!(again.entry_point, block_at(&again.cflow_graph, 0));
}

#[test]
fn round_trip_of_hand_built_graph() {
    let mut cfg = ControlFlowGraph::new();
    let b0 = cfg.add_vertex(ControlFlowTarget::Resolved(BasicBlock::from_vec(vec![
        Mnemonic::dummy(Bound::new(0, 2)),
        Mnemonic::dummy(Bound::new(2, 4)),
    ])));
    let b1 = cfg.add_vertex(ControlFlowTarget::Resolved(BasicBlock::from_vec(vec![
        Mnemonic::dummy(Bound::new(4, 5)),
    ])));
    let b2 = cfg.add_vertex(ControlFlowTarget::Resolved(BasicBlock::from_vec(vec![
        Mnemonic::dummy(Bound::new(8, 9)),
    ])));
    let u = cfg.add_vertex(ControlFlowTarget::Unresolved(Rvalue::Constant(100)));
    cfg.add_edge(Guard::always(), b0, b1);
    cfg.add_edge(Guard::always(), b0, b2);
    cfg.add_edge(Guard::always(), b1, b0);
    cfg.add_edge(Guard::always(), b2, u);
    let (nv, ne) = (cfg.num_vertices(), cfg.num_edges());

    for entry in [0u64, 4, 8] {
        let mut copy = ControlFlowGraph::new();
        for v in &cfg.vertices {
            copy.add_vertex(match v {
                ControlFlowTarget::Resolved(bb) => ControlFlowTarget::Resolved(BasicBlock::from_vec(
                    bb.mnemonics.iter().map(|m| Mnemonic::dummy(m.area)).collect(),
                )),
                ControlFlowTarget::Unresolved(r) => ControlFlowTarget::Unresolved(r.clone()),
            });
        }
        for e in &cfg.edges {
            copy.add_edge(e.guard.clone(), e.source, e.target);
        }
        let mut diags = Vec::new();
        let g = Function::assemble_cflow_graph(Function::index_cflow_graph(copy), entry, &mut diags);
        assert_eq!(g.num_vertices(), nv);
        assert_eq!(g.num_edges(), ne);
        let mut areas: Vec<(u64, u64)> = (0..g.num_vertices())
            .filter_map(|v| block(&g, v).map(|bb| (bb.area.start, bb.area.end)))
            .collect();
        areas.sort();
        assert_eq!(areas, vec![(0, 4), (4, 5), (8, 9)]);
        assert!(constant_at(&g, 100).is_some());
    }
}

#[test]
fn jump_into_instruction_is_reported_and_dropped() {
    let main = short(
        vec![0, 0, 1],
        vec![rule(0, 2, "long", vec![Target::Abs(1), Target::Abs(2)]), rule(1, 1, "tail", vec![])],
    );
    let mut diags = Vec::new();
    let func = Function::disassemble(None, &main, 0, &mut diags);
    assert_eq!(diags, vec![Diagnostic::JumpIntoInstruction(1)]);
    let b0 = block_at(&func.cflow_graph, 0).unwrap();
    let b2 = block_at(&func.cflow_graph, 2).unwrap();
    assert_eq!(block(&func.cflow_graph, b0).unwrap().area, Bound::new(0, 2));
    assert_eq!(block(&func.cflow_graph, b2).unwrap().area, Bound::new(2, 3));
    assert!(func.cflow_graph.edge(b0, b2).is_some());
    assert_eq!(func.cflow_graph.num_vertices(), 2);
}

#[test]
fn fall_through_inside_a_block_is_reported_as_hitting_no_block() {
    let mut idx = cflow::index::AddressIndex::new();
    idx.record_mnemonic(Mnemonic::dummy(Bound::new(0, 1)));
    idx.record_mnemonic(Mnemonic::dummy(Bound::new(1, 2)));
    idx.record_mnemonic(Mnemonic::dummy(Bound::new(2, 3)));
    idx.by_source.push(cflow::index::IndexEdge { address: 0, other: Some(1), guard: Guard::always() });
    idx.by_destination.push(cflow::index::IndexEdge { address: 1, other: Some(0), guard: Guard::always() });
    let mut diags = Vec::new();
    let g = Function::assemble_cflow_graph(idx, 0, &mut diags);
    assert_eq!(g.num_vertices(), 1);
    assert_eq!(diags, vec![Diagnostic::DanglingEdge { from: 0, to: 1 }]);
}

#[test]
fn dangling_transfer_is_reported() {
    let mut diags = Vec::new();
    let mut idx = cflow::index::AddressIndex::new();
    idx.record_mnemonic(Mnemonic::dummy(Bound::new(0, 1)));
    idx.record_mnemonic(Mnemonic::dummy(Bound::new(1, 2)));
    idx.by_source.push(cflow::index::IndexEdge { address: 7, other: Some(9), guard: Guard::always() });
    let g = Function::assemble_cflow_graph(idx, 0, &mut diags);
    assert_eq!(diags, vec![Diagnostic::DanglingEdge { from: 7, to: 9 }]);
    assert_eq!(g.num_vertices(), 1);
    assert_eq!(g.num_edges(), 0);
}

#[test]
fn computed_targets_are_kept_by_source_only() {
    let mut idx = cflow::index::AddressIndex::new();
    let targets = idx.record_match(Match {
        mnemonics: vec![Mnemonic::dummy(Bound::new(4, 6)), Mnemonic::dummy(Bound::new(6, 7))],
        jumps: vec![
            (Rvalue::Constant(9), Guard::always()),
            (Rvalue::Variable { name: "eax".to_string(), width: 32, subscript: None }, Guard::Never),
        ],
    });
    assert_eq!(targets, vec![9]);
    assert_eq!(idx.by_source.len(), 2);
    assert_eq!(idx.by_source[0].address, 6);
    assert_eq!(idx.by_source[0].other, Some(9));
    assert_eq!(idx.by_source[1].other, None);
    assert_eq!(idx.by_destination.len(), 1);
    assert_eq!(idx.by_destination[0].address, 9);
    assert_eq!(idx.by_destination[0].other, Some(6));
}

#[test]
fn instructions_are_kept_in_address_order() {
    let mut idx = cflow::index::AddressIndex::new();
    for (s, e) in [(5u64, 6u64), (1, 2), (3, 4), (1, 3)] {
        idx.record_mnemonic(Mnemonic::dummy(Bound::new(s, e)));
    }
    let areas: Vec<(u64, u64)> = idx.mnemonics.iter().map(|m| (m.area.start, m.area.end)).collect();
    assert_eq!(areas, vec![(1, 2), (1, 3), (3, 4), (5, 6)]);
    assert!(idx.decoded_at(3));
    assert!(!idx.decoded_at(2));
    assert!(idx.inside_instruction(2));
    assert!(!idx.inside_instruction(1));
}

#[test]
fn calls_and_address_lookup() {
    let call = |c: u64| Instr { op: Operation::IntCall(Rvalue::Constant(c)), assignee: Lvalue::Undefined };
    let mut f = Function::new("calls".to_string());
    let m0 = Mnemonic::new(Bound::new(0, 4), "call".to_string(), String::new(), vec![], vec![call(0x100)]);
    let m1 = Mnemonic::new(Bound::new(4, 8), "call".to_string(), String::new(), vec![], vec![call(0x200)]);
    f.cflow_graph.add_vertex(ControlFlowTarget::Unresolved(Rvalue::Constant(0x300)));
    f.cflow_graph.add_vertex(ControlFlowTarget::Resolved(BasicBlock::from_vec(vec![m0, m1])));
    assert_eq!(f.collect_calls(), vec![0x100, 0x200]);
    assert_eq!(f.find_basic_block_at_address(5), Some(1));
    assert_eq!(f.find_basic_block_at_address(8), None);
    assert_eq!(f.find_basic_block_at_address(0x300), None);
}

#[test]
fn graph_rejects_edges_to_missing_vertices() {
    let mut g = ControlFlowGraph::new();
    let a = g.add_vertex(ControlFlowTarget::Unresolved(Rvalue::Undefined));
    assert_eq!(g.add_edge(Guard::always(), a, 5), None);
    assert_eq!(g.add_edge(Guard::always(), a, a), Some(0));
    assert_eq!(g.edge(a, a), Some(0));
    assert_eq!(g.num_edges(), 1);
}

#[test]
fn fresh_function_is_named_after_start() {
    let main = short(vec![0; 20], vec![rule(0, 1, "A", vec![])]);
    let func = Function::disassemble(None, &main, 17, &mut Vec::new());
    assert_eq!(func.name, "func_17".to_string());
    assert_eq!(func.entry_point, block_at(&func.cflow_graph, 17));
}

#[test]
fn adjacent_blocks_joined_by_fall_through_merge() {
    let mut cfg = ControlFlowGraph::new();
    let a = cfg.add_vertex(ControlFlowTarget::Resolved(BasicBlock::from_vec(vec![Mnemonic::dummy(Bound::new(0, 1))])));
    let b = cfg.add_vertex(ControlFlowTarget::Resolved(BasicBlock::from_vec(vec![Mnemonic::dummy(Bound::new(1, 2))])));
    cfg.add_edge(Guard::always(), a, b);
    let g = Function::assemble_cflow_graph(Function::index_cflow_graph(cfg), 0, &mut Vec::new());
    assert_eq!(g.num_vertices(), 1);
    assert_eq!(g.num_edges(), 0);
    assert_eq!(block(&g, 0).unwrap().area, Bound::new(0, 2));
}

#[test]
fn round_trip_with_unresolved_targets() {
    let mut cfg = ControlFlowGraph::new();
    let b0 = cfg.add_vertex(ControlFlowTarget::Resolved(BasicBlock::from_vec(vec![
        Mnemonic::dummy(Bound::new(0, 1)),
        Mnemonic::dummy(Bound::new(1, 2)),
    ])));
    let b1 = cfg.add_vertex(ControlFlowTarget::Resolved(BasicBlock::from_vec(vec![Mnemonic::dummy(Bound::new(5, 6))])));
    let u0 = cfg.add_vertex(ControlFlowTarget::Unresolved(Rvalue::Constant(20)));
    let u1 = cfg.add_vertex(ControlFlowTarget::Unresolved(Rvalue::Constant(30)));
    cfg.add_edge(Guard::always(), b0, b1);
    cfg.add_edge(Guard::Never, u0, b0);
    cfg.add_edge(Guard::always(), b1, u1);

    let g = Function::assemble_cflow_graph(Function::index_cflow_graph(cfg), 5, &mut Vec::new());
    assert_eq!(g.num_vertices(), 4);
    assert_eq!(g.num_edges(), 3);
    assert_eq!(block(&g, 0).unwrap().area, Bound::new(0, 2));
    assert_eq!(block(&g, 1).unwrap().area, Bound::new(5, 6));
    assert_eq!(g.edges[0].source, 0);
    assert_eq!(g.edges[0].target, 1);
    let c20 = constant_at(&g, 20).unwrap();
    let c30 = constant_at(&g, 30).unwrap();
    assert!(g.edge(c20, 0).is_some());
    assert_eq!(g.edges[g.edge(c20, 0).unwrap()].guard, Guard::Never);
    assert!(g.edge(1, c30).is_some());
}

#[test]
fn with_uuid_keeps_identifier() {
    let id = uuid::Uuid::from_u128(0x1234_5678_9abc_def0_1122_3344_5566_7788);
    let f = Function::with_uuid("named".to_string(), id);
    assert_eq!(f.uuid, id);
    assert_eq!(f.name, "named".to_string());
    assert_eq!(f.cflow_graph.num_vertices(), 0);
    assert_eq!(f.entry_point, None);
}

#[test]
fn nothing_decodable_gives_empty_function_named_after_start() {
    let main = short(vec![], looping());
    let mut diags = vec![Diagnostic::DecodeFailure(7)];
    let func = Function::disassemble(None, &main, 1234, &mut diags);
    assert_eq!(func.name, "func_1234".to_string());
    assert_eq!(func.cflow_graph.num_vertices(), 0);
    assert_eq!(func.entry_point, None);
    assert_eq!(diags, vec![Diagnostic::DecodeFailure(7), Diagnostic::DecodeFailure(1234)]);
}

#[test]
fn fresh_functions_get_distinct_identifiers() {
    let a = Function::new("a".to_string());
    let b = Function::new("b".to_string());
    assert_ne!(a.uuid, b.uuid);
}

#[test]
fn reentry_inside_an_instruction_reports_and_rebuilds_prior() {
    let mut fun = Function::new("f".to_string());
    let b = fun.cflow_graph.add_vertex(ControlFlowTarget::Resolved(BasicBlock::from_vec(vec![
        Mnemonic::dummy(Bound::new(0, 4)),
    ])));
    fun.entry_point = Some(b);
    // a decoder that would decode anywhere; it must not be asked at 2
    let main = short(vec![0; 8], vec![rule(0, 1, "never", vec![])]);
    let mut diags = Vec::new();
    let func = Function::disassemble(Some(fun), &main, 2, &mut diags);
    assert_eq!(diags, vec![Diagnostic::JumpIntoInstruction(2)]);
    assert_eq!(func.cflow_graph.num_vertices(), 1);
    assert_eq!(func.cflow_graph.num_edges(), 0);
    let bb = block(&func.cflow_graph, 0).unwrap();
    assert_eq!(bb.area, Bound::new(0, 4));
    assert_eq!(bb.mnemonics[0].opcode, "dummy".to_string());
    assert_eq!(func.entry_point, Some(0));
}
