use cflow::basic_block::BasicBlock;
use cflow::mnemonic::{Bound, Instr, Mnemonic, Operation};
use cflow::value::{Lvalue, Rvalue};

fn statements() -> Vec<Instr> {
    vec![
        Instr {
            op: Operation::IntAdd(Rvalue::Constant(1), Rvalue::Constant(2)),
            assignee: Lvalue::Variable { name: "a".to_string(), width: 8, subscript: Some(2) },
        },
        Instr {
            op: Operation::IntAdd(Rvalue::Constant(4), Rvalue::Constant(2)),
            assignee: Lvalue::Variable { name: "a".to_string(), width: 8, subscript: Some(1) },
        },
        Instr {
            op: Operation::Phi(vec![
                Rvalue::Variable { name: "a".to_string(), width: 8, subscript: Some(2) },
                Rvalue::Variable { name: "a".to_string(), width: 8, subscript: Some(1) },
            ]),
            assignee: Lvalue::Variable { name: "a".to_string(), width: 8, subscript: Some(3) },
        },
    ]
}

fn operands() -> Vec<Rvalue> {
    vec![Rvalue::Constant(1), Rvalue::Variable { name: "a".to_string(), width: 3, subscript: None }]
}

#[test]
fn basic_block_construct() {
    let mne1 = Mnemonic::new(Bound::new(0, 10), "op1".to_string(), "{8:-:eax} nog".to_string(), operands(), statements());
    let mne2 = Mnemonic::new(Bound::new(10, 13), "op3".to_string(), "{8:-:eax} nog".to_string(), operands(), statements());
    let mne3 = Mnemonic::new(Bound::new(13, 20), "op3".to_string(), "{8:-:eax} nog".to_string(), operands(), statements());

    let ms = vec![mne1, mne2, mne3];
    let bb1 = BasicBlock::from_iter(ms);

    assert_eq!(bb1.area, Bound::new(0, 20));

    let bb2 = BasicBlock::new();
    assert!(bb1 != bb2);

    let bb3 = BasicBlock::new();
    assert_eq!(bb3, bb2);
}

#[test]
fn empty_block_spans_nothing_at_zero() {
    let bb = BasicBlock::from_vec(vec![]);
    assert_eq!(bb.area, Bound::new(0, 0));
    assert!(bb.mnemonics.is_empty());
}

#[test]
fn block_area_is_bounding_interval_of_unordered_instructions() {
    let bb = BasicBlock::from_vec(vec![
        Mnemonic::dummy(Bound::new(7, 9)),
        Mnemonic::dummy(Bound::new(2, 4)),
        Mnemonic::dummy(Bound::new(4, 5)),
    ]);
    assert_eq!(bb.area, Bound::new(2, 9));
    assert_eq!(bb.mnemonics[0].area, Bound::new(7, 9));
}

#[test]
fn execute_visits_every_statement_in_order() {
    let call = Instr {
        op: Operation::IntCall(Rvalue::Constant(0x40)),
        assignee: Lvalue::Undefined,
    };
    let m1 = Mnemonic::new(Bound::new(0, 1), "a".to_string(), String::new(), vec![], statements());
    let m2 = Mnemonic::new(Bound::new(1, 2), "b".to_string(), String::new(), vec![], vec![call]);
    let bb = BasicBlock::from_vec(vec![m1, m2]);
    let seen = bb.execute(|i: &Instr| i.constant_call());
    assert_eq!(seen, vec![None, None, None, Some(0x40)]);
}

#[test]
fn rewrite_replaces_statements_and_keeps_layout() {
    let m1 = Mnemonic::new(Bound::new(3, 5), "a".to_string(), "f".to_string(), operands(), statements());
    let mut bb = BasicBlock::from_vec(vec![m1]);
    bb.rewrite(|_i: &Instr| Instr { op: Operation::Nop, assignee: Lvalue::Undefined });
    assert_eq!(bb.area, Bound::new(3, 5));
    assert_eq!(bb.mnemonics.len(), 1);
    assert_eq!(bb.mnemonics[0].opcode, "a".to_string());
    assert_eq!(bb.mnemonics[0].instructions.len(), 3);
    for i in &bb.mnemonics[0].instructions {
        assert_eq!(i.op, Operation::Nop);
    }
}
