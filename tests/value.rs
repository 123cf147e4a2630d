use cflow::value::{Endianess, Lvalue, Rvalue};

#[test]
fn value_construct() {
    let u = Rvalue::Undefined;
    let c = Rvalue::Constant(5);
    let v = Rvalue::Variable { name: "n".to_string(), width: 32, subscript: None };
    let m = Rvalue::Memory {
        offset: Box::new(Rvalue::Undefined),
        bytes: 1,
        endianess: Endianess::LittleEndian,
        name: "ram".to_string(),
    };

    let u2 = u.clone();
    let c2 = c.clone();
    let v2 = v.clone();
    let m2 = m.clone();

    println!("{:?} {:?} {:?} {:?}", u, c, v, m);
    assert_eq!(u, u2);
    assert_eq!(c, c2);
    assert_eq!(v, v2);
    assert_eq!(m, m2);
}

#[test]
fn convert_lvalue_rvalue() {
    let ru = Rvalue::Undefined;
    let rc = Rvalue::Constant(5);
    let rv = Rvalue::Variable { name: "n".to_string(), width: 32, subscript: None };
    let rm = Rvalue::Memory {
        offset: Box::new(Rvalue::Undefined),
        bytes: 1,
        endianess: Endianess::LittleEndian,
        name: "ram".to_string(),
    };

    let lu = Lvalue::Undefined;
    let lv = Lvalue::Variable { name: "n".to_string(), width: 32, subscript: None };
    let lm = Lvalue::Memory {
        offset: Box::new(Rvalue::Undefined),
        bytes: 1,
        endianess: Endianess::LittleEndian,
        name: "ram".to_string(),
    };

    assert_eq!(Some(lu.clone()), Lvalue::from_rvalue(&ru));
    assert_eq!(Some(lv.clone()), Lvalue::from_rvalue(&rv));
    assert_eq!(Some(lm.clone()), Lvalue::from_rvalue(&rm));
    assert_eq!(None, Lvalue::from_rvalue(&rc));

    assert_eq!(ru, Rvalue::from_lvalue(&lu));
    assert_eq!(rv, Rvalue::from_lvalue(&lv));
    assert_eq!(rm, Rvalue::from_lvalue(&lm));
}

#[test]
fn rvalue_lvalue_round_trip_keeps_nested_memory() {
    let inner = Rvalue::Memory {
        offset: Box::new(Rvalue::Variable { name: "esp".to_string(), width: 32, subscript: Some(3) }),
        bytes: 4,
        endianess: Endianess::BigEndian,
        name: "stack".to_string(),
    };
    let r = Rvalue::Memory {
        offset: Box::new(inner),
        bytes: 2,
        endianess: Endianess::LittleEndian,
        name: "ram".to_string(),
    };
    let l = Lvalue::from_rvalue(&r).unwrap();
    assert_eq!(Rvalue::from_lvalue(&l), r);
    assert_eq!(Lvalue::from_rvalue(&Rvalue::from_lvalue(&l)), Some(l));
}

#[test]
fn constants_have_no_assignable_form() {
    assert_eq!(Lvalue::from_rvalue(&Rvalue::Constant(0)), None);
    assert_eq!(Lvalue::from_rvalue(&Rvalue::Constant(u64::MAX)), None);
}
