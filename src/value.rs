//! Operand values: the read-only `Rvalue` and the assignable `Lvalue`.
use vstd::prelude::*;

verus! {

/// Byte order of a memory reference.
#[derive(Clone, Copy, Debug, PartialEq, Eq, Hash)]
pub enum Endianess {
    LittleEndian,
    BigEndian,
}

/// A read-only operand.
#[derive(Debug, PartialEq, Eq, Hash)]
pub enum Rvalue {
    Constant(u64),
    Undefined,
    Variable { width: u16, name: String, subscript: Option<u32> },
    Memory { offset: Box<Rvalue>, bytes: u16, endianess: Endianess, name: String },
}

/// An assignable operand: every `Rvalue` but a constant.
#[derive(Debug, PartialEq, Eq, Hash)]
pub enum Lvalue {
    Undefined,
    Variable { width: u16, name: String, subscript: Option<u32> },
    Memory { offset: Box<Rvalue>, bytes: u16, endianess: Endianess, name: String },
}

/// The read-only value that an assignable value stands for.
pub open spec fn lvalue_as_rvalue(l: Lvalue) -> Rvalue {
    match l {
        Lvalue::Undefined => Rvalue::Undefined,
        Lvalue::Variable { width, name, subscript } => Rvalue::Variable { width, name, subscript },
        Lvalue::Memory { offset, bytes, endianess, name } => Rvalue::Memory {
            offset,
            bytes,
            endianess,
            name,
        },
    }
}

/// The assignable value that a read-only value stands for; none for a constant.
pub open spec fn rvalue_as_lvalue(r: Rvalue) -> Option<Lvalue> {
    match r {
        Rvalue::Constant(_) => None,
        Rvalue::Undefined => Some(Lvalue::Undefined),
        Rvalue::Variable { width, name, subscript } => Some(
            Lvalue::Variable { width, name, subscript },
        ),
        Rvalue::Memory { offset, bytes, endianess, name } => Some(
            Lvalue::Memory { offset, bytes, endianess, name },
        ),
    }
}

impl Rvalue {
    /// A copy of this value that Verus knows to be equal to it.
    pub fn duplicate(&self) -> (r: Rvalue)
        ensures
            r == *self,
        decreases self,
    {
        match self {
            Rvalue::Constant(c) => Rvalue::Constant(*c),
            Rvalue::Undefined => Rvalue::Undefined,
            Rvalue::Variable { width, name, subscript } => Rvalue::Variable {
                width: *width,
                name: name.clone(),
                subscript: *subscript,
            },
            Rvalue::Memory { offset, bytes, endianess, name } => {
                let o: Rvalue = offset.duplicate();
                Rvalue::Memory {
                    offset: Box::new(o),
                    bytes: *bytes,
                    endianess: *endianess,
                    name: name.clone(),
                }
            },
        }
    }

    /// The read-only view of an assignable value.
    pub fn from_lvalue(rv: &Lvalue) -> (r: Rvalue)
        ensures
            r == lvalue_as_rvalue(*rv),
    {
        match rv {
            Lvalue::Undefined => Rvalue::Undefined,
            Lvalue::Variable { width, name, subscript } => Rvalue::Variable {
                width: *width,
                name: name.clone(),
                subscript: *subscript,
            },
            Lvalue::Memory { offset, bytes, endianess, name } => {
                let o: Rvalue = offset.duplicate();
                Rvalue::Memory {
                    offset: Box::new(o),
                    bytes: *bytes,
                    endianess: *endianess,
                    name: name.clone(),
                }
            },
        }
    }
}

impl Clone for Rvalue {
    fn clone(&self) -> Self {
        self.duplicate()
    }
}

impl Clone for Lvalue {
    fn clone(&self) -> Self {
        self.duplicate()
    }
}

impl Lvalue {
    /// A copy of this value that Verus knows to be equal to it.
    pub fn duplicate(&self) -> (r: Lvalue)
        ensures
            r == *self,
    {
        match self {
            Lvalue::Undefined => Lvalue::Undefined,
            Lvalue::Variable { width, name, subscript } => Lvalue::Variable {
                width: *width,
                name: name.clone(),
                subscript: *subscript,
            },
            Lvalue::Memory { offset, bytes, endianess, name } => {
                let o: Rvalue = offset.duplicate();
                Lvalue::Memory {
                    offset: Box::new(o),
                    bytes: *bytes,
                    endianess: *endianess,
                    name: name.clone(),
                }
            },
        }
    }

    /// The assignable view of a read-only value; `None` exactly for a constant.
    pub fn from_rvalue(rv: &Rvalue) -> (r: Option<Lvalue>)
        ensures
            r == rvalue_as_lvalue(*rv),
            r is None <==> rv is Constant,
    {
        match rv {
            Rvalue::Undefined => Some(Lvalue::Undefined),
            Rvalue::Variable { width, name, subscript } => Some(
                Lvalue::Variable { width: *width, name: name.clone(), subscript: *subscript },
            ),
            Rvalue::Memory { offset, bytes, endianess, name } => {
                let o: Rvalue = offset.duplicate();
                Some(
                    Lvalue::Memory {
                        offset: Box::new(o),
                        bytes: *bytes,
                        endianess: *endianess,
                        name: name.clone(),
                    },
                )
            },
            Rvalue::Constant(_) => None,
        }
    }
}

/// Converting a non-constant read-only value to an assignable one and back
/// gives the same value; a constant has no assignable form; and an assignable
/// value survives the trip through its read-only form.
pub proof fn lemma_value_conversion(r: Rvalue, l: Lvalue)
    ensures
        rvalue_as_lvalue(r) is None <==> r is Constant,
        !(r is Constant) ==> lvalue_as_rvalue(rvalue_as_lvalue(r)->Some_0) == r,
        rvalue_as_lvalue(lvalue_as_rvalue(l)) == Some(l),
{
}

} // verus!
