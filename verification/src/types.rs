//! Data-types attached to varnodes.

use vstd::prelude::*;

use crate::space::SpaceId;

verus! {

/// A data-type. Sizes are in bytes.
#[derive(Debug)]
pub enum Datatype {
    /// No value.
    Void,
    /// Unknown contents of the given size (`undefinedN`).
    Unknown(u32),
    /// A signed integer of the given size.
    Int(u32),
    /// An unsigned integer of the given size.
    Uint(u32),
    /// A boolean (1 byte).
    Bool,
    /// A character (1 byte).
    Char,
    /// A floating-point value of the given size.
    Float(u32),
    /// A pointer of the given size to the given type.
    Pointer(u32, Box<Datatype>),
    /// An array of the given element type and element count.
    Array(Box<Datatype>, u32),
    /// A structure of the given size whose components are not known.
    Struct(u32),
    /// The placeholder type a spacebase register points to: the whole of a space.
    Spacebase(SpaceId),
}

/// The size in bytes of a data-type.
pub open spec fn type_size(t: Datatype) -> nat
    decreases t,
{
    match t {
        Datatype::Void => 0,
        Datatype::Unknown(n) => n as nat,
        Datatype::Int(n) => n as nat,
        Datatype::Uint(n) => n as nat,
        Datatype::Bool => 1,
        Datatype::Char => 1,
        Datatype::Float(n) => n as nat,
        Datatype::Pointer(n, _) => n as nat,
        Datatype::Array(e, c) => type_size(*e) * (c as nat),
        Datatype::Struct(n) => n as nat,
        Datatype::Spacebase(_) => 1,
    }
}

/// A data-type whose size, and the sizes of every type inside it, fit in 32 bits, and whose
/// arrays have elements of non-zero size.
pub open spec fn type_wf(t: Datatype) -> bool
    decreases t,
{
    match t {
        Datatype::Pointer(_, p) => type_wf(*p),
        Datatype::Array(e, c) => type_wf(*e) && type_size(*e) > 0 && type_size(*e) * (c as nat) <= u32::MAX,
        _ => true,
    }
}

/// The component a data-type holds at byte offset `off`, with the offset into that component:
/// an array holds its element type at every offset inside it; no other type has components.
pub open spec fn subtype_spec(t: Datatype, off: i64) -> Option<(Datatype, i64)> {
    match t {
        Datatype::Array(e, c) => if (off as int) < type_size(t) {
            Some((*e, trunc_rem(off as int, type_size(*e) as int) as i64))
        } else {
            None
        },
        _ => None,
    }
}

/// The remainder of a truncating signed division (the sign follows the dividend).
pub open spec fn trunc_rem(a: int, b: int) -> int {
    if a >= 0 {
        a % b
    } else {
        -((-a) % b)
    }
}

/// Division truncating toward zero, as integer division in code does (for `b > 0`).
pub open spec fn trunc_div(a: int, b: int) -> int {
    if a >= 0 {
        a / b
    } else {
        -((-a) / b)
    }
}

/// A copy of a data-type.
pub fn copy_type(t: &Datatype) -> (r: Datatype)
    ensures
        r == *t,
    decreases t,
{
    match t {
        Datatype::Void => Datatype::Void,
        Datatype::Unknown(n) => Datatype::Unknown(*n),
        Datatype::Int(n) => Datatype::Int(*n),
        Datatype::Uint(n) => Datatype::Uint(*n),
        Datatype::Bool => Datatype::Bool,
        Datatype::Char => Datatype::Char,
        Datatype::Float(n) => Datatype::Float(*n),
        Datatype::Pointer(n, p) => Datatype::Pointer(*n, Box::new(copy_type(&**p))),
        Datatype::Array(e, c) => Datatype::Array(Box::new(copy_type(&**e)), *c),
        Datatype::Struct(n) => Datatype::Struct(*n),
        Datatype::Spacebase(s) => Datatype::Spacebase(*s),
    }
}

impl Datatype {
    /// The size of the type in bytes.
    pub fn size(&self) -> (r: u32)
        requires
            type_wf(*self),
        ensures
            r == type_size(*self),
        decreases self,
    {
        match self {
            Datatype::Void => 0,
            Datatype::Unknown(n) => *n,
            Datatype::Int(n) => *n,
            Datatype::Uint(n) => *n,
            Datatype::Bool => 1,
            Datatype::Char => 1,
            Datatype::Float(n) => *n,
            Datatype::Pointer(n, _) => *n,
            Datatype::Array(e, c) => {
                let es = e.size();
                es * *c
            },
            Datatype::Struct(n) => *n,
            Datatype::Spacebase(_) => 1,
        }
    }

    /// The size the type occupies when laid out in memory; every modelled type is already
    /// aligned to its size.
    pub fn align_size(&self) -> (r: u32)
        requires
            type_wf(*self),
        ensures
            r == type_size(*self),
    {
        self.size()
    }

    /// Is this a pointer type?
    pub fn is_pointer(&self) -> (r: bool)
        ensures
            r == (*self is Pointer),
    {
        matches!(self, Datatype::Pointer(..))
    }

    /// The type a pointer points to.
    pub fn ptr_to(&self) -> (r: Option<&Datatype>)
        ensures
            match *self {
                Datatype::Pointer(_, p) => r == Some(&*p),
                _ => r is None,
            },
    {
        match self {
            Datatype::Pointer(_, p) => Some(&**p),
            _ => None,
        }
    }

    /// The component at byte offset `off` and the offset into it (see [`subtype_spec`]).
    pub fn get_subtype(&self, off: i64) -> (r: Option<(&Datatype, i64)>)
        requires
            type_wf(*self),
        ensures
            match subtype_spec(*self, off) {
                Some((t, n)) => r matches Some((rt, rn)) && *rt == t && rn == n,
                None => r is None,
            },
    {
        match self {
            Datatype::Array(e, c) => {
                let total = self.size();
                if off < total as i64 {
                    let es = e.size() as i64;
                    let rem = off % es;
                    Some((&**e, rem))
                } else {
                    None
                }
            },
            _ => None,
        }
    }
}

} // verus!
