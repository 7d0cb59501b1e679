//! The kinds of values that the heap stores, and the capability that lets a
//! value go into the heap and come back out with its concrete type.

use vstd::prelude::*;

use crate::heap::ManagedValue;

verus! {

/// The concrete type of a stored value, known at run time.
#[derive(Clone, Copy, Debug, PartialEq, Eq, Structural)]
pub enum Kind {
    Number,
    Text,
    Array,
}

/// A number held as the bit pattern of an IEEE 754 double.
#[derive(Clone, Copy, Debug, PartialEq, Eq, Structural)]
pub struct Number {
    pub bits: u64,
}

impl Number {
    pub fn from_bits(bits: u64) -> (n: Number)
        ensures
            n.bits == bits,
    {
        Number { bits }
    }

    pub fn to_bits(self) -> (b: u64)
        ensures
            b == self.bits,
    {
        self.bits
    }
}

/// An ordered sequence of type-erased handles.
pub type Array = Vec<ManagedValue>;

/// What a block of the heap holds: one value of one of the three kinds.
#[derive(Debug)]
pub enum Payload {
    Number(Number),
    Text(String),
    Array(Array),
}

impl Payload {
    pub open spec fn kind_spec(&self) -> Kind {
        match self {
            Payload::Number(_) => Kind::Number,
            Payload::Text(_) => Kind::Text,
            Payload::Array(_) => Kind::Array,
        }
    }

    pub fn kind(&self) -> (k: Kind)
        ensures
            k == self.kind_spec(),
    {
        match self {
            Payload::Number(_) => Kind::Number,
            Payload::Text(_) => Kind::Text,
            Payload::Array(_) => Kind::Array,
        }
    }

    /// Two payloads hold equal values: the same number, the same text, or
    /// arrays of the same handles in the same order.
    pub open spec fn equal_spec(&self, other: &Payload) -> bool {
        match (self, other) {
            (Payload::Number(x), Payload::Number(y)) => x == y,
            (Payload::Text(x), Payload::Text(y)) => x@ == y@,
            (Payload::Array(x), Payload::Array(y)) => x@ == y@,
            _ => false,
        }
    }

    pub fn equals(&self, other: &Payload) -> (r: bool)
        ensures
            r == self.equal_spec(other),
    {
        match (self, other) {
            (Payload::Number(x), Payload::Number(y)) => *x == *y,
            (Payload::Text(x), Payload::Text(y)) => x.eq(y),
            (Payload::Array(x), Payload::Array(y)) => {
                if x.len() != y.len() {
                    return false;
                }
                let mut k: usize = 0;
                while k < x.len()
                    invariant
                        self.equal_spec(other) == (x@ == y@),
                        x@.len() == y@.len(),
                        0 <= k <= x@.len(),
                        forall|n: int| 0 <= n < k ==> x@[n] == y@[n],
                    decreases x@.len() - k,
                {
                    if !(x[k] == y[k]) {
                        assert(x@[k as int] != y@[k as int]);
                        return false;
                    }
                    k += 1;
                }
                assert(x@ =~= y@);
                true
            },
            _ => false,
        }
    }

    /// The handles that a value holds: the elements of an array, nothing else.
    pub open spec fn children(&self) -> Seq<ManagedValue> {
        match self {
            Payload::Array(a) => a@,
            _ => Seq::empty(),
        }
    }
}

/// Run-time identification of a value's concrete type.
pub trait UpcastValue: Sized {
    /// The kind that every value of this type has.
    spec fn tag() -> Kind;

    fn kind() -> (k: Kind)
        ensures
            k == Self::tag(),
    ;
}

/// The capability of a type whose values can be stored in the heap: a value
/// goes in as a `Payload` and a payload of the type's kind comes back out.
pub trait Allocation: UpcastValue {
    spec fn upcast_spec(self) -> Payload;

    /// The value of this type that a payload holds, if it holds one.
    spec fn downcast_spec(p: Payload) -> Option<Self>;

    proof fn lemma_upcast_downcast(v: Self)
        ensures
            v.upcast_spec().kind_spec() == Self::tag(),
            Self::downcast_spec(v.upcast_spec()) == Some(v),
    ;

    proof fn lemma_downcast_upcast(p: Payload)
        ensures
            Self::downcast_spec(p) is Some <==> p.kind_spec() == Self::tag(),
            Self::downcast_spec(p) is Some ==> Self::downcast_spec(p)->0.upcast_spec() == p,
    ;

    fn upcast(self) -> (p: Payload)
        ensures
            p == self.upcast_spec(),
    ;

    fn downcast_ref(p: &Payload) -> (r: Option<&Self>)
        ensures
            r is Some <==> Self::downcast_spec(*p) is Some,
            r is Some ==> Self::downcast_spec(*p) == Some(*r->0),
    ;
}

impl UpcastValue for Number {
    open spec fn tag() -> Kind {
        Kind::Number
    }

    fn kind() -> (k: Kind) {
        Kind::Number
    }
}

impl Allocation for Number {
    open spec fn upcast_spec(self) -> Payload {
        Payload::Number(self)
    }

    open spec fn downcast_spec(p: Payload) -> Option<Self> {
        match p {
            Payload::Number(n) => Some(n),
            _ => None,
        }
    }

    proof fn lemma_upcast_downcast(v: Self) {
    }

    proof fn lemma_downcast_upcast(p: Payload) {
    }

    fn upcast(self) -> (p: Payload) {
        Payload::Number(self)
    }

    fn downcast_ref(p: &Payload) -> (r: Option<&Self>) {
        match p {
            Payload::Number(n) => Some(n),
            _ => None,
        }
    }
}

impl UpcastValue for String {
    open spec fn tag() -> Kind {
        Kind::Text
    }

    fn kind() -> (k: Kind) {
        Kind::Text
    }
}

impl Allocation for String {
    open spec fn upcast_spec(self) -> Payload {
        Payload::Text(self)
    }

    open spec fn downcast_spec(p: Payload) -> Option<Self> {
        match p {
            Payload::Text(s) => Some(s),
            _ => None,
        }
    }

    proof fn lemma_upcast_downcast(v: Self) {
    }

    proof fn lemma_downcast_upcast(p: Payload) {
    }

    fn upcast(self) -> (p: Payload) {
        Payload::Text(self)
    }

    fn downcast_ref(p: &Payload) -> (r: Option<&Self>) {
        match p {
            Payload::Text(s) => Some(s),
            _ => None,
        }
    }
}

impl UpcastValue for Array {
    open spec fn tag() -> Kind {
        Kind::Array
    }

    fn kind() -> (k: Kind) {
        Kind::Array
    }
}

impl Allocation for Array {
    open spec fn upcast_spec(self) -> Payload {
        Payload::Array(self)
    }

    open spec fn downcast_spec(p: Payload) -> Option<Self> {
        match p {
            Payload::Array(a) => Some(a),
            _ => None,
        }
    }

    proof fn lemma_upcast_downcast(v: Self) {
    }

    proof fn lemma_downcast_upcast(p: Payload) {
    }

    fn upcast(self) -> (p: Payload) {
        Payload::Array(self)
    }

    fn downcast_ref(p: &Payload) -> (r: Option<&Self>) {
        match p {
            Payload::Array(a) => Some(a),
            _ => None,
        }
    }
}

} // verus!
