//! Configuration values: a recursive tree of maps, sequences, options and
//! scalars, independent of any serialization framework.
use vstd::prelude::*;
use crate::text::chars_of;

verus! {

/// The shape shared by configuration values and compiled templates, as a
/// mathematical object; `L` is what a string leaf holds.
pub enum Tree<L> {
    Mapping(Seq<(Tree<L>, Tree<L>)>),
    Newtype(Box<Tree<L>>),
    Optional(Option<Box<Tree<L>>>),
    Sequence(Seq<Tree<L>>),
    Leaf(L),
    Bool(bool),
    Bytes(Seq<u8>),
    Char(char),
    Float32Bits(u32),
    Float64Bits(u64),
    I8(i8),
    I16(i16),
    I32(i32),
    I64(i64),
    Isize(isize),
    U8(u8),
    U16(u16),
    U32(u32),
    U64(u64),
    Usize(usize),
    Unit,
    UnitStruct(Seq<char>),
}

/// A configuration value seen as a tree whose string leaves are character sequences.
pub type ValueModel = Tree<Seq<char>>;

/// A configuration value.
///
/// A map is held as its entries in order; expansion keeps their keys unique,
/// the later of two equal keys giving the value. Floating-point numbers are
/// held as their IEEE 754 bit patterns.
#[derive(Debug)]
pub enum Value {
    Mapping(Vec<(Value, Value)>),
    Newtype(Box<Value>),
    Optional(Option<Box<Value>>),
    Sequence(Vec<Value>),
    Str(String),
    Bool(bool),
    Bytes(Vec<u8>),
    Char(char),
    Float32Bits(u32),
    Float64Bits(u64),
    I8(i8),
    I16(i16),
    I32(i32),
    I64(i64),
    Isize(isize),
    U8(u8),
    U16(u16),
    U32(u32),
    U64(u64),
    Usize(usize),
    Unit,
    UnitStruct(&'static str),
}

pub open spec fn value_models(s: Seq<Value>) -> Seq<ValueModel>
    decreases s,
{
    if s.len() == 0 {
        Seq::empty()
    } else {
        value_models(s.drop_last()).push(s.last().model())
    }
}

pub open spec fn value_pair_models(s: Seq<(Value, Value)>) -> Seq<(ValueModel, ValueModel)>
    decreases s,
{
    if s.len() == 0 {
        Seq::empty()
    } else {
        value_pair_models(s.drop_last()).push((s.last().0.model(), s.last().1.model()))
    }
}

impl Value {
    pub open spec fn model(self) -> ValueModel
        decreases self,
    {
        match self {
            Value::Mapping(m) => Tree::Mapping(value_pair_models(m@)),
            Value::Newtype(v) => Tree::Newtype(Box::new((*v).model())),
            Value::Optional(o) => match o {
                Some(v) => Tree::Optional(Some(Box::new((*v).model()))),
                None => Tree::Optional(None),
            },
            Value::Sequence(vs) => Tree::Sequence(value_models(vs@)),
            Value::Str(s) => Tree::Leaf(s@),
            Value::Bool(b) => Tree::Bool(b),
            Value::Bytes(b) => Tree::Bytes(b@),
            Value::Char(c) => Tree::Char(c),
            Value::Float32Bits(f) => Tree::Float32Bits(f),
            Value::Float64Bits(f) => Tree::Float64Bits(f),
            Value::I8(i) => Tree::I8(i),
            Value::I16(i) => Tree::I16(i),
            Value::I32(i) => Tree::I32(i),
            Value::I64(i) => Tree::I64(i),
            Value::Isize(i) => Tree::Isize(i),
            Value::U8(u) => Tree::U8(u),
            Value::U16(u) => Tree::U16(u),
            Value::U32(u) => Tree::U32(u),
            Value::U64(u) => Tree::U64(u),
            Value::Usize(u) => Tree::Usize(u),
            Value::Unit => Tree::Unit,
            Value::UnitStruct(n) => Tree::UnitStruct(n@),
        }
    }
}

impl View for Value {
    type V = ValueModel;

    open spec fn view(&self) -> ValueModel {
        self.model()
    }
}

pub proof fn lemma_value_models(s: Seq<Value>)
    ensures
        value_models(s).len() == s.len(),
        forall|i: int| 0 <= i < s.len() ==> #[trigger] value_models(s)[i] == s[i]@,
    decreases s.len(),
{
    if s.len() > 0 {
        lemma_value_models(s.drop_last());
    }
}

pub proof fn lemma_value_pair_models(s: Seq<(Value, Value)>)
    ensures
        value_pair_models(s).len() == s.len(),
        forall|i: int|
            0 <= i < s.len() ==> #[trigger] value_pair_models(s)[i] == (s[i].0@, s[i].1@),
    decreases s.len(),
{
    if s.len() > 0 {
        lemma_value_pair_models(s.drop_last());
    }
}

fn same_chars(a: &str, b: &str) -> (r: bool)
    ensures
        r == (a@ == b@),
{
    let x = chars_of(a);
    let y = chars_of(b);
    if x.len() != y.len() {
        return false;
    }
    let mut i: usize = 0;
    while i < x.len()
        invariant
            x@ == a@,
            y@ == b@,
            x.len() == y.len(),
            i <= x.len(),
            forall|j: int| 0 <= j < i ==> x@[j] == y@[j],
        decreases x.len() - i,
    {
        if x[i] != y[i] {
            return false;
        }
        i = i + 1;
    }
    assert(x@ =~= y@);
    true
}

fn same_bytes(a: &Vec<u8>, b: &Vec<u8>) -> (r: bool)
    ensures
        r == (a@ == b@),
{
    if a.len() != b.len() {
        return false;
    }
    let mut i: usize = 0;
    while i < a.len()
        invariant
            a.len() == b.len(),
            i <= a.len(),
            forall|j: int| 0 <= j < i ==> a@[j] == b@[j],
        decreases a.len() - i,
    {
        if a[i] != b[i] {
            return false;
        }
        i = i + 1;
    }
    assert(a@ =~= b@);
    true
}

impl Value {
    /// Whether two values are the same tree.
    pub fn equals(&self, other: &Value) -> (r: bool)
        ensures
            r == (self@ == other@),
        decreases self,
    {
        match (self, other) {
            (Value::Mapping(x), Value::Mapping(y)) => {
                proof {
                    lemma_value_pair_models(x@);
                    lemma_value_pair_models(y@);
                    assert forall|j: int| 0 <= j < x.len() implies decreases_to!(self => #[trigger] x@[j]) by {
                        assert(decreases_to!(x@ => x@[j]));
                    }
                }
                if x.len() != y.len() {
                    proof {
                        assert(value_pair_models(x@).len() != value_pair_models(y@).len());
                    }
                    return false;
                }
                let mut i: usize = 0;
                while i < x.len()
                    invariant
                        *self == Value::Mapping(*x),
                        *other == Value::Mapping(*y),
                        x.len() == y.len(),
                        i <= x.len(),
                        forall|j: int| 0 <= j < x.len() ==> decreases_to!(self => #[trigger] x@[j]),
                        forall|j: int| 0 <= j < i ==> #[trigger] value_pair_models(x@)[j] == value_pair_models(y@)[j],
                        value_pair_models(x@).len() == x.len(),
                        value_pair_models(y@).len() == y.len(),
                        forall|j: int| 0 <= j < x.len() ==> #[trigger] value_pair_models(x@)[j] == (x@[j].0@, x@[j].1@),
                        forall|j: int| 0 <= j < y.len() ==> #[trigger] value_pair_models(y@)[j] == (y@[j].0@, y@[j].1@),
                    decreases x.len() - i,
                {
                    if !x[i].0.equals(&y[i].0) || !x[i].1.equals(&y[i].1) {
                        proof {
                            assert(value_pair_models(x@)[i as int] != value_pair_models(y@)[i as int]);
                        }
                        return false;
                    }
                    i = i + 1;
                }
                proof {
                    assert(value_pair_models(x@) =~= value_pair_models(y@));
                }
                true
            },
            (Value::Newtype(x), Value::Newtype(y)) => x.equals(y),
            (Value::Optional(x), Value::Optional(y)) => match (x, y) {
                (None, None) => true,
                (Some(p), Some(q)) => p.equals(q),
                _ => false,
            },
            (Value::Sequence(x), Value::Sequence(y)) => {
                proof {
                    lemma_value_models(x@);
                    lemma_value_models(y@);
                    assert forall|j: int| 0 <= j < x.len() implies decreases_to!(self => #[trigger] x@[j]) by {
                        assert(decreases_to!(x@ => x@[j]));
                    }
                }
                if x.len() != y.len() {
                    proof {
                        assert(value_models(x@).len() != value_models(y@).len());
                    }
                    return false;
                }
                let mut i: usize = 0;
                while i < x.len()
                    invariant
                        *self == Value::Sequence(*x),
                        *other == Value::Sequence(*y),
                        x.len() == y.len(),
                        i <= x.len(),
                        forall|j: int| 0 <= j < x.len() ==> decreases_to!(self => #[trigger] x@[j]),
                        forall|j: int| 0 <= j < i ==> #[trigger] value_models(x@)[j] == value_models(y@)[j],
                        value_models(x@).len() == x.len(),
                        value_models(y@).len() == y.len(),
                        forall|j: int| 0 <= j < x.len() ==> #[trigger] value_models(x@)[j] == x@[j]@,
                        forall|j: int| 0 <= j < y.len() ==> #[trigger] value_models(y@)[j] == y@[j]@,
                    decreases x.len() - i,
                {
                    if !x[i].equals(&y[i]) {
                        proof {
                            assert(value_models(x@)[i as int] != value_models(y@)[i as int]);
                        }
                        return false;
                    }
                    i = i + 1;
                }
                proof {
                    assert(value_models(x@) =~= value_models(y@));
                }
                true
            },
            (Value::Str(x), Value::Str(y)) => *x == *y,
            (Value::Bool(x), Value::Bool(y)) => *x == *y,
            (Value::Bytes(x), Value::Bytes(y)) => same_bytes(x, y),
            (Value::Char(x), Value::Char(y)) => *x == *y,
            (Value::Float32Bits(x), Value::Float32Bits(y)) => *x == *y,
            (Value::Float64Bits(x), Value::Float64Bits(y)) => *x == *y,
            (Value::I8(x), Value::I8(y)) => *x == *y,
            (Value::I16(x), Value::I16(y)) => *x == *y,
            (Value::I32(x), Value::I32(y)) => *x == *y,
            (Value::I64(x), Value::I64(y)) => *x == *y,
            (Value::Isize(x), Value::Isize(y)) => *x == *y,
            (Value::U8(x), Value::U8(y)) => *x == *y,
            (Value::U16(x), Value::U16(y)) => *x == *y,
            (Value::U32(x), Value::U32(y)) => *x == *y,
            (Value::U64(x), Value::U64(y)) => *x == *y,
            (Value::Usize(x), Value::Usize(y)) => *x == *y,
            (Value::Unit, Value::Unit) => true,
            (Value::UnitStruct(x), Value::UnitStruct(y)) => same_chars(*x, *y),
            _ => false,
        }
    }
}

} // verus!
