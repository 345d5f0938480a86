//! The values of the virtual machine, and the constants that a compiled
//! program carries. A number is held as the bits of an IEEE 754 double; an
//! array or a record is held in the machine's heap and named by its slot.
use vstd::prelude::*;

verus! {

/// A function of the standard library.
#[derive(Clone, Copy, Debug, PartialEq, Eq, Structural)]
pub enum NativeFn {
    Print,
    StringSplit,
    StringLen,
    StringTrim,
    StringToUpper,
    StringToLower,
    ArrayPush,
    ArrayPop,
    ArrayLen,
    ArrayJoin,
    NumberToString,
    NumberAbs,
    NumberRound,
    NumberFloor,
    NumberCeil,
}

/// A value.
#[derive(Debug)]
pub enum Object {
    Number(u64),
    String(String),
    Atom(String),
    Array(usize),
    Hash(usize),
    CompiledFunction { instructions: Vec<u8>, num_locals: usize, num_parameters: usize },
    Closure { func: Box<Object>, free: Vec<Object> },
    Native(NativeFn),
    Tuple(Vec<Object>),
}

/// What a constant of a compiled program holds.
pub enum ConstView {
    Number(u64),
    String(Seq<char>),
    Atom(Seq<char>),
    Function(Seq<u8>, usize, usize),
}

/// The constant that `o` stands for; `None` for values that only exist
/// while a program runs.
pub open spec fn const_view(o: Object) -> Option<ConstView> {
    match o {
        Object::Number(b) => Some(ConstView::Number(b)),
        Object::String(s) => Some(ConstView::String(s@)),
        Object::Atom(s) => Some(ConstView::Atom(s@)),
        Object::CompiledFunction { instructions, num_locals, num_parameters } =>
            Some(ConstView::Function(instructions@, num_locals, num_parameters)),
        _ => None,
    }
}

/// Compiled code with its constants, ready to be saved or run.
#[derive(Debug)]
pub struct Executable {
    pub instructions: Vec<u8>,
    pub constants: Vec<Object>,
}

/// The constants of an executable, as constants.
pub open spec fn const_views(cs: Seq<Object>) -> Seq<ConstView>
    recommends
        forall|i: int| 0 <= i < cs.len() ==> const_view(#[trigger] cs[i]) is Some,
{
    cs.map_values(|o: Object| const_view(o)->0)
}


/// Two values that hold the same things.
pub open spec fn same_object(a: Object, b: Object) -> bool
    decreases a,
{
    match a {
        Object::Number(x) => b matches Object::Number(y) && x == y,
        Object::String(x) => b matches Object::String(y) && x@ == y@,
        Object::Atom(x) => b matches Object::Atom(y) && x@ == y@,
        Object::Array(x) => b matches Object::Array(y) && x == y,
        Object::Hash(x) => b matches Object::Hash(y) && x == y,
        Object::CompiledFunction { instructions, num_locals, num_parameters } =>
            b matches Object::CompiledFunction { instructions: i2, num_locals: l2, num_parameters: p2 }
            && instructions@ == i2@ && num_locals == l2 && num_parameters == p2,
        Object::Closure { func, free } => b matches Object::Closure { func: f2, free: v2 }
            && same_object(*func, *f2) && free@.len() == v2@.len()
            && forall|i: int| 0 <= i < free@.len() ==> same_object(#[trigger] free@[i], v2@[i]),
        Object::Native(f) => b matches Object::Native(g) && f == g,
        Object::Tuple(xs) => b matches Object::Tuple(ys) && xs@.len() == ys@.len()
            && forall|i: int| 0 <= i < xs@.len() ==> same_object(#[trigger] xs@[i], ys@[i]),
    }
}

/// A copy of a copy holds the same things as the original.
pub proof fn lemma_same_object_trans(a: Object, b: Object, c: Object)
    requires
        same_object(a, b),
        same_object(b, c),
    ensures
        same_object(a, c),
    decreases a,
{
    match a {
        Object::Closure { func, free } => {
            let (f2, v2) = match b { Object::Closure { func, free } => (func, free), _ => arbitrary() };
            let (f3, v3) = match c { Object::Closure { func, free } => (func, free), _ => arbitrary() };
            lemma_same_object_trans(*func, *f2, *f3);
            assert forall|i: int| 0 <= i < free@.len() implies same_object(#[trigger] free@[i], v3@[i]) by {
                lemma_same_object_trans(free@[i], v2@[i], v3@[i]);
            }
        },
        Object::Tuple(xs) => {
            let ys = match b { Object::Tuple(ys) => ys, _ => arbitrary() };
            let zs = match c { Object::Tuple(zs) => zs, _ => arbitrary() };
            assert forall|i: int| 0 <= i < xs@.len() implies same_object(#[trigger] xs@[i], zs@[i]) by {
                lemma_same_object_trans(xs@[i], ys@[i], zs@[i]);
            }
        },
        _ => {},
    }
}

impl Object {
    /// A copy of this value; arrays and records are shared, as before.
    pub fn duplicate(&self) -> (r: Object)
        ensures
            same_object(*self, r),
        decreases self,
    {
        match self {
            Object::Number(x) => Object::Number(*x),
            Object::String(s) => Object::String(s.clone()),
            Object::Atom(s) => Object::Atom(s.clone()),
            Object::Array(i) => Object::Array(*i),
            Object::Hash(i) => Object::Hash(*i),
            Object::CompiledFunction { instructions, num_locals, num_parameters } => Object::CompiledFunction {
                instructions: copy_bytes(instructions),
                num_locals: *num_locals,
                num_parameters: *num_parameters,
            },
            Object::Closure { func, free } => {
                let f = func.duplicate();
                let v = duplicate_list(free);
                Object::Closure { func: Box::new(f), free: v }
            },
            Object::Native(f) => Object::Native(*f),
            Object::Tuple(xs) => Object::Tuple(duplicate_list(xs)),
        }
    }
}

/// A copy of each value of a list.
pub fn duplicate_list(v: &Vec<Object>) -> (r: Vec<Object>)
    ensures
        r@.len() == v@.len(),
        forall|i: int| 0 <= i < v@.len() ==> same_object(#[trigger] v@[i], r@[i]),
    decreases v,
{
    let mut r: Vec<Object> = Vec::new();
    let mut i: usize = 0;
    while i < v.len()
        invariant
            i <= v@.len(),
            r@.len() == i,
            forall|k: int| 0 <= k < i ==> same_object(#[trigger] v@[k], r@[k]),
        decreases v@.len() - i,
    {
        let x = v[i].duplicate();
        r.push(x);
        i += 1;
    }
    r
}

/// A copy of a byte vector.
pub fn copy_bytes(v: &Vec<u8>) -> (r: Vec<u8>)
    ensures
        r@ == v@,
{
    let mut r: Vec<u8> = Vec::new();
    let mut i: usize = 0;
    while i < v.len()
        invariant
            i <= v@.len(),
            r@ == v@.take(i as int),
        decreases v@.len() - i,
    {
        r.push(v[i]);
        i += 1;
        assert(r@ =~= v@.take(i as int));
    }
    assert(v@.take(v@.len() as int) =~= v@);
    r
}

} // verus!
