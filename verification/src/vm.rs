//! The virtual machine: runs compiled instructions over a value stack, with
//! call frames, globals, and a heap of arrays and records. The machine holds
//! numbers as the bits of doubles and leaves every floating-point operation
//! to a function it is given; imports are handed back to the caller, who
//! reads and compiles the module.
use vstd::prelude::*;
use indexmap::IndexMap;
use crate::code::{Opcode, opcode_of_byte, spec_read_u16, instruction_bytes, lemma_make_read_roundtrip, lemma_opcode_byte_roundtrip};
use crate::compiler::number_run;
use crate::object::{Executable, NativeFn, Object, same_object, duplicate_list, copy_bytes, lemma_same_object_trans};
use crate::record_map::{map_entries, distinct_keys, key_position, lemma_other_key_kept, map_new, map_insert, map_get, map_len, map_entry,
    lemma_key_position_at, lemma_key_position_push};
use crate::assoc::{assoc, assoc_position, assoc_insert};
use crate::text::{owned, join2, join3, str_eq, decimal_string, spec_decimal, trim_text, to_upper_text, to_lower_text, split_text,
    trim_start_chars, trim_end_chars, upper_of, lower_of, split_of};
use crate::stdlib::{get_string_method, get_array_method, get_number_method, string_method, array_method, number_method};

verus! {

/// The number of value slots of the stack.
pub const STACK_SIZE: usize = 2048;

/// The number of global slots.
pub const GLOBALS_SIZE: usize = 65536;

/// The bits of the double `-1.0`.
pub const MINUS_ONE_BITS: u64 = 0xbff0_0000_0000_0000;

/// One activation: the code being run, its free variables, the next
/// instruction, and where its locals start on the stack.
#[derive(Debug)]
pub struct Frame {
    pub instructions: Vec<u8>,
    pub free: Vec<Object>,
    pub ip: usize,
    pub bp: usize,
}

/// A floating-point question the machine cannot answer itself.
#[derive(Debug)]
pub enum NumQuery {
    /// `a + b`, `a - b`, `a * b` or `a / b`, for the opcode given.
    Arith(Opcode, u64, u64),
    /// `a == b`, `a != b`, `a > b` or `a < b`, for the opcode given.
    Compare(Opcode, u64, u64),
    /// The double nearest to a count.
    FromCount(usize),
    /// What an index says: whether it is `>= 0.0`, whether it is `< 0.0`,
    /// whether its fractional part is zero, and its value cast to `usize`.
    Slot(u64),
    /// The number as `{}` writes it.
    Display(u64),
    /// `round`, `floor` or `ceil` of the number.
    Round(u64),
    Floor(u64),
    Ceil(u64),
}

/// The answer to a `NumQuery`.
#[derive(Debug)]
pub enum NumReply {
    Number(u64),
    Truth(bool),
    Slot { at_least_zero: bool, below_zero: bool, integral: bool, index: usize },
    Text(String),
}

/// Why `run` stopped without an error.
#[derive(Debug)]
pub enum Outcome {
    /// The main code ran to its end.
    Finished,
    /// The program imports the module at this path; the caller pushes the
    /// module's value (see `finish_import`) and runs on.
    Import(String),
    /// The machine ran its allowance of instructions; running on continues.
    Paused,
}

/// The machine's state.
pub struct VM {
    frames: Vec<Frame>,
    frame: Frame,
    pub stack: Vec<Object>,
    pub sp: usize,
    globals: Vec<Object>,
    pub constants: Vec<Object>,
    pub last_popped_stack_elem: Option<Object>,
    loaded_modules: Vec<(String, Object)>,
    arrays: Vec<Vec<Object>>,
    hashes: Vec<IndexMap<String, usize>>,
    cells: Vec<Object>,
}

/// A vector of `n` copies of the number zero.
fn zeros(n: usize) -> (v: Vec<Object>)
    ensures
        v@.len() == n,
        forall|i: int| 0 <= i < n ==> #[trigger] v@[i] == Object::Number(0),
{
    let mut v: Vec<Object> = Vec::new();
    let mut i: usize = 0;
    while i < n
        invariant
            i <= n,
            v@.len() == i,
            forall|k: int| 0 <= k < i ==> #[trigger] v@[k] == Object::Number(0),
        decreases n - i,
    {
        v.push(Object::Number(0));
        i += 1;
    }
    v
}

/// The cell that key `k` of the key map `m` leads to, if any.
pub open spec fn key_cell(m: IndexMap<String, usize>, k: Seq<char>) -> Option<usize> {
    match key_position(map_entries(m), k) {
        Some(i) => Some(map_entries(m)[i].1),
        None => None,
    }
}

/// The key that a string or an atom names.
pub open spec fn key_text(o: Object) -> Option<Seq<char>> {
    match o {
        Object::String(s) => Some(s@),
        Object::Atom(s) => Some(s@),
        _ => None,
    }
}

/// Position `i` of record `h` of `hs` holds a field.
pub open spec fn is_field(hs: Seq<IndexMap<String, usize>>, h: int, i: int) -> bool {
    0 <= h < hs.len() && 0 <= i < map_entries(hs[h]).len()
}

/// The cell of the field at position `i` of record `h` of `hs`.
pub open spec fn cell_of(hs: Seq<IndexMap<String, usize>>, h: int, i: int) -> usize {
    map_entries(hs[h])[i].1
}

/// Every field of every record of `hs` leads to a cell of its own, below
/// `n`.
pub open spec fn cells_owned(hs: Seq<IndexMap<String, usize>>, n: nat) -> bool {
    &&& forall|h: int, i: int| #[trigger] is_field(hs, h, i) ==> (cell_of(hs, h, i) as int) < n
    &&& forall|h1: int, i1: int, h2: int, i2: int|
        #[trigger] is_field(hs, h1, i1) && #[trigger] is_field(hs, h2, i2) && (h1 != h2 || i1 != i2)
            ==> cell_of(hs, h1, i1) != cell_of(hs, h2, i2)
}

/// The entries with every cell moved up by `off`.
pub open spec fn shifted_entries(e: Seq<(Seq<char>, usize)>, off: usize) -> Seq<(Seq<char>, usize)> {
    e.map_values(|p: (Seq<char>, usize)| (p.0, shifted(p.1, off)))
}

/// Records taken over from another machine, with their cells moved past
/// this machine's cells, keep every field's own cell.
proof fn lemma_adopted_owned(ohs: Seq<IndexMap<String, usize>>, n0: nat, other: Seq<IndexMap<String, usize>>, n1: nat,
    hs: Seq<IndexMap<String, usize>>)
    requires
        cells_owned(ohs, n0),
        cells_owned(other, n1),
        n0 + n1 <= usize::MAX,
        hs.len() == ohs.len() + other.len(),
        forall|g: int| 0 <= g < ohs.len() ==> #[trigger] hs[g] == ohs[g],
        forall|g: int| 0 <= g < other.len() ==>
            map_entries(#[trigger] hs[ohs.len() + g]) == shifted_entries(map_entries(other[g]), n0 as usize),
    ensures
        cells_owned(hs, n0 + n1),
{
    let o = ohs.len() as int;
    assert forall|h: int, i: int| #[trigger] is_field(hs, h, i) implies
        (h < o && is_field(ohs, h, i) && cell_of(hs, h, i) == cell_of(ohs, h, i))
        || (h >= o && is_field(other, h - o, i) && cell_of(hs, h, i) == cell_of(other, h - o, i) + n0) by {
        if h < o {
            assert(hs[h] == ohs[h]);
        } else {
            let e = map_entries(other[h - o]);
            assert(map_entries(hs[o + (h - o)]) == shifted_entries(e, n0 as usize));
            assert(map_entries(hs[h]).len() == e.len());
            assert(is_field(other, h - o, i));
            assert((cell_of(other, h - o, i) as int) < n1);
            assert(map_entries(hs[h])[i] == (e[i].0, shifted(e[i].1, n0 as usize)));
        }
    }
}

/// Records added after the others, with no fields, keep every field's own
/// cell.
proof fn lemma_fields_grow(old_hs: Seq<IndexMap<String, usize>>, hs: Seq<IndexMap<String, usize>>, n: nat)
    requires
        cells_owned(old_hs, n),
        hs.len() >= old_hs.len(),
        forall|h: int| 0 <= h < old_hs.len() ==> #[trigger] hs[h] == old_hs[h],
        forall|h: int| old_hs.len() <= h < hs.len() ==> map_entries(#[trigger] hs[h]).len() == 0,
    ensures
        cells_owned(hs, n),
{
    assert forall|h: int, i: int| #[trigger] is_field(hs, h, i) implies is_field(old_hs, h, i)
        && cell_of(hs, h, i) == cell_of(old_hs, h, i) by {
        if h >= old_hs.len() {
            assert(map_entries(hs[h]).len() == 0);
        } else {
            assert(hs[h] == old_hs[h]);
        }
    }
}

/// Whether a value counts as true: every value but the atoms `:false` and
/// `:null`.
pub open spec fn truthy(o: Object) -> bool {
    match o {
        Object::Atom(s) => s@ != "false"@ && s@ != "null"@,
        _ => true,
    }
}

/// Whether a value counts as true (see `truthy`).
pub fn is_truthy(obj: &Object) -> (r: bool)
    ensures
        r == truthy(*obj),
{
    match obj {
        Object::Atom(s) => !str_eq(s.as_str(), "false") && !str_eq(s.as_str(), "null"),
        _ => true,
    }
}

/// The atom with this name.
fn atom(name: &str) -> (o: Object)
    ensures
        o matches Object::Atom(s) && s@ == name@,
{
    Object::Atom(owned(name))
}

impl VM {
    /// The stack slots.
    pub closed spec fn stack_view(&self) -> Seq<Object> {
        self.stack@
    }

    /// The number of values on the stack.
    pub closed spec fn depth(&self) -> usize {
        self.sp
    }

    /// The global slots.
    pub closed spec fn globals_view(&self) -> Seq<Object> {
        self.globals@
    }

    /// The code of the current frame.
    pub closed spec fn code(&self) -> Seq<u8> {
        self.frame.instructions@
    }

    /// The position of the next instruction in the current code.
    pub closed spec fn ip(&self) -> usize {
        self.frame.ip
    }

    /// Where the locals of the current frame start on the stack.
    pub closed spec fn base(&self) -> usize {
        self.frame.bp
    }

    /// The free variables of the current frame.
    pub closed spec fn free_view(&self) -> Seq<Object> {
        self.frame.free@
    }

    /// The frames of the calls that wait for the current one, innermost
    /// last.
    pub closed spec fn callers(&self) -> Seq<Frame> {
        self.frames@
    }

    /// The number of records of the heap.
    pub closed spec fn record_count(&self) -> nat {
        self.hashes@.len()
    }

    /// The value stored under key `k` in record `h`, if any.
    pub closed spec fn record_value(&self, h: int, k: Seq<char>) -> Option<Object> {
        match key_cell(self.hashes@[h], k) {
            Some(c) => if (c as int) < self.cells@.len() { Some(self.cells@[c as int]) } else { None },
            None => None,
        }
    }

    /// The keys of record `h`, in the record's order.
    pub closed spec fn record_keys(&self, h: int) -> Seq<Seq<char>> {
        map_entries(self.hashes@[h]).map_values(|p: (Seq<char>, usize)| p.0)
    }

    /// The arrays of the heap, by id.
    pub closed spec fn arrays_view(&self) -> Seq<Seq<Object>> {
        self.arrays@.map_values(|a: Vec<Object>| a@)
    }

    /// The constant pool.
    pub closed spec fn constants_view(&self) -> Seq<Object> {
        self.constants@
    }

    /// The modules imported so far, by path.
    pub closed spec fn modules_view(&self) -> Seq<(String, Object)> {
        self.loaded_modules@
    }

    /// The value that the last finished run took off the stack.
    pub closed spec fn last_value(&self) -> Option<Object> {
        self.last_popped_stack_elem
    }

    /// The current code has run to its end.
    pub closed spec fn at_end(&self) -> bool {
        self.frame.ip >= self.frame.instructions@.len()
    }

    /// The machine's sizes are those it was made with, and its key maps
    /// hold each key once.
    pub closed spec fn wf(&self) -> bool {
        &&& self.stack@.len() == STACK_SIZE
        &&& self.sp <= STACK_SIZE
        &&& self.globals@.len() == GLOBALS_SIZE
        &&& forall|h: int| 0 <= h < self.hashes@.len() ==> distinct_keys(map_entries(#[trigger] self.hashes@[h]))
        &&& cells_owned(self.hashes@, self.cells@.len())
    }

    /// A machine about to run `bytecode` from its first instruction, with an
    /// empty stack and every global zero.
    pub fn new(bytecode: Executable) -> (vm: VM)
        ensures
            vm.wf(),
            vm.depth() == 0,
            vm.code() == bytecode.instructions@,
            vm.ip() == 0,
            vm.constants_view() == bytecode.constants@,
            vm.modules_view().len() == 0,
            forall|i: int| 0 <= i < GLOBALS_SIZE ==> #[trigger] vm.globals_view()[i] == Object::Number(0),
    {
        let main_frame = Frame { instructions: bytecode.instructions, free: Vec::new(), ip: 0, bp: 0 };
        VM {
            frames: Vec::new(),
            frame: main_frame,
            stack: zeros(STACK_SIZE),
            sp: 0,
            globals: zeros(GLOBALS_SIZE),
            constants: bytecode.constants,
            last_popped_stack_elem: None,
            loaded_modules: Vec::new(),
            arrays: Vec::new(),
            hashes: Vec::new(),
            cells: Vec::new(),
        }
    }

    /// Sets a global slot; an index past the globals is ignored.
    pub fn set_global(&mut self, index: usize, obj: Object)
        requires
            old(self).wf(),
        ensures
            final(self).wf(),
            final(self).depth() == old(self).depth(),
            index < GLOBALS_SIZE ==> final(self).globals_view() == old(self).globals_view().update(index as int, obj),
            index >= GLOBALS_SIZE ==> final(self).globals_view() == old(self).globals_view(),
    {
        if index < GLOBALS_SIZE {
            self.globals.set(index, obj);
        }
    }

    /// Puts a value on top of the stack; fails when the stack is full.
    fn push(&mut self, obj: Object) -> (r: Result<(), String>)
        requires
            old(self).wf(),
        ensures
            final(self).wf(),
            final(self).frame == old(self).frame,
            final(self).frames == old(self).frames,
            final(self).arrays == old(self).arrays,
            final(self).hashes == old(self).hashes,
            final(self).cells == old(self).cells,
            final(self).constants == old(self).constants,
            final(self).globals == old(self).globals,
            final(self).loaded_modules == old(self).loaded_modules,
            r is Ok <==> old(self).sp < STACK_SIZE,
            r is Ok ==> final(self).sp == old(self).sp + 1
                && final(self).stack@ == old(self).stack@.update(old(self).sp as int, obj),
            r is Err ==> final(self).sp == old(self).sp && final(self).stack == old(self).stack,
    {
        if self.sp >= STACK_SIZE {
            return Err(owned("Stack overflow"));
        }
        self.stack.set(self.sp, obj);
        self.sp = self.sp + 1;
        Ok(())
    }

    /// Takes the value off the top of the stack, leaving zero in its slot.
    fn pop(&mut self) -> (r: Result<Object, String>)
        requires
            old(self).wf(),
        ensures
            final(self).wf(),
            final(self).frame == old(self).frame,
            final(self).frames == old(self).frames,
            final(self).arrays == old(self).arrays,
            final(self).hashes == old(self).hashes,
            final(self).cells == old(self).cells,
            final(self).constants == old(self).constants,
            final(self).globals == old(self).globals,
            r is Ok <==> old(self).sp > 0,
            r matches Ok(o) ==> o == old(self).stack@[old(self).sp - 1] && final(self).sp == old(self).sp - 1
                && final(self).stack@ == old(self).stack@.update(old(self).sp - 1, Object::Number(0)),
            r is Err ==> final(self).sp == old(self).sp && final(self).stack == old(self).stack,
            r matches Err(m) ==> m@ == "Stack underflow"@,
    {
        if self.sp == 0 {
            return Err(owned("Stack underflow"));
        }
        self.sp = self.sp - 1;
        let mut taken = Object::Number(0);
        let i = self.sp;
        std::mem::swap(&mut taken, &mut self.stack[i]);
        Ok(taken)
    }
}


/// The number a reply gives; a reply of another kind counts as zero.
pub open spec fn reply_number(r: NumReply) -> u64 {
    match r {
        NumReply::Number(b) => b,
        _ => 0,
    }
}

/// The truth a reply gives; a reply of another kind counts as false.
pub open spec fn reply_truth(r: NumReply) -> bool {
    match r {
        NumReply::Truth(b) => b,
        _ => false,
    }
}

/// `o` is the atom `:true` when `b` holds, else `:false`.
pub open spec fn bool_atom(o: Object, b: bool) -> bool {
    o matches Object::Atom(a) && a@ == (if b { "true"@ } else { "false"@ })
}

/// What `+ - * /` (the opcode `op`) gives for `left` and `right`: `Ok` with
/// the result, or `Err` with the message; for two numbers the result is a
/// number that `numbers` may answer for the question.
pub open spec fn binary_result<F: Fn(NumQuery) -> NumReply>(numbers: F, op: Opcode, left: Object, right: Object,
    result: Result<Object, Seq<char>>) -> bool {
    match (left, right) {
        (Object::Number(l), Object::Number(r)) => result matches Ok(Object::Number(b))
            && exists|rep: NumReply| call_ensures(numbers, (NumQuery::Arith(op, l, r),), rep) && b == reply_number(rep),
        (Object::String(l), Object::String(r)) => if op == Opcode::OpAdd {
            result matches Ok(Object::String(t)) && t@ == l@ + r@
        } else {
            result == Err::<Object, Seq<char>>("Unsupported types for binary operation"@)
        },
        _ => result == Err::<Object, Seq<char>>("Unsupported types for binary operation"@),
    }
}

/// What `== != > <` (the opcode `op`) gives for `left` and `right`: `Ok`
/// with the truth it yields, or `Err` with the message; for two numbers the
/// truth is one that `numbers` may answer for the question.
pub open spec fn comparison_result<F: Fn(NumQuery) -> NumReply>(numbers: F, op: Opcode, left: Object, right: Object,
    result: Result<bool, Seq<char>>) -> bool {
    match (left, right) {
        (Object::Number(l), Object::Number(r)) => result matches Ok(b)
            && exists|rep: NumReply| call_ensures(numbers, (NumQuery::Compare(op, l, r),), rep) && b == reply_truth(rep),
        (Object::Atom(l), Object::Atom(r)) => if op == Opcode::OpEqual {
            result == Ok::<bool, Seq<char>>(l@ == r@)
        } else if op == Opcode::OpNotEqual {
            result == Ok::<bool, Seq<char>>(l@ != r@)
        } else {
            result == Err::<bool, Seq<char>>("Unsupported atom operation"@)
        },
        (Object::String(l), Object::String(r)) => if op == Opcode::OpEqual {
            result == Ok::<bool, Seq<char>>(l@ == r@)
        } else if op == Opcode::OpNotEqual {
            result == Ok::<bool, Seq<char>>(l@ != r@)
        } else {
            result == Err::<bool, Seq<char>>("Unsupported string operation"@)
        },
        _ => result == Ok::<bool, Seq<char>>(op == Opcode::OpNotEqual),
    }
}

/// Asks for a number.
fn ask_number<F: Fn(NumQuery) -> NumReply>(numbers: &F, q: NumQuery) -> (r: u64)
    requires
        forall|x: NumQuery| call_requires(*numbers, (x,)),
    ensures
        exists|rep: NumReply| call_ensures(*numbers, (q,), rep) && r == reply_number(rep),
{
    let ghost q0 = q;
    let rep = numbers(q);
    let r = match &rep {
        NumReply::Number(b) => *b,
        _ => 0,
    };
    assert(call_ensures(*numbers, (q0,), rep) && r == reply_number(rep));
    r
}

/// Asks for a truth value.
fn ask_truth<F: Fn(NumQuery) -> NumReply>(numbers: &F, q: NumQuery) -> (r: bool)
    requires
        forall|x: NumQuery| call_requires(*numbers, (x,)),
    ensures
        exists|rep: NumReply| call_ensures(*numbers, (q,), rep) && r == reply_truth(rep),
{
    let ghost q0 = q;
    let rep = numbers(q);
    let r = match &rep {
        NumReply::Truth(b) => *b,
        _ => false,
    };
    assert(call_ensures(*numbers, (q0,), rep) && r == reply_truth(rep));
    r
}

/// How a reply says a number stands as an index; a reply of another kind
/// counts as no index at all.
pub open spec fn reply_slot(r: NumReply) -> (bool, bool, bool, usize) {
    match r {
        NumReply::Slot { at_least_zero, below_zero, integral, index } => (at_least_zero, below_zero, integral, index),
        _ => (false, false, false, 0),
    }
}

/// `o` is what reading `items` at the index that `rep` gives yields: the
/// item there, or `:null` past the end or below zero.
pub open spec fn slot_read(rep: NumReply, items: Seq<Object>, o: Object) -> bool {
    let (at_least_zero, _, _, i) = reply_slot(rep);
    if at_least_zero && (i as int) < items.len() {
        same_object(items[i as int], o)
    } else {
        o matches Object::Atom(a) && a@ == "null"@
    }
}

/// A result with its message as text.
pub open spec fn result_text(r: Result<(), String>) -> Result<(), Seq<char>> {
    match r {
        Ok(()) => Ok(()),
        Err(m) => Err(m@),
    }
}

/// `after` and the result `r` are what writing `value` into `before` at the
/// index that `rep` gives makes: the item there replaced, or the value added
/// right past the end, or the error.
pub open spec fn slot_write(rep: NumReply, before: Seq<Object>, value: Object, after: Seq<Object>,
    r: Result<(), Seq<char>>) -> bool {
    let (_, below_zero, integral, i) = reply_slot(rep);
    if below_zero || !integral {
        r == Err::<(), Seq<char>>("Array index must be a positive integer"@)
    } else if (i as int) < before.len() {
        &&& r is Ok
        &&& after.len() == before.len()
        &&& same_object(value, after[i as int])
        &&& forall|j: int| 0 <= j < before.len() && j != i ==> #[trigger] after[j] == before[j]
    } else if i == before.len() {
        &&& r is Ok
        &&& after.len() == before.len() + 1
        &&& same_object(value, after[i as int])
        &&& forall|j: int| 0 <= j < before.len() ==> #[trigger] after[j] == before[j]
    } else {
        r == Err::<(), Seq<char>>("Array index out of bounds"@)
    }
}

/// Writing a value into an array and then reading the array at the same
/// index gives back a copy of that value, when the answer about the index
/// is consistent: an index not below zero is at least zero.
pub proof fn law_array_read_after_write(rep: NumReply, before: Seq<Object>, value: Object, after: Seq<Object>,
    read: Object)
    requires
        slot_write(rep, before, value, after, Ok(())),
        reply_slot(rep).0 == !reply_slot(rep).1,
        slot_read(rep, after, read),
    ensures
        same_object(value, read),
{
    let i = reply_slot(rep).3 as int;
    lemma_same_object_trans(value, after[i], read);
}

/// Every key among the first `n` key-value pairs laid out in `temp` is a
/// string or an atom.
pub open spec fn text_keys(temp: Seq<Object>, n: nat) -> bool {
    forall|j: int| 0 <= j < n ==> #[trigger] key_text(temp[2 * j]) is Some
}

/// The value that the last of the first `n` pairs laid out in `temp` (each
/// key followed by its value) with the key text `k` gives, if any.
pub open spec fn pair_value(temp: Seq<Object>, k: Seq<char>, n: nat) -> Option<Object>
    decreases n,
{
    if n == 0 {
        None
    } else if key_text(temp[2 * (n - 1)]) == Some(k) {
        Some(temp[2 * (n - 1) + 1])
    } else {
        pair_value(temp, k, (n - 1) as nat)
    }
}

/// A record's value for a key, against the value that a run of pairs gives
/// it: both absent, or a copy of it.
pub open spec fn holds_pair(stored: Option<Object>, given: Option<Object>) -> bool {
    match given {
        Some(v) => stored matches Some(w) && same_object(v, w),
        None => stored is None,
    }
}

/// Pairs laid out as copies of one another give copies of one another.
pub proof fn lemma_pairs_copied(a: Seq<Object>, b: Seq<Object>, n: nat, k: Seq<char>)
    requires
        a.len() >= 2 * n,
        b.len() >= 2 * n,
        forall|i: int| 0 <= i < 2 * n ==> same_object(#[trigger] a[i], b[i]),
    ensures
        text_keys(a, n) == text_keys(b, n),
        forall|s: Option<Object>| holds_pair(s, pair_value(b, k, n)) ==> #[trigger] holds_pair(s, pair_value(a, k, n)),
    decreases n,
{
    assert forall|j: int| 0 <= j < n implies #[trigger] key_text(a[2 * j]) == key_text(b[2 * j]) by {
        assert(same_object(a[2 * j], b[2 * j]));
    }
    if n > 0 {
        lemma_pairs_copied(a, b, (n - 1) as nat, k);
        let last = 2 * (n - 1);
        assert(key_text(a[last]) == key_text(b[last]));
        assert forall|s: Option<Object>| holds_pair(s, pair_value(b, k, n)) implies #[trigger] holds_pair(s, pair_value(a, k, n)) by {
            if key_text(a[last]) == Some(k) {
                assert(same_object(a[last + 1], b[last + 1]));
                lemma_same_object_trans(a[last + 1], b[last + 1], s->0);
            } else {
                assert(holds_pair(s, pair_value(b, k, (n - 1) as nat)));
            }
        }
    }
}

/// One pair of a run whose keys are all text has a text key.
proof fn lemma_text_key_at(temp: Seq<Object>, n: nat, j: int)
    requires
        text_keys(temp, n),
        0 <= j < n,
    ensures
        key_text(temp[2 * j]) is Some,
{
}

/// The atom `:null`.
pub open spec fn is_null(o: Object) -> bool {
    o matches Object::Atom(a) && a@ == "null"@
}

/// What a library function `f` called on `args` returns, and what it does
/// to the arrays of the heap, from `before` to `after`; where the answer is
/// a number that the number service gives, that it is a number.
pub open spec fn native_result(f: NativeFn, args: Seq<Object>, before: VM, after: VM, r: Object) -> bool {
    let arrays = before.arrays_view();
    let n = args.len();
    match f {
        NativeFn::Print => is_null(r) && after.arrays_view() == arrays,
        NativeFn::StringSplit => if n >= 2 && args[0] is String && args[1] is String {
            let parts = split_of(args[0]->String_0@, args[1]->String_0@);
            &&& r == Object::Array(arrays.len() as usize)
            &&& after.arrays_view().len() == arrays.len() + 1
            &&& after.arrays_view().take(arrays.len() as int) == arrays
            &&& after.arrays_view()[arrays.len() as int].len() == parts.len()
            &&& forall|i: int| 0 <= i < parts.len() ==> (#[trigger] after.arrays_view()[arrays.len() as int][i]
                matches Object::String(s) && s@ == parts[i])
        } else {
            is_null(r) && after.arrays_view() == arrays
        },
        NativeFn::StringTrim | NativeFn::StringToUpper | NativeFn::StringToLower => after.arrays_view() == arrays
            && if n >= 1 && args[0] is String {
                let s = args[0]->String_0@;
                r matches Object::String(t) && t@ == match f {
                    NativeFn::StringTrim => trim_end_chars(trim_start_chars(s)),
                    NativeFn::StringToUpper => upper_of(s),
                    _ => lower_of(s),
                }
            } else {
                is_null(r)
            },
        NativeFn::ArrayPush => if n >= 2 && args[0] is Array && (args[0]->Array_0 as int) < arrays.len() {
            let id = args[0]->Array_0 as int;
            &&& r is Number
            &&& after.arrays_view().len() == arrays.len()
            &&& after.arrays_view()[id].len() == arrays[id].len() + 1
            &&& after.arrays_view()[id].take(arrays[id].len() as int) == arrays[id]
            &&& same_object(args[1], after.arrays_view()[id].last())
            &&& forall|a: int| 0 <= a < arrays.len() && a != id ==> #[trigger] after.arrays_view()[a] == arrays[a]
        } else {
            is_null(r) && after.arrays_view() == arrays
        },
        NativeFn::ArrayPop => if n >= 1 && args[0] is Array && (args[0]->Array_0 as int) < arrays.len() {
            let id = args[0]->Array_0 as int;
            &&& after.arrays_view() == arrays.update(id, arrays[id].drop_last())
                || (arrays[id].len() == 0 && after.arrays_view() == arrays)
            &&& if arrays[id].len() > 0 { r == arrays[id].last() } else { is_null(r) }
        } else {
            is_null(r) && after.arrays_view() == arrays
        },
        NativeFn::ArrayLen | NativeFn::StringLen | NativeFn::NumberRound | NativeFn::NumberFloor
            | NativeFn::NumberCeil => r is Number && after.arrays_view() == arrays,
        NativeFn::ArrayJoin => after.arrays_view() == arrays && (r is String)
            && (!(n >= 2 && args[0] is Array && (args[0]->Array_0 as int) < arrays.len() && args[1] is String)
                ==> (r matches Object::String(t) && t@.len() == 0)),
        NativeFn::NumberToString => after.arrays_view() == arrays
            && if n >= 1 && args[0] is Number { r is String } else { is_null(r) },
        NativeFn::NumberAbs => after.arrays_view() == arrays
            && if n >= 1 && args[0] is Number {
                r == Object::Number(args[0]->Number_0 & 0x7fff_ffff_ffff_ffffu64)
            } else {
                r == Object::Number(0)
            },
    }
}

/// Where the instructions of the code of a number program stand: the
/// `j`-th constant load at `4 * j`, each followed by a pop but the last.
proof fn lemma_number_run_layout(n: nat, base: nat, j: int)
    requires
        n >= 1,
        0 <= j < n,
        base + n <= 65536,
    ensures
        number_run(n, base).len() == 4 * n - 1,
        opcode_of_byte(number_run(n, base)[4 * j]) == Some(Opcode::OpConstant),
        spec_read_u16(number_run(n, base), 4 * j + 1) == base + j,
        j < n - 1 ==> opcode_of_byte(number_run(n, base)[4 * j + 3]) == Some(Opcode::OpPop),
    decreases n,
{
    let c = instruction_bytes(Opcode::OpConstant, seq![(base + n - 1) as usize]);
    lemma_make_read_roundtrip(Opcode::OpConstant, seq![(base + n - 1) as usize]);
    lemma_opcode_byte_roundtrip(Opcode::OpPop);
    assert(c.len() == 3);
    if n > 1 {
        let prev = number_run((n - 1) as nat, base);
        let p = instruction_bytes(Opcode::OpPop, seq![]);
        assert(p.len() == 1);
        let whole = number_run(n, base);
        assert(whole == prev + p + c);
        if j < n - 1 {
            lemma_number_run_layout((n - 1) as nat, base, j);
            assert(whole[4 * j] == prev[4 * j]);
            assert(whole[4 * j + 1] == prev[4 * j + 1]);
            assert(whole[4 * j + 2] == prev[4 * j + 2]);
            if j < n - 2 {
                assert(whole[4 * j + 3] == prev[4 * j + 3]);
            } else {
                assert(whole[4 * j + 3] == p[0]);
            }
        } else {
            lemma_number_run_layout((n - 1) as nat, base, 0);
            assert(whole[4 * j] == c[0]);
            assert(whole[4 * j + 1] == c[1]);
            assert(whole[4 * j + 2] == c[2]);
        }
    }
}

/// `vm` is about to run, from its first instruction, the code of a program
/// of `n` number literals whose constants stand in its pool from `base` on,
/// with room on the stack for one more value.
pub open spec fn starts_number_run(vm: VM, n: nat, base: nat) -> bool {
    &&& vm.code() == number_run(n, base)
    &&& n >= 1
    &&& vm.ip() == 0
    &&& base + n <= vm.constants_view().len()
    &&& base + n <= 65536
    &&& vm.depth() < STACK_SIZE
}

/// `vm` is about to run, from its first instruction, code that loads the
/// number constants at `base` and `base + 1` and then applies the
/// arithmetic instruction `op`, with room on the stack for two more values.
pub open spec fn starts_arith_run(vm: VM, base: nat, op: Opcode) -> bool {
    &&& op == Opcode::OpAdd || op == Opcode::OpSub || op == Opcode::OpMul || op == Opcode::OpDiv
    &&& vm.code() == instruction_bytes(Opcode::OpConstant, seq![base as usize])
        + instruction_bytes(Opcode::OpConstant, seq![(base + 1) as usize]) + instruction_bytes(op, seq![])
    &&& vm.ip() == 0
    &&& base + 2 <= vm.constants_view().len()
    &&& base + 2 <= 65536
    &&& vm.depth() + 2 <= STACK_SIZE
    &&& vm.constants_view()[base as int] is Number
    &&& vm.constants_view()[base + 1int] is Number
}

/// Where the three instructions of `starts_arith_run` stand.
proof fn lemma_arith_layout(base: nat, op: Opcode)
    requires
        base + 2 <= 65536,
        op == Opcode::OpAdd || op == Opcode::OpSub || op == Opcode::OpMul || op == Opcode::OpDiv,
    ensures
        ({
            let code = instruction_bytes(Opcode::OpConstant, seq![base as usize])
                + instruction_bytes(Opcode::OpConstant, seq![(base + 1) as usize]) + instruction_bytes(op, seq![]);
            &&& code.len() == 7
            &&& opcode_of_byte(code[0]) == Some(Opcode::OpConstant)
            &&& spec_read_u16(code, 1) == base
            &&& opcode_of_byte(code[3]) == Some(Opcode::OpConstant)
            &&& spec_read_u16(code, 4) == base + 1
            &&& opcode_of_byte(code[6]) == Some(op)
        }),
{
    let c0 = instruction_bytes(Opcode::OpConstant, seq![base as usize]);
    let c1 = instruction_bytes(Opcode::OpConstant, seq![(base + 1) as usize]);
    let c2 = instruction_bytes(op, seq![]);
    lemma_make_read_roundtrip(Opcode::OpConstant, seq![base as usize]);
    lemma_make_read_roundtrip(Opcode::OpConstant, seq![(base + 1) as usize]);
    lemma_opcode_byte_roundtrip(op);
    let code = c0 + c1 + c2;
    assert(c0.len() == 3 && c1.len() == 3 && c2.len() == 1);
    assert(code[0] == c0[0] && code[1] == c0[1] && code[2] == c0[2]);
    assert(code[3] == c1[0] && code[4] == c1[1] && code[5] == c1[2]);
    assert(code[6] == c2[0]);
}

/// A trace that reaches `before` goes on to `after` by one step that went on.
proof fn lemma_trace_push<F: Fn(NumQuery) -> NumReply>(start: VM, trace: Seq<VM>, before: VM, after: VM, numbers: F)
    requires
        steps_through(start, trace, numbers),
        trace.last() == before,
        step_effect(&before, &after, Ok(None), numbers),
        !before.at_end(),
    ensures
        steps_through(start, trace.push(after), numbers),
        trace.push(after).last() == after,
        trace.push(after).len() == trace.len() + 1,
{
    let t2 = trace.push(after);
    assert forall|i: int| 0 <= i < t2.len() - 1 implies #[trigger] step_effect(&t2[i], &t2[i + 1], Ok(None), numbers)
        && !t2[i].at_end() by {
        if i < trace.len() - 1 {
            assert(t2[i] == trace[i] && t2[i + 1] == trace[i + 1]);
        } else {
            assert(t2[i] == before && t2[i + 1] == after);
        }
    }
}

/// The text that joining takes of a string or an atom.
pub open spec fn plain_text(o: Object) -> Seq<char> {
    match o {
        Object::String(s) => s@,
        Object::Atom(a) => a@,
        _ => seq![],
    }
}

/// The texts of `items` with `sep` between each two.
pub open spec fn joined(items: Seq<Object>, sep: Seq<char>) -> Seq<char>
    decreases items.len(),
{
    if items.len() == 0 {
        seq![]
    } else if items.len() == 1 {
        plain_text(items[0])
    } else {
        joined(items.drop_last(), sep) + sep + plain_text(items.last())
    }
}

/// What one step of the machine does, from `before` to `after` with the
/// result `r`, where `numbers` answers the questions about numbers.
pub open spec fn step_effect<F: Fn(NumQuery) -> NumReply>(before: &VM, after: &VM, r: Result<Option<Outcome>, String>,
    numbers: F) -> bool {
        let code = before.code();
        let ip = before.ip() as int;
        let depth = before.depth() as int;
        let op = if 0 <= ip < code.len() { opcode_of_byte(code[ip]) } else { None };
        &&& ip >= code.len() ==> (r matches Err(m) && m@ == "Unexpected end of instructions"@)
        &&& 0 <= ip < code.len() && op is None ==> (r matches Err(m)
            && m@ == "Unknown Opcode: "@ + spec_decimal(code[ip] as nat))
        &&& op == Some(Opcode::OpPop) ==> (r is Ok <==> depth > 0) && (r is Ok ==> (r matches Ok(None))
            && after.depth() == depth - 1 && after.ip() == ip + 1
            && after.code() == code)
        &&& op == Some(Opcode::OpJump) && ip + 2 < code.len() ==> (r matches Ok(None))
            && after.ip() == spec_read_u16(code, ip + 1) && after.depth() == depth
            && after.code() == code && after.stack_view() == before.stack_view()
        &&& op == Some(Opcode::OpJumpNotTruthy) && ip + 2 < code.len() && depth > 0 ==> (r matches Ok(None))
            && after.depth() == depth - 1 && after.code() == code
            && after.ip() == (if truthy(before.stack_view()[depth - 1]) { ip + 3 }
                else { spec_read_u16(code, ip + 1) as int })
        &&& op == Some(Opcode::OpBang) && depth > 0 ==> (r matches Ok(None)) && after.depth() == depth
            && after.ip() == ip + 1 && after.code() == code
            && (after.stack_view()[depth - 1] matches Object::Atom(a)
                && a@ == (if truthy(before.stack_view()[depth - 1]) { "false"@ } else { "true"@ }))
        &&& op == Some(Opcode::OpMinus) && depth > 0 ==> match before.stack_view()[depth - 1] {
            Object::Number(v) => (r matches Ok(None)) && after.depth() == depth
                && after.ip() == ip + 1 && after.code() == code
                && after.stack_view()[depth - 1] == Object::Number(v ^ 0x8000_0000_0000_0000u64),
            _ => r matches Err(m) && m@ == "Negation err"@,
        }
        &&& op == Some(Opcode::OpGetGlobal) && ip + 2 < code.len() ==> {
            let idx = spec_read_u16(code, ip + 1) as int;
            &&& (r is Ok <==> depth < STACK_SIZE)
            &&& r is Ok ==> (r matches Ok(None)) && after.depth() == depth + 1
                && after.ip() == ip + 3 && after.code() == code
                && same_object(before.globals_view()[idx], after.stack_view()[depth])
        }
        &&& op == Some(Opcode::OpSetGlobal) && ip + 2 < code.len() && depth > 0 ==> {
            let idx = spec_read_u16(code, ip + 1) as int;
            &&& (r matches Ok(None)) && after.depth() == depth && after.ip() == ip + 3
            &&& after.code() == code && after.stack_view() == before.stack_view()
            &&& same_object(before.stack_view()[depth - 1], after.globals_view()[idx])
        }
        &&& (op == Some(Opcode::OpAdd) || op == Some(Opcode::OpSub) || op == Some(Opcode::OpMul)
            || op == Some(Opcode::OpDiv)) && depth >= 2 ==> before.arith_step(after, numbers, op->0, r)
        &&& (op == Some(Opcode::OpEqual) || op == Some(Opcode::OpNotEqual) || op == Some(Opcode::OpGreater)
            || op == Some(Opcode::OpLess)) && depth >= 2 ==> before.compare_step(after, numbers, op->0, r)
        &&& op == Some(Opcode::OpGetLocal) && ip + 1 < code.len() ==> {
            let slot = before.base() + code[ip + 1];
            &&& slot >= STACK_SIZE ==> (r matches Err(m) && m@ == "Local slot out of range"@)
            &&& slot < STACK_SIZE ==> (r is Ok <==> depth < STACK_SIZE)
            &&& slot < STACK_SIZE && r is Ok ==> (r matches Ok(None)) && after.depth() == depth + 1
                && after.ip() == ip + 2 && after.code() == code
                && same_object(before.stack_view()[slot], after.stack_view()[depth])
        }
        &&& op == Some(Opcode::OpSetLocal) && ip + 1 < code.len() && depth > 0 ==> {
            let slot = before.base() + code[ip + 1];
            &&& slot >= STACK_SIZE ==> (r matches Err(m) && m@ == "Local slot out of range"@)
            &&& slot < STACK_SIZE ==> (r matches Ok(None)) && after.depth() == depth
                && after.ip() == ip + 2 && after.code() == code
                && same_object(before.stack_view()[depth - 1], after.stack_view()[slot])
        }
        &&& op == Some(Opcode::OpGetFree) && ip + 1 < code.len() ==> {
            let k = code[ip + 1] as int;
            &&& k >= before.free_view().len() ==> (r matches Err(m) && m@ == "Free variable index out of range"@)
            &&& k < before.free_view().len() ==> (r is Ok <==> depth < STACK_SIZE)
            &&& k < before.free_view().len() && r is Ok ==> (r matches Ok(None))
                && after.depth() == depth + 1 && after.ip() == ip + 2 && after.code() == code
                && same_object(before.free_view()[k], after.stack_view()[depth])
        }
        &&& op == Some(Opcode::OpSetFree) && ip + 1 < code.len() && depth > 0 ==> {
            let k = code[ip + 1] as int;
            &&& k >= before.free_view().len() ==> (r matches Err(m) && m@ == "Free variable index out of range"@)
            &&& k < before.free_view().len() ==> (r matches Ok(None)) && after.depth() == depth
                && after.ip() == ip + 2 && after.code() == code
                && after.free_view().len() == before.free_view().len()
                && same_object(before.stack_view()[depth - 1], after.free_view()[k])
        }
        &&& op == Some(Opcode::OpClosure) && ip + 3 < code.len() ==> {
            let c = spec_read_u16(code, ip + 1) as int;
            let n = code[ip + 3] as int;
            &&& n > depth ==> (r matches Err(m) && m@ == "Stack underflow"@)
            &&& n <= depth && c >= before.constants_view().len() ==>
                (r matches Err(m) && m@ == "Constant index out of range"@)
            &&& n <= depth && c < before.constants_view().len() ==> (r is Ok <==> depth - n < STACK_SIZE)
            &&& n <= depth && c < before.constants_view().len() && r is Ok ==> (r matches Ok(None))
                && after.depth() == depth - n + 1 && after.ip() == ip + 4 && after.code() == code
                && (after.stack_view()[depth - n] matches Object::Closure { func, free }
                    && same_object(before.constants_view()[c], *func) && free@.len() == n
                    && forall|k: int| 0 <= k < n ==> same_object(before.stack_view()[depth - n + k], #[trigger] free@[k]))
        }
        &&& op == Some(Opcode::OpReturnValue) && depth > 0 ==> {
            let bp = before.base() as int;
            let callers = before.callers();
            &&& (callers.len() == 0 || bp == 0 || bp > STACK_SIZE) ==>
                (r matches Err(m) && m@ == "Return outside of a function"@)
            &&& !(callers.len() == 0 || bp == 0 || bp > STACK_SIZE) ==> (r matches Ok(None))
                && after.depth() == bp && after.stack_view()[bp - 1] == before.stack_view()[depth - 1]
                && after.callers() == callers.drop_last()
                && after.code() == callers.last().instructions@ && after.ip() == callers.last().ip
        }
        &&& op == Some(Opcode::OpArray) && ip + 2 < code.len() ==> {
            let n = spec_read_u16(code, ip + 1) as int;
            let ids = before.arrays_view().len();
            &&& n > depth ==> (r matches Err(m) && m@ == "Stack underflow"@)
            &&& n <= depth ==> (r is Ok <==> depth - n < STACK_SIZE)
            &&& n <= depth && r is Ok ==> (r matches Ok(None)) && after.depth() == depth - n + 1
                && after.ip() == ip + 3 && after.code() == code
                && after.stack_view()[depth - n] == Object::Array(ids as usize)
                && after.arrays_view().len() == ids + 1
                && after.arrays_view().take(ids as int) =~= before.arrays_view()
                && after.arrays_view()[ids as int].len() == n
                && forall|k: int| 0 <= k < n ==> same_object(before.stack_view()[depth - n + k],
                    #[trigger] after.arrays_view()[ids as int][k])
        }
        &&& op == Some(Opcode::OpHash) && ip + 2 < code.len() ==> {
            let n = spec_read_u16(code, ip + 1) as int;
            let hs = before.record_count();
            let laid = before.stack_view().subrange(depth - 2 * n, depth);
            &&& 2 * n > depth ==> (r matches Err(m) && m@ == "Stack underflow"@)
            &&& 2 * n <= depth ==> (r is Ok <==> depth - 2 * n < STACK_SIZE)
            &&& 2 * n <= depth && r is Ok ==> (r matches Ok(None)) && after.depth() == depth - 2 * n + 1
                && after.ip() == ip + 3 && after.code() == code
                && (after.stack_view()[depth - 2 * n] matches Object::Hash(id) && id == hs)
                && after.record_count() == hs + 1
                && (forall|g: int, k: Seq<char>| 0 <= g < hs
                    ==> #[trigger] after.record_value(g, k) == before.record_value(g, k))
                && (text_keys(laid, n as nat) ==> forall|k: Seq<char>|
                    holds_pair(#[trigger] after.record_value(hs as int, k), pair_value(laid, k, n as nat)))
        }
        &&& op == Some(Opcode::OpHashKeys) && depth > 0 ==> match before.stack_view()[depth - 1] {
            Object::Hash(h) => if h < before.record_count() {
                let ids = before.arrays_view().len();
                let keys = before.record_keys(h as int);
                (r matches Ok(None)) && after.depth() == depth && after.ip() == ip + 1
                    && after.code() == code
                    && (after.stack_view()[depth - 1] matches Object::Array(id) && id == ids)
                    && after.arrays_view().len() == ids + 1
                    && after.arrays_view()[ids as int].len() == keys.len()
                    && forall|i: int| 0 <= i < keys.len() ==>
                        (#[trigger] after.arrays_view()[ids as int][i] matches Object::String(s) && s@ == keys[i])
            } else {
                r matches Err(m) && m@ == "Invalid record reference"@
            },
            _ => r matches Err(m) && m@ == "Expected hash for keys extraction"@,
        }
        &&& op == Some(Opcode::OpArrayLen) && depth > 0 ==> match before.stack_view()[depth - 1] {
            Object::Array(id) => if id < before.arrays_view().len() {
                (r matches Ok(None)) && after.depth() == depth && after.ip() == ip + 1
                    && after.code() == code
                    && (after.stack_view()[depth - 1] matches Object::Number(b)
                    && exists|rep: NumReply| call_ensures(numbers,
                        (NumQuery::FromCount(before.arrays_view()[id as int].len() as usize),), rep)
                        && b == reply_number(rep))
            } else {
                r matches Err(m) && m@ == "Invalid array reference"@
            },
            _ => r matches Err(m) && m@ == "Expected array for length check"@,
        }
        &&& op == Some(Opcode::OpImport) && depth > 0 ==> match before.stack_view()[depth - 1] {
            Object::String(p) => r matches Ok(Some(Outcome::Import(q))) && q@ == p@,
            _ => r matches Err(m) && m@ == "Import path must be a string"@,
        }
        &&& op == Some(Opcode::OpIndex) && depth >= 2 ==>
            (before.stack_view()[depth - 2] matches Object::Hash(h) ==>
            (key_text(before.stack_view()[depth - 1]) matches Some(k) ==> {
                &&& h < before.record_count() ==> (r matches Ok(None)) && after.depth() == depth - 1
                    && after.ip() == ip + 1 && after.code() == code
                    && match before.record_value(h as int, k) {
                        Some(v) => same_object(v, after.stack_view()[depth - 2]),
                        None => after.stack_view()[depth - 2] matches Object::Atom(a) && a@ == "null"@,
                    }
                &&& h >= before.record_count() ==> (r matches Err(m) && m@ == "Invalid record reference"@)
            }))
        &&& op == Some(Opcode::OpSetIndex) && depth >= 3 ==>
            (before.stack_view()[depth - 3] matches Object::Hash(h) ==>
            (key_text(before.stack_view()[depth - 2]) matches Some(k) ==> {
                &&& h < before.record_count() ==> (r matches Ok(None)) && after.depth() == depth - 2
                    && after.ip() == ip + 1 && after.code() == code
                    && after.stack_view()[depth - 3] == before.stack_view()[depth - 1]
                    && (after.record_value(h as int, k) matches Some(v)
                        && same_object(before.stack_view()[depth - 1], v))
                    && (forall|g: int, k2: Seq<char>| 0 <= g < before.record_count() && (g != h || k2 != k)
                        ==> #[trigger] after.record_value(g, k2) == before.record_value(g, k2))
                &&& h >= before.record_count() ==> (r matches Err(m) && m@ == "Invalid record reference"@)
            }))
        &&& op == Some(Opcode::OpIndex) && depth >= 2 ==> match (before.stack_view()[depth - 2],
            before.stack_view()[depth - 1]) {
            (Object::Array(id), Object::Number(b)) => if (id as int) < before.arrays_view().len() {
                (r matches Ok(None)) && after.depth() == depth - 1 && after.ip() == ip + 1
                    && after.code() == code
                    && exists|rep: NumReply| #[trigger] call_ensures(numbers, (NumQuery::Slot(b),), rep)
                        && slot_read(rep, before.arrays_view()[id as int], after.stack_view()[depth - 2])
            } else {
                r matches Err(m) && m@ == "Invalid array reference"@
            },
            (Object::Tuple(es), Object::Number(b)) => (r matches Ok(None)) && after.depth() == depth - 1
                && after.ip() == ip + 1 && after.code() == code
                && exists|rep: NumReply| #[trigger] call_ensures(numbers, (NumQuery::Slot(b),), rep)
                    && slot_read(rep, es@, after.stack_view()[depth - 2]),
            _ => true,
        }
        &&& op == Some(Opcode::OpSetIndex) && depth >= 3 ==> match (before.stack_view()[depth - 3],
            before.stack_view()[depth - 2]) {
            (Object::Array(id), Object::Number(b)) => exists|rep: NumReply| {
                &&& #[trigger] call_ensures(numbers, (NumQuery::Slot(b),), rep)
                &&& (reply_slot(rep).1 || !reply_slot(rep).2) ==>
                    (r matches Err(m) && m@ == "Array index must be a positive integer"@)
                &&& !(reply_slot(rep).1 || !reply_slot(rep).2) && id >= before.arrays_view().len() ==>
                    (r matches Err(m) && m@ == "Invalid array reference"@)
                &&& !(reply_slot(rep).1 || !reply_slot(rep).2) && id < before.arrays_view().len() ==> {
                    &&& slot_write(rep, before.arrays_view()[id as int], before.stack_view()[depth - 1],
                        after.arrays_view()[id as int], step_text(r))
                    &&& r is Ok ==> (r matches Ok(None)) && after.depth() == depth - 2
                        && after.ip() == ip + 1 && after.code() == code
                        && after.stack_view()[depth - 3] == before.stack_view()[depth - 1]
                }
            },
            (Object::Tuple(_), _) => r matches Err(m) && m@ == "Tuples are immutable"@,
            _ => true,
        }
        &&& op == Some(Opcode::OpGetMethod) && ip + 2 < code.len() && depth > 0 ==> {
            let c = spec_read_u16(code, ip + 1) as int;
            &&& c >= before.constants_view().len() ==> (r matches Err(m) && m@ == "Constant index out of range"@)
            &&& c < before.constants_view().len() ==> (key_text(before.constants_view()[c]) matches Some(k) ==>
                match before.stack_view()[depth - 1] {
                    Object::String(_) => library_method(before, after, r, string_method(k), k),
                    Object::Array(_) => library_method(before, after, r, array_method(k), k),
                    Object::Number(_) => library_method(before, after, r, number_method(k), k),
                    Object::Hash(h) => if h < before.record_count() {
                        match before.record_value(h as int, k) {
                            Some(v) => if v matches Object::Atom(a) && a@ == "null"@ {
                                method_missing(r, k)
                            } else {
                                before.pushed_method(after, r, |o: Object| same_object(v, o))
                            },
                            None => method_missing(r, k),
                        }
                    } else {
                        r matches Err(m) && m@ == "Invalid record reference"@
                    },
                    _ => r is Err,
                })
        }
        &&& op == Some(Opcode::OpTuple) && ip + 2 < code.len() ==> {
            let n = spec_read_u16(code, ip + 1) as int;
            &&& n > depth ==> (r matches Err(m) && m@ == "Stack underflow"@)
            &&& n <= depth ==> (r is Ok <==> depth - n < STACK_SIZE)
            &&& n <= depth && r is Ok ==> (r matches Ok(None)) && after.depth() == depth - n + 1
                && after.ip() == ip + 3 && after.code() == code
                && (after.stack_view()[depth - n] matches Object::Tuple(items) && items@.len() == n
                    && forall|k: int| 0 <= k < n ==> same_object(before.stack_view()[depth - n + k], #[trigger] items@[k]))
        }
        &&& op == Some(Opcode::OpTupleLen) && depth > 0 ==> (r matches Ok(None)) && after.depth() == depth
            && after.ip() == ip + 1 && after.code() == code
            && match before.stack_view()[depth - 1] {
                Object::Tuple(es) => after.stack_view()[depth - 1] matches Object::Number(b)
                    && exists|rep: NumReply| call_ensures(numbers, (NumQuery::FromCount(es@.len() as usize),), rep)
                        && b == reply_number(rep),
                _ => after.stack_view()[depth - 1] == Object::Number(MINUS_ONE_BITS),
            }
        &&& op == Some(Opcode::OpConstant) && ip + 2 < code.len() ==> {
            let idx = spec_read_u16(code, ip + 1) as int;
            &&& (r is Ok <==> idx < before.constants_view().len() && depth < STACK_SIZE)
            &&& r is Ok ==> (r matches Ok(None)) && after.depth() == depth + 1
                && after.ip() == ip + 3 && after.code() == code
                && same_object(before.constants_view()[idx], after.stack_view()[depth])
                && after.stack_view() == before.stack_view().update(depth, after.stack_view()[depth])
        }
}

/// `trace` starts at `start`, and each state of it follows from the one
/// before by a step that went on, taken where the code had not run out.
pub open spec fn steps_through<F: Fn(NumQuery) -> NumReply>(start: VM, trace: Seq<VM>, numbers: F) -> bool {
    &&& trace.len() >= 1
    &&& trace[0] == start
    &&& forall|i: int| 0 <= i < trace.len() - 1 ==> #[trigger] step_effect(&trace[i], &trace[i + 1], Ok(None), numbers)
        && !trace[i].at_end()
}

/// How a run whose last step left the machine in `last` ends in `after`
/// with `r`: at the end of the code with the top value popped and kept as
/// the last value; paused where it stood; or by a step that stopped it.
pub open spec fn run_end<F: Fn(NumQuery) -> NumReply>(last: VM, after: VM, r: Result<Outcome, String>, numbers: F) -> bool {
    match r {
        Ok(Outcome::Finished) => {
            &&& last.at_end()
            &&& after.code() == last.code()
            &&& after.ip() == last.ip()
            &&& if last.depth() > 0 {
                after.depth() == last.depth() - 1 && after.last_value() == Some(last.stack_view()[last.depth() - 1])
            } else {
                after.depth() == 0 && after.last_value() is None
            }
        },
        Ok(Outcome::Paused) => after == last,
        Ok(o) => step_effect(&last, &after, Ok(Some(o)), numbers),
        Err(m) => step_effect(&last, &after, Err(m), numbers),
    }
}

/// The error for a method `k` that the receiver does not have.
pub open spec fn method_missing(r: Result<Option<Outcome>, String>, k: Seq<char>) -> bool {
    r matches Err(m) && m@ == "Method '"@ + k + "' not found on object"@
}

/// What a library method lookup `m` gives in a step from `before` to
/// `after` with the result `r`.
pub open spec fn library_method(before: &VM, after: &VM, r: Result<Option<Outcome>, String>, m: Option<NativeFn>,
    k: Seq<char>) -> bool {
    match m {
        Some(f) => before.pushed_method(after, r, |o: Object| o == Object::Native(f)),
        None => method_missing(r, k),
    }
}

/// A step's result with its message as text.
pub open spec fn step_text(r: Result<Option<Outcome>, String>) -> Result<(), Seq<char>> {
    match r {
        Ok(_) => Ok(()),
        Err(m) => Err(m@),
    }
}

/// Asks how a number stands as an index: `(>= 0.0, < 0.0, integral, as usize)`.
fn ask_slot<F: Fn(NumQuery) -> NumReply>(numbers: &F, bits: u64) -> (r: (bool, bool, bool, usize))
    requires
        forall|x: NumQuery| call_requires(*numbers, (x,)),
    ensures
        exists|rep: NumReply| call_ensures(*numbers, (NumQuery::Slot(bits),), rep) && r == reply_slot(rep),
{
    let rep = numbers(NumQuery::Slot(bits));
    let r = match rep {
        NumReply::Slot { at_least_zero, below_zero, integral, index } => (at_least_zero, below_zero, integral, index),
        _ => (false, false, false, 0),
    };
    assert(r == reply_slot(rep));
    r
}

/// The text a reply gives; a reply of another kind gives no text.
pub open spec fn reply_text(r: NumReply) -> Seq<char> {
    match r {
        NumReply::Text(t) => t@,
        _ => seq![],
    }
}

/// `numbers` answers the question of each number's text in one way.
pub open spec fn shows_numbers_once<F: Fn(NumQuery) -> NumReply>(numbers: F) -> bool {
    forall|b: u64, r1: NumReply, r2: NumReply|
        call_ensures(numbers, (NumQuery::Display(b),), r1) && call_ensures(numbers, (NumQuery::Display(b),), r2)
            ==> r1 == r2
}

/// The text of the number `b` that `numbers` gives.
pub open spec fn number_text<F: Fn(NumQuery) -> NumReply>(numbers: F, b: u64) -> Seq<char> {
    reply_text(choose|rep: NumReply| call_ensures(numbers, (NumQuery::Display(b),), rep))
}

/// Asks for the text of a number.
fn ask_text<F: Fn(NumQuery) -> NumReply>(numbers: &F, bits: u64) -> (r: String)
    requires
        forall|x: NumQuery| call_requires(*numbers, (x,)),
    ensures
        shows_numbers_once(*numbers) ==> r@ == number_text(*numbers, bits),
{
    let rep = numbers(NumQuery::Display(bits));
    let ghost g = rep;
    let r = match rep {
        NumReply::Text(t) => t,
        _ => String::new(),
    };
    proof {
        if shows_numbers_once(*numbers) {
            let c = choose|rep: NumReply| call_ensures(*numbers, (NumQuery::Display(bits),), rep);
            assert(call_ensures(*numbers, (NumQuery::Display(bits),), g));
            assert(c == g);
        }
    }
    r
}

impl VM {
    /// A copy of the value `offset` places below the top of the stack.
    fn peek(&self, offset: usize) -> (r: Result<Object, String>)
        requires
            self.wf(),
        ensures
            r is Ok <==> offset < self.sp,
            r matches Ok(o) ==> same_object(self.stack@[self.sp - 1 - offset], o),
            r matches Err(m) ==> m@ == "Stack underflow"@,
    {
        if offset >= self.sp {
            return Err(owned("Stack underflow"));
        }
        Ok(self.stack[self.sp - 1 - offset].duplicate())
    }

    /// Reads the one-byte operand at the instruction pointer and moves past it.
    fn read_u8(&mut self) -> (r: Result<usize, String>)
        ensures
            r is Ok <==> old(self).frame.ip < old(self).frame.instructions@.len(),
            r matches Err(m) ==> m@ == "Unexpected end of instructions"@,
            r matches Ok(v) ==> old(self).frame.ip < old(self).frame.instructions@.len()
                && v == old(self).frame.instructions@[old(self).frame.ip as int]
                && final(self).frame.ip == old(self).frame.ip + 1,
            final(self).frame.instructions == old(self).frame.instructions,
            final(self).frame.free == old(self).frame.free,
            final(self).frame.bp == old(self).frame.bp,
            final(self).frames == old(self).frames,
            final(self).stack == old(self).stack,
            final(self).sp == old(self).sp,
            final(self).globals == old(self).globals,
            final(self).constants == old(self).constants,
            final(self).arrays == old(self).arrays,
            final(self).hashes == old(self).hashes,
            final(self).cells == old(self).cells,
    {
        let ip = self.frame.ip;
        if ip >= self.frame.instructions.len() {
            return Err(owned("Unexpected end of instructions"));
        }
        let v = self.frame.instructions[ip] as usize;
        self.frame.ip = ip + 1;
        Ok(v)
    }

    /// Reads the two-byte big-endian operand at the instruction pointer and
    /// moves past it.
    fn read_u16(&mut self) -> (r: Result<usize, String>)
        ensures
            r is Ok <==> old(self).frame.ip + 1 < old(self).frame.instructions@.len(),
            r matches Ok(v) ==> old(self).frame.ip + 1 < old(self).frame.instructions@.len()
                && v == crate::code::spec_read_u16(old(self).frame.instructions@, old(self).frame.ip as int)
                && final(self).frame.ip == old(self).frame.ip + 2,
            final(self).frame.instructions == old(self).frame.instructions,
            final(self).frame.free == old(self).frame.free,
            final(self).frame.bp == old(self).frame.bp,
            final(self).frames == old(self).frames,
            final(self).stack == old(self).stack,
            final(self).sp == old(self).sp,
            final(self).globals == old(self).globals,
            final(self).constants == old(self).constants,
            final(self).arrays == old(self).arrays,
            final(self).hashes == old(self).hashes,
            final(self).cells == old(self).cells,
    {
        let ip = self.frame.ip;
        if ip >= self.frame.instructions.len() || self.frame.instructions.len() - ip < 2 {
            return Err(owned("Unexpected end of instructions"));
        }
        let v = (self.frame.instructions[ip] as usize) * 256 + (self.frame.instructions[ip + 1] as usize);
        self.frame.ip = ip + 2;
        Ok(v)
    }

    /// A new array in the heap holding `items`; gives its slot.
    fn new_array(&mut self, items: Vec<Object>) -> (id: usize)
        requires
            old(self).wf(),
        ensures
            final(self).wf(),
            id == old(self).arrays@.len(),
            final(self).arrays@ == old(self).arrays@.push(items),
            final(self).stack == old(self).stack,
            final(self).sp == old(self).sp,
            final(self).frame == old(self).frame,
            final(self).frames == old(self).frames,
            final(self).globals == old(self).globals,
            final(self).constants == old(self).constants,
            final(self).hashes == old(self).hashes,
            final(self).cells == old(self).cells,
    {
        self.arrays.push(items);
        self.arrays.len() - 1
    }

    /// A new record in the heap with no fields; gives its slot.
    fn new_hash(&mut self) -> (id: usize)
        requires
            old(self).wf(),
        ensures
            final(self).wf(),
            id == old(self).hashes@.len(),
            final(self).hashes@.len() == old(self).hashes@.len() + 1,
            map_entries(final(self).hashes@[id as int]).len() == 0,
            forall|h: int| 0 <= h < old(self).hashes@.len() ==> final(self).hashes@[h] == old(self).hashes@[h],
            final(self).stack == old(self).stack,
            final(self).sp == old(self).sp,
            final(self).frame == old(self).frame,
            final(self).frames == old(self).frames,
            final(self).globals == old(self).globals,
            final(self).constants == old(self).constants,
            final(self).arrays == old(self).arrays,
            final(self).cells == old(self).cells,
    {
        let m = map_new();
        self.hashes.push(m);
        proof {
            assert forall|h: int| 0 <= h < self.hashes@.len() implies distinct_keys(map_entries(#[trigger] self.hashes@[h])) by {
                if h < old(self).hashes@.len() {
                    assert(self.hashes@[h] == old(self).hashes@[h]);
                } else {
                    assert(map_entries(self.hashes@[h]) =~= Seq::<(Seq<char>, usize)>::empty());
                }
            }
            lemma_fields_grow(old(self).hashes@, self.hashes@, self.cells@.len());
        }
        self.hashes.len() - 1
    }

    /// Stores `value` under `key` in record `h`: a present key keeps its
    /// place, a new one goes last.
    fn hash_insert(&mut self, h: usize, key: String, value: Object) -> (r: Result<(), String>)
        requires
            old(self).wf(),
        ensures
            final(self).wf(),
            r is Ok <==> h < old(self).hashes@.len(),
            r matches Err(m) ==> m@ == "Invalid record reference"@,
            r is Ok ==> final(self).record_value(h as int, key@) == Some(value),
            r is Ok ==> forall|g: int, k: Seq<char>| 0 <= g < old(self).hashes@.len() && (g != h || k != key@)
                ==> #[trigger] final(self).record_value(g, k) == old(self).record_value(g, k),
            final(self).hashes@.len() == old(self).hashes@.len(),
            final(self).stack == old(self).stack,
            final(self).sp == old(self).sp,
            final(self).frame == old(self).frame,
            final(self).frames == old(self).frames,
            final(self).globals == old(self).globals,
            final(self).constants == old(self).constants,
            final(self).arrays == old(self).arrays,
    {
        if h >= self.hashes.len() {
            return Err(owned("Invalid record reference"));
        }
        let existing = map_get(&self.hashes[h], key.as_str());
        let ghost orig = *self;
        let ghost k0 = key@;
        proof { assert(distinct_keys(map_entries(orig.hashes@[h as int]))); }
        match existing {
            Some(cell) => {
                if cell < self.cells.len() {
                    self.cells.set(cell, value);
                    proof { orig.lemma_other_cells_kept(h as int, k0, cell); }
                    return Ok(());
                }
                let new_cell = self.cells.len();
                self.cells.push(value);
                self.insert_key(h, key, new_cell);
            },
            None => {
                let new_cell = self.cells.len();
                self.cells.push(value);
                self.insert_key(h, key, new_cell);
            },
        }
        proof {
            assert forall|g: int, k: Seq<char>| 0 <= g < orig.hashes@.len() && (g != h || k != k0)
                implies #[trigger] self.record_value(g, k) == orig.record_value(g, k) by {
                if g != h {
                    assert(self.hashes@[g] == orig.hashes@[g]);
                    orig.lemma_key_cell_below(g, k);
                } else {
                    let e = map_entries(orig.hashes@[g]);
                    let f = map_entries(self.hashes@[g]);
                    assert(distinct_keys(f));
                    lemma_other_key_kept(e, f, k0, k);
                    orig.lemma_key_cell_below(g, k);
                }
            }
        }
        Ok(())
    }

    /// A key's cell in a record lies below the number of cells.
    proof fn lemma_key_cell_below(&self, g: int, k: Seq<char>)
        requires
            self.wf(),
            0 <= g < self.hashes@.len(),
        ensures
            key_cell(self.hashes@[g], k) matches Some(c) ==> (c as int) < self.cells@.len(),
    {
        if let Some(i) = key_position(map_entries(self.hashes@[g]), k) {
            assert(is_field(self.hashes@, g, i));
        }
    }

    /// Writing the cell of key `k` of record `h` leaves the value of every
    /// other key of every record as it was.
    proof fn lemma_other_cells_kept(&self, h: int, k: Seq<char>, c: usize)
        requires
            self.wf(),
            0 <= h < self.hashes@.len(),
            key_cell(self.hashes@[h], k) == Some(c),
        ensures
            forall|g: int, k2: Seq<char>| 0 <= g < self.hashes@.len() && (g != h || k2 != k)
                ==> (#[trigger] key_cell(self.hashes@[g], k2) matches Some(c2) ==> c2 != c),
    {
        assert forall|g: int, k2: Seq<char>| 0 <= g < self.hashes@.len() && (g != h || k2 != k)
            implies (#[trigger] key_cell(self.hashes@[g], k2) matches Some(c2) ==> c2 != c) by {
            let i = key_position(map_entries(self.hashes@[h]), k)->0;
            if let Some(j) = key_position(map_entries(self.hashes@[g]), k2) {
                assert(is_field(self.hashes@, g, j));
                assert(is_field(self.hashes@, h, i));
                if g == h && i == j {
                    assert(map_entries(self.hashes@[g])[j].0 == k2);
                    assert(map_entries(self.hashes@[h])[i].0 == k);
                }
            }
        }
    }

    /// Maps `key` to `cell` in the key map of record `h`.
    fn insert_key(&mut self, h: usize, key: String, cell: usize)
        requires
            old(self).wf(),
            h < old(self).hashes@.len(),
            (cell as int) < old(self).cells@.len(),
            forall|g: int, i: int| #[trigger] is_field(old(self).hashes@, g, i) ==> cell_of(old(self).hashes@, g, i) != cell,
        ensures
            forall|g: int| 0 <= g < old(self).hashes@.len() && g != h ==> #[trigger] final(self).hashes@[g] == old(self).hashes@[g],
            match key_position(map_entries(old(self).hashes@[h as int]), key@) {
                Some(i) => map_entries(final(self).hashes@[h as int]) == map_entries(old(self).hashes@[h as int]).update(i, (key@, cell)),
                None => map_entries(final(self).hashes@[h as int]) == map_entries(old(self).hashes@[h as int]).push((key@, cell)),
            },
            final(self).wf(),
            final(self).hashes@.len() == old(self).hashes@.len(),
            final(self).stack == old(self).stack,
            final(self).sp == old(self).sp,
            final(self).frame == old(self).frame,
            final(self).frames == old(self).frames,
            final(self).globals == old(self).globals,
            final(self).constants == old(self).constants,
            final(self).arrays == old(self).arrays,
            final(self).cells == old(self).cells,
            key_cell(final(self).hashes@[h as int], key@) == Some(cell),
    {
        let mut m = map_new();
        std::mem::swap(&mut m, &mut self.hashes[h]);
        assert(distinct_keys(map_entries(old(self).hashes@[h as int])));
        let ghost e0 = map_entries(m);
        let ghost k = key@;
        map_insert(&mut m, key, cell);
        proof {
            let e1 = map_entries(m);
            match key_position(e0, k) {
                Some(i) => {
                    assert(e1[i].0 == k);
                    lemma_key_position_at(e1, i);
                },
                None => {
                    lemma_key_position_push(e0, k, cell);
                },
            }
        }
        std::mem::swap(&mut m, &mut self.hashes[h]);
        proof {
            assert forall|g: int| 0 <= g < self.hashes@.len() implies distinct_keys(map_entries(#[trigger] self.hashes@[g])) by {
                if g != h {
                    assert(self.hashes@[g] == old(self).hashes@[g]);
                }
            }
            let ohs = old(self).hashes@;
            let hs = self.hashes@;
            let e1 = map_entries(hs[h as int]);
            let fresh = match key_position(e0, k) { Some(i) => i, None => e0.len() as int };
            assert forall|g: int, i: int| #[trigger] is_field(hs, g, i) implies
                (g == h && i == fresh && cell_of(hs, g, i) == cell)
                || (is_field(ohs, g, i) && cell_of(hs, g, i) == cell_of(ohs, g, i)) by {
                if g != h {
                    assert(hs[g] == ohs[g]);
                } else if i != fresh {
                    assert(e1[i] == e0[i]);
                }
            }
        }
    }

    /// A copy of the value stored under `key` in record `h`, if any.
    fn hash_get(&self, h: usize, key: &str) -> (r: Result<Option<Object>, String>)
        requires
            self.wf(),
        ensures
            r is Ok <==> h < self.hashes@.len(),
            r matches Err(m) ==> m@ == "Invalid record reference"@,
            r matches Ok(o) ==> match self.record_value(h as int, key@) {
                Some(v) => o matches Some(x) && same_object(v, x),
                None => o is None,
            },
    {
        if h >= self.hashes.len() {
            return Err(owned("Invalid record reference"));
        }
        match map_get(&self.hashes[h], key) {
            Some(cell) => {
                if cell < self.cells.len() {
                    Ok(Some(self.cells[cell].duplicate()))
                } else {
                    Ok(None)
                }
            },
            None => Ok(None),
        }
    }
}


impl VM {
    /// How a value is shown, `fuel` levels deep: a number as `numbers`
    /// writes it, a string in quotes, an atom after `:`, arrays, records and
    /// tuples with their parts; `...` past the depth.
    pub closed spec fn shown<F: Fn(NumQuery) -> NumReply>(&self, o: Object, fuel: nat, numbers: F) -> Seq<char>
        decreases fuel, 0nat, 0nat,
    {
        if fuel == 0 {
            "..."@
        } else {
            match o {
                Object::Number(b) => number_text(numbers, b),
                Object::String(s) => "\""@ + s@ + "\""@,
                Object::Atom(s) => ":"@ + s@,
                Object::Array(id) => if (id as int) < self.arrays@.len() {
                    "["@ + self.shown_list(self.arrays@[id as int]@, (fuel - 1) as nat, numbers) + "]"@
                } else {
                    "[]"@
                },
                Object::Hash(id) => if (id as int) < self.hashes@.len() {
                    "{ "@ + self.shown_entries(map_entries(self.hashes@[id as int]), (fuel - 1) as nat, numbers) + " }"@
                } else {
                    "{  }"@
                },
                Object::Native(_) => "<native fn>"@,
                Object::CompiledFunction { .. } => "<compiled fn>"@,
                Object::Closure { .. } => "<closure>"@,
                Object::Tuple(xs) => if xs@.len() == 1 {
                    "("@ + self.shown(xs@[0], (fuel - 1) as nat, numbers) + ",)"@
                } else {
                    "("@ + self.shown_list(xs@, (fuel - 1) as nat, numbers) + ")"@
                },
            }
        }
    }

    /// The values shown one after the other, with `, ` between them.
    pub closed spec fn shown_list<F: Fn(NumQuery) -> NumReply>(&self, xs: Seq<Object>, fuel: nat, numbers: F)
        -> Seq<char>
        decreases fuel, 1nat, xs.len(),
    {
        if xs.len() == 0 {
            seq![]
        } else if xs.len() == 1 {
            self.shown(xs[0], fuel, numbers)
        } else {
            self.shown_list(xs.drop_last(), fuel, numbers) + ", "@ + self.shown(xs.last(), fuel, numbers)
        }
    }

    /// The fields of a record shown as `key: value`, with `, ` between them.
    pub closed spec fn shown_entries<F: Fn(NumQuery) -> NumReply>(&self, es: Seq<(Seq<char>, usize)>, fuel: nat,
        numbers: F) -> Seq<char>
        decreases fuel, 1nat, es.len(),
    {
        if es.len() == 0 {
            seq![]
        } else {
            let c = es.last().1;
            let v = if (c as int) < self.cells@.len() { self.shown(self.cells@[c as int], fuel, numbers) } else { ":null"@ };
            let pair = es.last().0 + ": "@ + v;
            if es.len() == 1 { pair } else { self.shown_entries(es.drop_last(), fuel, numbers) + ", "@ + pair }
        }
    }

    /// A value as `{:?}` writes it: a number as `{}` writes it, a string in
    /// quotes, an atom after `:`, arrays, records and tuples with their
    /// parts. `fuel` bounds the depth; past it, `...` stands for a part.
    fn debug_text<F: Fn(NumQuery) -> NumReply>(&self, obj: &Object, numbers: &F, fuel: usize) -> (r: String)
        requires
            forall|x: NumQuery| call_requires(*numbers, (x,)),
        ensures
            shows_numbers_once(*numbers) ==> r@ == self.shown(*obj, fuel as nat, *numbers),
        decreases fuel, 0nat,
    {
        if fuel == 0 {
            return owned("...");
        }
        match obj {
            Object::Number(b) => ask_text(numbers, *b),
            Object::String(s) => join3("\"", s.as_str(), "\""),
            Object::Atom(s) => join2(":", s.as_str()),
            Object::Array(id) => {
                if *id >= self.arrays.len() {
                    return owned("[]");
                }
                let items = self.list_text(&self.arrays[*id], numbers, fuel - 1);
                join3("[", items.as_str(), "]")
            },
            Object::Hash(id) => {
                if *id >= self.hashes.len() {
                    return owned("{  }");
                }
                let m = &self.hashes[*id];
                let n = map_len(m);
                let mut out = String::new();
                let mut i: usize = 0;
                let ghost es = map_entries(*m);
                while i < n
                    invariant
                        i <= n,
                        n == map_entries(*m).len(),
                        es == map_entries(*m),
                        fuel > 0,
                        forall|x: NumQuery| call_requires(*numbers, (x,)),
                        shows_numbers_once(*numbers) ==> out@ == self.shown_entries(es.take(i as int), (fuel - 1) as nat, *numbers),
                    decreases n - i,
                {
                    let (k, cell) = map_entry(m, i);
                    let v = if cell < self.cells.len() {
                        self.debug_text(&self.cells[cell], numbers, fuel - 1)
                    } else {
                        owned(":null")
                    };
                    let pair = join3(k.as_str(), ": ", v.as_str());
                    proof {
                        assert(es.take(i as int + 1).drop_last() =~= es.take(i as int));
                        assert(es.take(i as int + 1).last() == es[i as int]);
                    }
                    out = if i == 0 { pair } else { join3(out.as_str(), ", ", pair.as_str()) };
                    i += 1;
                }
                proof { assert(es.take(n as int) =~= es); }
                join3("{ ", out.as_str(), " }")
            },
            Object::Native(_) => owned("<native fn>"),
            Object::CompiledFunction { .. } => owned("<compiled fn>"),
            Object::Closure { .. } => owned("<closure>"),
            Object::Tuple(xs) => {
                if xs.len() == 1 {
                    let t = self.debug_text(&xs[0], numbers, fuel - 1);
                    join3("(", t.as_str(), ",)")
                } else {
                    let items = self.list_text(xs, numbers, fuel - 1);
                    join3("(", items.as_str(), ")")
                }
            },
        }
    }

    /// The values of a list as `{:?}` writes them, joined by `, `.
    fn list_text<F: Fn(NumQuery) -> NumReply>(&self, xs: &Vec<Object>, numbers: &F, fuel: usize) -> (r: String)
        requires
            forall|x: NumQuery| call_requires(*numbers, (x,)),
        ensures
            shows_numbers_once(*numbers) ==> r@ == self.shown_list(xs@, fuel as nat, *numbers),
        decreases fuel, 1nat,
    {
        let mut out = String::new();
        let mut i: usize = 0;
        while i < xs.len()
            invariant
                i <= xs@.len(),
                forall|x: NumQuery| call_requires(*numbers, (x,)),
                shows_numbers_once(*numbers) ==> out@ == self.shown_list(xs@.take(i as int), fuel as nat, *numbers),
            decreases xs@.len() - i,
        {
            let t = self.debug_text(&xs[i], numbers, fuel);
            proof {
                assert(xs@.take(i as int + 1).drop_last() =~= xs@.take(i as int));
                assert(xs@.take(i as int + 1).last() == xs@[i as int]);
                if i == 0 {
                    assert(xs@.take(1)[0] == xs@[0]);
                }
            }
            out = if i == 0 { t } else { join3(out.as_str(), ", ", t.as_str()) };
            i += 1;
        }
        proof { assert(xs@.take(xs@.len() as int) =~= xs@); }
        out
    }

    /// The key under which a value stores in a record: the text of a
    /// string or an atom, or else the value as `{:?}` writes it.
    fn to_key_string<F: Fn(NumQuery) -> NumReply>(&self, obj: &Object, numbers: &F) -> (r: String)
        requires
            forall|x: NumQuery| call_requires(*numbers, (x,)),
        ensures
            obj matches Object::String(s) ==> r@ == s@,
            obj matches Object::Atom(s) ==> r@ == s@,
            !(obj is String || obj is Atom) && shows_numbers_once(*numbers) ==>
                r@ == self.shown(*obj, usize::MAX as nat, *numbers),
    {
        match obj {
            Object::String(s) => s.clone(),
            Object::Atom(s) => s.clone(),
            _ => self.debug_text(obj, numbers, usize::MAX),
        }
    }

    /// A new array of strings.
    fn new_string_array(&mut self, parts: Vec<String>) -> (id: usize)
        requires
            old(self).wf(),
        ensures
            final(self).wf(),
            final(self).stack == old(self).stack,
            final(self).sp == old(self).sp,
            final(self).frame == old(self).frame,
            final(self).frames == old(self).frames,
            final(self).globals == old(self).globals,
            final(self).constants == old(self).constants,
            final(self).hashes == old(self).hashes,
            final(self).cells == old(self).cells,
            id == old(self).arrays@.len(),
            final(self).arrays_view().len() == old(self).arrays_view().len() + 1,
            final(self).arrays_view().take(id as int) == old(self).arrays_view(),
            final(self).arrays_view()[id as int].len() == parts@.len(),
            forall|i: int| 0 <= i < parts@.len() ==>
                (#[trigger] final(self).arrays_view()[id as int][i] matches Object::String(s) && s@ == parts@[i]@),
    {
        let mut items: Vec<Object> = Vec::new();
        let mut i: usize = 0;
        while i < parts.len()
            invariant
                i <= parts@.len(),
                items@.len() == i,
                forall|k: int| 0 <= k < i ==> (#[trigger] items@[k] matches Object::String(s) && s@ == parts@[k]@),
            decreases parts@.len() - i,
        {
            items.push(Object::String(parts[i].clone()));
            i += 1;
        }
        let ghost before = *self;
        let id = self.new_array(items);
        proof {
            assert(self.arrays_view().take(id as int) =~= before.arrays_view());
            assert(self.arrays_view()[id as int] == items@);
        }
        id
    }

    /// A new array of the keys of record `h`, in the record's order.
    fn keys_array(&mut self, h: usize) -> (r: Result<usize, String>)
        requires
            old(self).wf(),
        ensures
            final(self).wf(),
            final(self).stack == old(self).stack,
            final(self).sp == old(self).sp,
            final(self).frame == old(self).frame,
            final(self).frames == old(self).frames,
            final(self).globals == old(self).globals,
            final(self).constants == old(self).constants,
            r is Ok <==> h < old(self).record_count(),
            r matches Err(m) ==> m@ == "Invalid record reference"@,
            r matches Ok(id) ==> id == old(self).arrays_view().len()
                && final(self).arrays_view().len() == old(self).arrays_view().len() + 1
                && final(self).arrays_view().take(id as int) == old(self).arrays_view()
                && final(self).arrays_view()[id as int].len() == old(self).record_keys(h as int).len()
                && forall|i: int| 0 <= i < old(self).record_keys(h as int).len() ==>
                    (#[trigger] final(self).arrays_view()[id as int][i] matches Object::String(s)
                    && s@ == old(self).record_keys(h as int)[i]),
    {
        let keys = self.hash_keys(h)?;
        Ok(self.new_string_array(keys))
    }

    /// Runs a library function on its arguments (the receiver first).
    fn call_native<F: Fn(NumQuery) -> NumReply, P: Fn(String)>(&mut self, f: NativeFn, args: Vec<Object>,
        numbers: &F, print: &P) -> (r: Object)
        requires
            old(self).wf(),
            forall|x: NumQuery| call_requires(*numbers, (x,)),
            forall|x: String| call_requires(*print, (x,)),
        ensures
            final(self).wf(),
            final(self).stack == old(self).stack,
            final(self).sp == old(self).sp,
            final(self).frame == old(self).frame,
            final(self).frames == old(self).frames,
            final(self).globals == old(self).globals,
            final(self).constants == old(self).constants,
            native_result(f, args@, *old(self), *final(self), r),
            f == NativeFn::StringLen && !(args@.len() >= 1 && args@[0] is String) ==> r == Object::Number(0),
            f == NativeFn::ArrayLen ==> if args@.len() >= 1 && args@[0] is Array
                && (args@[0]->Array_0 as int) < old(self).arrays_view().len() {
                exists|rep: NumReply| call_ensures(*numbers, (NumQuery::FromCount(
                    old(self).arrays_view()[args@[0]->Array_0 as int].len() as usize),), rep)
                    && r == Object::Number(reply_number(rep))
            } else {
                r == Object::Number(0)
            },
            (f == NativeFn::NumberRound || f == NativeFn::NumberFloor || f == NativeFn::NumberCeil) ==> (
                if args@.len() >= 1 && args@[0] is Number {
                    let b = args@[0]->Number_0;
                    let q = if f == NativeFn::NumberRound {
                        NumQuery::Round(b)
                    } else if f == NativeFn::NumberFloor {
                        NumQuery::Floor(b)
                    } else {
                        NumQuery::Ceil(b)
                    };
                    exists|rep: NumReply| call_ensures(*numbers, (q,), rep) && r == Object::Number(reply_number(rep))
                } else {
                    r == Object::Number(0)
                }),
            f == NativeFn::StringLen && args@.len() >= 1 && args@[0] is String ==> exists|rep: NumReply|
                call_ensures(*numbers, (NumQuery::FromCount(
                    vstd::utf8::encode_utf8(args@[0]->String_0@).len() as usize),), rep)
                    && r == Object::Number(reply_number(rep)),
            f == NativeFn::NumberToString && args@.len() >= 1 && args@[0] is Number
                && shows_numbers_once(*numbers) ==> (r matches Object::String(t)
                    && t@ == number_text(*numbers, args@[0]->Number_0)),
            f == NativeFn::ArrayPush && args@.len() >= 2 && args@[0] is Array
                && (args@[0]->Array_0 as int) < old(self).arrays_view().len() ==> exists|rep: NumReply|
                call_ensures(*numbers, (NumQuery::FromCount(
                    (old(self).arrays_view()[args@[0]->Array_0 as int].len() + 1) as usize),), rep)
                    && r == Object::Number(reply_number(rep)),
            f == NativeFn::ArrayJoin && args@.len() >= 2 && args@[0] is Array
                && (args@[0]->Array_0 as int) < old(self).arrays_view().len() && args@[1] is String
                && (forall|k: int| 0 <= k < old(self).arrays_view()[args@[0]->Array_0 as int].len() ==> {
                    let o = #[trigger] old(self).arrays_view()[args@[0]->Array_0 as int][k];
                    o is String || o is Atom
                }) ==> (r matches Object::String(t)
                    && t@ == joined(old(self).arrays_view()[args@[0]->Array_0 as int], args@[1]->String_0@)),
    {
        let n = args.len();
        match f {
            NativeFn::Print => {
                let mut line = String::new();
                let mut i: usize = 0;
                while i < n
                    invariant
                        i <= n,
                        n == args@.len(),
                        forall|x: NumQuery| call_requires(*numbers, (x,)),
                    decreases n - i,
                {
                    let piece = match &args[i] {
                        Object::String(s) => s.clone(),
                        other => self.debug_text(other, numbers, usize::MAX),
                    };
                    line = join2(line.as_str(), piece.as_str());
                    i += 1;
                }
                print(line);
                atom("null")
            },
            NativeFn::StringSplit => {
                if n >= 2 {
                    if let (Object::String(s), Object::String(sep)) = (&args[0], &args[1]) {
                        let parts = split_text(s.as_str(), sep.as_str());
                        let id = self.new_string_array(parts);
                        return Object::Array(id);
                    }
                }
                atom("null")
            },
            NativeFn::StringLen => {
                if n >= 1 {
                    if let Object::String(s) = &args[0] {
                        let len = s.as_str().len();
                        return Object::Number(ask_number(numbers, NumQuery::FromCount(len)));
                    }
                }
                Object::Number(0)
            },
            NativeFn::StringTrim | NativeFn::StringToUpper | NativeFn::StringToLower => {
                if n >= 1 {
                    if let Object::String(s) = &args[0] {
                        let t = match f {
                            NativeFn::StringTrim => trim_text(s.as_str()),
                            NativeFn::StringToUpper => to_upper_text(s.as_str()),
                            _ => to_lower_text(s.as_str()),
                        };
                        return Object::String(t);
                    }
                }
                atom("null")
            },
            NativeFn::ArrayPush => {
                if n >= 2 {
                    if let Object::Array(id) = &args[0] {
                        let id = *id;
                        if id < self.arrays.len() {
                            let v = args[1].duplicate();
                            let ghost vg = v;
                            let ghost before = *self;
                            let mut items: Vec<Object> = Vec::new();
                            std::mem::swap(&mut items, &mut self.arrays[id]);
                            items.push(v);
                            let len = items.len();
                            std::mem::swap(&mut items, &mut self.arrays[id]);
                            proof {
                                let old_a = before.arrays_view();
                                assert(self.arrays@[id as int]@ == old_a[id as int].push(vg));
                                assert forall|a: int| 0 <= a < old_a.len() && a != id
                                    implies #[trigger] self.arrays_view()[a] == old_a[a] by {
                                    assert(self.arrays@[a] == before.arrays@[a]);
                                }
                                assert(self.arrays_view()[id as int].take(old_a[id as int].len() as int) =~= old_a[id as int]);
                            }
                            return Object::Number(ask_number(numbers, NumQuery::FromCount(len)));
                        }
                    }
                }
                atom("null")
            },
            NativeFn::ArrayPop => {
                if n >= 1 {
                    if let Object::Array(id) = &args[0] {
                        let id = *id;
                        if id < self.arrays.len() {
                            let ghost before = *self;
                            let mut items: Vec<Object> = Vec::new();
                            std::mem::swap(&mut items, &mut self.arrays[id]);
                            let last = items.pop();
                            std::mem::swap(&mut items, &mut self.arrays[id]);
                            proof {
                                let old_a = before.arrays_view();
                                if old_a[id as int].len() > 0 {
                                    assert(self.arrays_view() =~= old_a.update(id as int, old_a[id as int].drop_last()));
                                } else {
                                    assert(self.arrays_view() =~= old_a);
                                }
                            }
                            return match last {
                                Some(v) => v,
                                None => atom("null"),
                            };
                        }
                    }
                }
                atom("null")
            },
            NativeFn::ArrayLen => {
                if n >= 1 {
                    if let Object::Array(id) = &args[0] {
                        if *id < self.arrays.len() {
                            let len = self.arrays[*id].len();
                            return Object::Number(ask_number(numbers, NumQuery::FromCount(len)));
                        }
                    }
                }
                Object::Number(0)
            },
            NativeFn::ArrayJoin => {
                if n >= 2 {
                    if let (Object::Array(id), Object::String(sep)) = (&args[0], &args[1]) {
                        if *id < self.arrays.len() {
                            let items = &self.arrays[*id];
                            let ghost plain = forall|k: int| 0 <= k < items@.len() ==> {
                                let o = #[trigger] items@[k];
                                o is String || o is Atom
                            };
                            let mut out = String::new();
                            let mut i: usize = 0;
                            while i < items.len()
                                invariant
                                    i <= items@.len(),
                                    forall|x: NumQuery| call_requires(*numbers, (x,)),
                                    plain == forall|k: int| 0 <= k < items@.len() ==> {
                                        let o = #[trigger] items@[k];
                                        o is String || o is Atom
                                    },
                                    plain ==> out@ == joined(items@.take(i as int), sep@),
                                decreases items@.len() - i,
                            {
                                proof {
                                    assert(items@.take(i as int + 1).drop_last() =~= items@.take(i as int));
                                    assert(items@.take(i as int + 1).last() == items@[i as int]);
                                    if i == 0 { assert(items@.take(1).len() == 1); }
                                }
                                let t = match &items[i] {
                                    Object::String(s) => s.clone(),
                                    Object::Number(b) => ask_text(numbers, *b),
                                    Object::Atom(a) => a.clone(),
                                    other => self.debug_text(other, numbers, usize::MAX),
                                };
                                out = if i == 0 { t } else { join3(out.as_str(), sep.as_str(), t.as_str()) };
                                i += 1;
                            }
                            proof {
                                assert(items@.take(items@.len() as int) =~= items@);
                                assert(old(self).arrays_view()[*id as int] == items@);
                            }
                            return Object::String(out);
                        }
                    }
                }
                Object::String(String::new())
            },
            NativeFn::NumberToString => {
                if n >= 1 {
                    if let Object::Number(b) = &args[0] {
                        return Object::String(ask_text(numbers, *b));
                    }
                }
                atom("null")
            },
            NativeFn::NumberAbs => {
                if n >= 1 {
                    if let Object::Number(b) = &args[0] {
                        return Object::Number(*b & 0x7fff_ffff_ffff_ffffu64);
                    }
                }
                Object::Number(0)
            },
            NativeFn::NumberRound | NativeFn::NumberFloor | NativeFn::NumberCeil => {
                if n >= 1 {
                    if let Object::Number(b) = &args[0] {
                        let q = match f {
                            NativeFn::NumberRound => NumQuery::Round(*b),
                            NativeFn::NumberFloor => NumQuery::Floor(*b),
                            _ => NumQuery::Ceil(*b),
                        };
                        return Object::Number(ask_number(numbers, q));
                    }
                }
                Object::Number(0)
            },
        }
    }
}


impl VM {
    /// `+ - * /` on the two values on top of the stack: numbers by the
    /// number function, strings joined by `+`.
    fn execute_binary_operation<F: Fn(NumQuery) -> NumReply>(&mut self, op: Opcode, numbers: &F) -> (r: Result<(), String>)
        requires
            old(self).wf(),
            forall|x: NumQuery| call_requires(*numbers, (x,)),
        ensures
            final(self).wf(),
            final(self).frame == old(self).frame,
            final(self).frames == old(self).frames,
            old(self).sp < 2 ==> (r matches Err(m) && m@ == "Stack underflow"@),
            old(self).sp >= 2 ==> {
                let n = old(self).sp as int;
                exists|res: Result<Object, Seq<char>>| {
                    &&& #[trigger] binary_result(*numbers, op, old(self).stack@[n - 2], old(self).stack@[n - 1], res)
                    &&& match res {
                        Ok(v) => r is Ok && final(self).sp == n - 1 && final(self).stack@[n - 2] == v
                            && forall|i: int| 0 <= i < n - 2 ==> #[trigger] final(self).stack@[i] == old(self).stack@[i],
                        Err(m) => r matches Err(e) && e@ == m,
                    }
                }
            },
    {
        let ghost n = self.sp as int;
        let ghost s0 = self.stack@;
        let right = self.pop()?;
        let left = self.pop()?;
        match (&left, &right) {
            (Object::Number(l), Object::Number(r)) => {
                let b = ask_number(numbers, NumQuery::Arith(op, *l, *r));
                let res = self.push(Object::Number(b));
                proof {
                    assert(binary_result(*numbers, op, s0[n - 2], s0[n - 1], Ok(Object::Number(b))));
                }
                return res;
            },
            (Object::String(l), Object::String(r)) => {
                if op == Opcode::OpAdd {
                    let t = join2(l.as_str(), r.as_str());
                    let ghost tv = t;
                    let res = self.push(Object::String(t));
                    proof {
                        assert(binary_result(*numbers, op, s0[n - 2], s0[n - 1], Ok(Object::String(tv))));
                    }
                    return res;
                }
            },
            _ => {},
        }
        proof {
            assert(binary_result(*numbers, op, s0[n - 2], s0[n - 1],
                Err::<Object, Seq<char>>("Unsupported types for binary operation"@)));
        }
        Err(owned("Unsupported types for binary operation"))
    }

    /// `== != > <` on the two values on top of the stack; gives `:true` or
    /// `:false`.
    fn execute_comparison<F: Fn(NumQuery) -> NumReply>(&mut self, op: Opcode, numbers: &F) -> (r: Result<(), String>)
        requires
            old(self).wf(),
            forall|x: NumQuery| call_requires(*numbers, (x,)),
        ensures
            final(self).wf(),
            final(self).frame == old(self).frame,
            final(self).frames == old(self).frames,
            old(self).sp < 2 ==> (r matches Err(m) && m@ == "Stack underflow"@),
            old(self).sp >= 2 ==> {
                let n = old(self).sp as int;
                exists|res: Result<bool, Seq<char>>| {
                    &&& #[trigger] comparison_result(*numbers, op, old(self).stack@[n - 2], old(self).stack@[n - 1], res)
                    &&& match res {
                        Ok(b) => r is Ok && final(self).sp == n - 1 && bool_atom(final(self).stack@[n - 2], b)
                            && forall|i: int| 0 <= i < n - 2 ==> #[trigger] final(self).stack@[i] == old(self).stack@[i],
                        Err(m) => r matches Err(e) && e@ == m,
                    }
                }
            },
    {
        let ghost n = self.sp as int;
        let ghost s0 = self.stack@;
        let right = self.pop()?;
        let left = self.pop()?;
        let result = match (&left, &right) {
            (Object::Number(l), Object::Number(r)) => ask_truth(numbers, NumQuery::Compare(op, *l, *r)),
            (Object::Atom(l), Object::Atom(r)) => {
                if op == Opcode::OpEqual {
                    str_eq(l.as_str(), r.as_str())
                } else if op == Opcode::OpNotEqual {
                    !str_eq(l.as_str(), r.as_str())
                } else {
                    proof {
                        assert(comparison_result(*numbers, op, s0[n - 2], s0[n - 1],
                            Err::<bool, Seq<char>>("Unsupported atom operation"@)));
                    }
                    return Err(owned("Unsupported atom operation"));
                }
            },
            (Object::String(l), Object::String(r)) => {
                if op == Opcode::OpEqual {
                    str_eq(l.as_str(), r.as_str())
                } else if op == Opcode::OpNotEqual {
                    !str_eq(l.as_str(), r.as_str())
                } else {
                    proof {
                        assert(comparison_result(*numbers, op, s0[n - 2], s0[n - 1],
                            Err::<bool, Seq<char>>("Unsupported string operation"@)));
                    }
                    return Err(owned("Unsupported string operation"));
                }
            },
            _ => op == Opcode::OpNotEqual,
        };
        proof {
            assert(comparison_result(*numbers, op, s0[n - 2], s0[n - 1], Ok::<bool, Seq<char>>(result)));
        }
        self.push(if result { atom("true") } else { atom("false") })
    }

    /// `-x` on a number: the same double with its sign flipped.
    fn execute_minus_operator(&mut self) -> (r: Result<(), String>)
        requires
            old(self).wf(),
        ensures
            final(self).wf(),
            final(self).frame == old(self).frame,
            final(self).frames == old(self).frames,
            old(self).sp > 0 ==> match old(self).stack@[old(self).sp - 1] {
                Object::Number(v) => r is Ok && final(self).sp == old(self).sp
                    && final(self).stack@[old(self).sp - 1] == Object::Number(v ^ 0x8000_0000_0000_0000u64),
                _ => r matches Err(m) && m@ == "Negation err"@,
            },
    {
        match self.pop()? {
            Object::Number(v) => self.push(Object::Number(v ^ 0x8000_0000_0000_0000u64)),
            _ => Err(owned("Negation err")),
        }
    }

    /// `!x`: `:false` for a value that counts as true, else `:true`.
    fn execute_bang_operator(&mut self) -> (r: Result<(), String>)
        requires
            old(self).wf(),
        ensures
            final(self).wf(),
            final(self).frame == old(self).frame,
            final(self).frames == old(self).frames,
            old(self).sp > 0 ==> r is Ok && final(self).sp == old(self).sp
                && (final(self).stack@[old(self).sp - 1] matches Object::Atom(a)
                    && a@ == (if truthy(old(self).stack@[old(self).sp - 1]) { "false"@ } else { "true"@ })),
    {
        let obj = self.pop()?;
        let t = is_truthy(&obj);
        self.push(if t { atom("false") } else { atom("true") })
    }

    /// A copy of the constant at `index`.
    fn constant(&self, index: usize) -> (r: Result<Object, String>)
        ensures
            r is Ok <==> index < self.constants@.len(),
            r matches Ok(o) ==> same_object(self.constants@[index as int], o),
            r matches Err(m) ==> m@ == "Constant index out of range"@,
    {
        if index >= self.constants.len() {
            return Err(owned("Constant index out of range"));
        }
        Ok(self.constants[index].duplicate())
    }

    /// Takes `n` values off the stack, in the order they were pushed.
    fn pop_many(&mut self, n: usize) -> (r: Result<Vec<Object>, String>)
        requires
            old(self).wf(),
        ensures
            final(self).wf(),
            final(self).frame == old(self).frame,
            final(self).frames == old(self).frames,
            final(self).stack == old(self).stack,
            final(self).globals == old(self).globals,
            final(self).constants == old(self).constants,
            final(self).arrays == old(self).arrays,
            final(self).hashes == old(self).hashes,
            final(self).cells == old(self).cells,
            r is Ok <==> n <= old(self).sp,
            r matches Err(m) ==> m@ == "Stack underflow"@ && final(self).sp == old(self).sp,
            r matches Ok(v) ==> v@.len() == n && final(self).sp == old(self).sp - n
                && forall|k: int| 0 <= k < n ==> same_object(old(self).stack@[old(self).sp - n + k], #[trigger] v@[k]),
    {
        if n > self.sp {
            return Err(owned("Stack underflow"));
        }
        let start = self.sp - n;
        let mut items: Vec<Object> = Vec::new();
        let mut i: usize = start;
        while i < self.sp
            invariant
                self.wf(),
                start <= i <= self.sp,
                self.sp == old(self).sp,
                start == old(self).sp - n,
                items@.len() == i - start,
                *self == *old(self),
                forall|k: int| 0 <= k < i - start ==> same_object(old(self).stack@[start + k], #[trigger] items@[k]),
            decreases self.sp - i,
        {
            items.push(self.stack[i].duplicate());
            i += 1;
        }
        self.sp = start;
        Ok(items)
    }
}


impl VM {
    /// `after`, with the result `r`, is what `+ - * /` (the opcode `op`)
    /// makes of `self`: the two values on top of the stack replaced by
    /// their result and the next instruction up, or the error.
    pub open spec fn arith_step<F: Fn(NumQuery) -> NumReply>(&self, after: &VM, numbers: F, op: Opcode,
        r: Result<Option<Outcome>, String>) -> bool {
        let depth = self.depth() as int;
        exists|res: Result<Object, Seq<char>>| {
            &&& #[trigger] binary_result(numbers, op, self.stack_view()[depth - 2], self.stack_view()[depth - 1], res)
            &&& match res {
                Ok(v) => (r matches Ok(None)) && after.depth() == depth - 1 && after.ip() == self.ip() + 1
                    && after.code() == self.code() && after.stack_view()[depth - 2] == v,
                Err(m) => r matches Err(e) && e@ == m,
            }
        }
    }

    /// `after`, with the result `r`, is what `== != > <` (the opcode `op`)
    /// makes of `self`: the two values on top of the stack replaced by
    /// `:true` or `:false` and the next instruction up, or the error.
    pub open spec fn compare_step<F: Fn(NumQuery) -> NumReply>(&self, after: &VM, numbers: F, op: Opcode,
        r: Result<Option<Outcome>, String>) -> bool {
        let depth = self.depth() as int;
        exists|res: Result<bool, Seq<char>>| {
            &&& #[trigger] comparison_result(numbers, op, self.stack_view()[depth - 2], self.stack_view()[depth - 1], res)
            &&& match res {
                Ok(b) => (r matches Ok(None)) && after.depth() == depth - 1 && after.ip() == self.ip() + 1
                    && after.code() == self.code() && bool_atom(after.stack_view()[depth - 2], b),
                Err(m) => r matches Err(e) && e@ == m,
            }
        }
    }

    /// `after`, with the result `r`, is `self` with the method that `found`
    /// holds of put in place of the receiver and the receiver pushed after
    /// it, and the next instruction up; or the stack overflowed.
    pub open spec fn pushed_method(&self, after: &VM, r: Result<Option<Outcome>, String>,
        found: spec_fn(Object) -> bool) -> bool {
        let depth = self.depth() as int;
        &&& (r is Ok <==> depth < STACK_SIZE)
        &&& r is Ok ==> (r matches Ok(None)) && after.depth() == depth + 1 && after.ip() == self.ip() + 3
            && after.code() == self.code() && found(after.stack_view()[depth - 1])
            && after.stack_view()[depth] == self.stack_view()[depth - 1]
    }

    /// Runs the instruction at the instruction pointer. Gives `Some` when
    /// the machine has to stop: at an import.
    #[verifier::spinoff_prover]
    #[verifier::rlimit(40)]
    fn step<F: Fn(NumQuery) -> NumReply, P: Fn(String)>(&mut self, numbers: &F, print: &P)
        -> (r: Result<Option<Outcome>, String>)
        requires
            old(self).wf(),
            forall|x: NumQuery| call_requires(*numbers, (x,)),
            forall|x: String| call_requires(*print, (x,)),
        ensures
            final(self).wf(),
            r matches Ok(Some(o)) ==> o is Import,
            step_effect(old(self), final(self), r, *numbers),
            old(self).ip() < old(self).code().len() && (opcode_of_byte(old(self).code()[old(self).ip() as int])
                == Some(Opcode::OpConstant) || opcode_of_byte(old(self).code()[old(self).ip() as int]) == Some(Opcode::OpPop))
                ==> final(self).constants_view() == old(self).constants_view(),
    {
        let byte = self.read_u8()?;
        let op = match Opcode::from_byte(byte as u8) {
            Some(op) => op,
            None => { return Err(join2("Unknown Opcode: ", decimal_string(byte).as_str())); },
        };
        match op {
            Opcode::OpConstant => {
                let const_index = self.read_u16()?;
                let c = self.constant(const_index)?;
                self.push(c)?;
            },
            Opcode::OpSetGlobal => {
                let global_index = self.read_u16()?;
                let v = self.peek(0)?;
                self.globals.set(global_index, v);
            },
            Opcode::OpGetGlobal => {
                let global_index = self.read_u16()?;
                let v = self.globals[global_index].duplicate();
                self.push(v)?;
            },
            Opcode::OpSetLocal => {
                let local_idx = self.read_u8()?;
                let slot = self.local_slot(local_idx)?;
                let v = self.peek(0)?;
                self.stack.set(slot, v);
            },
            Opcode::OpGetLocal => {
                let local_idx = self.read_u8()?;
                let slot = self.local_slot(local_idx)?;
                let v = self.stack[slot].duplicate();
                self.push(v)?;
            },
            Opcode::OpClosure => {
                let const_idx = self.read_u16()?;
                let num_free = self.read_u8()?;
                let free = self.pop_many(num_free)?;
                let func = self.constant(const_idx)?;
                self.push(Object::Closure { func: Box::new(func), free })?;
            },
            Opcode::OpGetFree => {
                let free_idx = self.read_u8()?;
                if free_idx >= self.frame.free.len() {
                    return Err(owned("Free variable index out of range"));
                }
                let v = self.frame.free[free_idx].duplicate();
                self.push(v)?;
            },
            Opcode::OpSetFree => {
                let free_idx = self.read_u8()?;
                if free_idx >= self.frame.free.len() {
                    return Err(owned("Free variable index out of range"));
                }
                let v = self.peek(0)?;
                self.frame.free.set(free_idx, v);
            },
            Opcode::OpJump => {
                let pos = self.read_u16()?;
                self.frame.ip = pos;
            },
            Opcode::OpJumpNotTruthy => {
                let pos = self.read_u16()?;
                let condition = self.pop()?;
                if !is_truthy(&condition) {
                    self.frame.ip = pos;
                }
            },
            Opcode::OpCall => {
                let num_args = self.read_u8()?;
                self.execute_call(num_args, numbers, print)?;
            },
            Opcode::OpReturnValue => {
                let return_value = self.pop()?;
                if self.frames.len() == 0 || self.frame.bp == 0 || self.frame.bp > STACK_SIZE {
                    return Err(owned("Return outside of a function"));
                }
                self.sp = self.frame.bp - 1;
                self.push(return_value)?;
                let caller = self.frames.pop().unwrap();
                self.frame = caller;
            },
            Opcode::OpArray => {
                let num_elements = self.read_u16()?;
                let items = self.pop_many(num_elements)?;
                let id = self.new_array(items);
                self.push(Object::Array(id))?;
            },
            Opcode::OpHash => {
                let num_pairs = self.read_u16()?;
                self.make_record(num_pairs, numbers)?;
            },
            Opcode::OpArrayLen => {
                let arr_obj = self.pop()?;
                match arr_obj {
                    Object::Array(id) => {
                        let len = self.array_len(id)?;
                        self.push(Object::Number(ask_number(numbers, NumQuery::FromCount(len))))?;
                    },
                    _ => { return Err(owned("Expected array for length check")); },
                }
            },
            Opcode::OpHashKeys => {
                let hash_obj = self.pop()?;
                match hash_obj {
                    Object::Hash(h) => {
                        let id = self.keys_array(h)?;
                        self.push(Object::Array(id))?;
                    },
                    _ => { return Err(owned("Expected hash for keys extraction")); },
                }
            },
            Opcode::OpIndex => {
                let index = self.pop()?;
                let left = self.pop()?;
                let val = self.index_value(&left, &index, numbers)?;
                self.push(val)?;
            },
            Opcode::OpSetIndex => {
                let value = self.pop()?;
                let index = self.pop()?;
                let left = self.pop()?;
                let ghost before = *self;
                self.set_index(&left, &index, &value, numbers)?;
                let ghost mid = *self;
                self.push(value)?;
                proof {
                    assert forall|g: int, k2: Seq<char>| 0 <= g < old(self).record_count() implies
                        #[trigger] self.record_value(g, k2) == mid.record_value(g, k2)
                        && before.record_value(g, k2) == old(self).record_value(g, k2) by {}
                }
            },
            Opcode::OpGetMethod => {
                let const_idx = self.read_u16()?;
                let method_name = self.constant(const_idx)?;
                let obj = self.pop()?;
                let method_key = self.to_key_string(&method_name, numbers);
                let func = match &obj {
                    Object::Hash(h) => match self.hash_get(*h, method_key.as_str())? {
                        Some(v) => v,
                        None => atom("null"),
                    },
                    Object::String(_) => get_string_method(method_key.as_str()),
                    Object::Array(_) => get_array_method(method_key.as_str()),
                    Object::Number(_) => get_number_method(method_key.as_str()),
                    _ => {
                        let t = self.debug_text(&obj, numbers, usize::MAX);
                        return Err(join2("Method calls not supported on this type: ", t.as_str()));
                    },
                };
                let is_null = match &func {
                    Object::Atom(s) => str_eq(s.as_str(), "null"),
                    _ => false,
                };
                if is_null {
                    return Err(join3("Method '", method_key.as_str(), "' not found on object"));
                }
                self.push(func)?;
                self.push(obj)?;
            },
            Opcode::OpTuple => {
                let num_elements = self.read_u16()?;
                let items = self.pop_many(num_elements)?;
                self.push(Object::Tuple(items))?;
            },
            Opcode::OpTupleLen => {
                let val = self.pop()?;
                match val {
                    Object::Tuple(elements) => {
                        let b = ask_number(numbers, NumQuery::FromCount(elements.len()));
                        self.push(Object::Number(b))?;
                    },
                    _ => { self.push(Object::Number(MINUS_ONE_BITS))?; },
                }
            },
            Opcode::OpImport => {
                let path_obj = self.pop()?;
                match path_obj {
                    Object::String(path) => { return Ok(Some(Outcome::Import(path))); },
                    _ => { return Err(owned("Import path must be a string")); },
                }
            },
            Opcode::OpAdd | Opcode::OpSub | Opcode::OpMul | Opcode::OpDiv => {
                let ghost before = *self;
                let res = self.execute_binary_operation(op, numbers);
                match res {
                    Ok(()) => {
                        proof {
                            let n = before.sp as int;
                            if n >= 2 {
                                let w = choose|w: Result<Object, Seq<char>>|
                                    #[trigger] binary_result(*numbers, op, before.stack@[n - 2], before.stack@[n - 1], w)
                                    && match w {
                                        Ok(v) => res is Ok && self.sp == n - 1 && self.stack@[n - 2] == v,
                                        Err(m) => res matches Err(e) && e@ == m,
                                    };
                                assert(binary_result(*numbers, op, old(self).stack_view()[n - 2],
                                    old(self).stack_view()[n - 1], w));
                                assert(old(self).arith_step(self, *numbers, op, Ok(None)));
                            }
                        }
                    },
                    Err(e) => {
                        proof {
                            let n = before.sp as int;
                            if n >= 2 {
                                let w = choose|w: Result<Object, Seq<char>>|
                                    #[trigger] binary_result(*numbers, op, before.stack@[n - 2], before.stack@[n - 1], w)
                                    && match w {
                                        Ok(v) => res is Ok && self.sp == n - 1 && self.stack@[n - 2] == v,
                                        Err(m) => res matches Err(e) && e@ == m,
                                    };
                                assert(binary_result(*numbers, op, old(self).stack_view()[n - 2],
                                    old(self).stack_view()[n - 1], w));
                                assert(old(self).arith_step(self, *numbers, op, Err(e)));
                            }
                        }
                        return Err(e);
                    },
                }
            },
            Opcode::OpEqual | Opcode::OpNotEqual | Opcode::OpGreater | Opcode::OpLess => {
                let ghost before = *self;
                let res = self.execute_comparison(op, numbers);
                match res {
                    Ok(()) => {
                        proof {
                            let n = before.sp as int;
                            if n >= 2 {
                                let w = choose|w: Result<bool, Seq<char>>|
                                    #[trigger] comparison_result(*numbers, op, before.stack@[n - 2], before.stack@[n - 1], w)
                                    && match w {
                                        Ok(b) => res is Ok && self.sp == n - 1 && bool_atom(self.stack@[n - 2], b),
                                        Err(m) => res matches Err(e) && e@ == m,
                                    };
                                assert(comparison_result(*numbers, op, old(self).stack_view()[n - 2],
                                    old(self).stack_view()[n - 1], w));
                                assert(old(self).compare_step(self, *numbers, op, Ok(None)));
                            }
                        }
                    },
                    Err(e) => {
                        proof {
                            let n = before.sp as int;
                            if n >= 2 {
                                let w = choose|w: Result<bool, Seq<char>>|
                                    #[trigger] comparison_result(*numbers, op, before.stack@[n - 2], before.stack@[n - 1], w)
                                    && match w {
                                        Ok(b) => res is Ok && self.sp == n - 1 && bool_atom(self.stack@[n - 2], b),
                                        Err(m) => res matches Err(e) && e@ == m,
                                    };
                                assert(comparison_result(*numbers, op, old(self).stack_view()[n - 2],
                                    old(self).stack_view()[n - 1], w));
                                assert(old(self).compare_step(self, *numbers, op, Err(e)));
                            }
                        }
                        return Err(e);
                    },
                }
            },
            Opcode::OpMinus => { self.execute_minus_operator()?; },
            Opcode::OpBang => { self.execute_bang_operator()?; },
            Opcode::OpPop => { self.pop()?; },
        }
        Ok(None)
    }

    /// A new record holding the key and value pairs of `temp` (keys at
    /// even positions, values after them).
    fn build_hash<F: Fn(NumQuery) -> NumReply>(&mut self, temp: &Vec<Object>, numbers: &F) -> (r: Result<usize, String>)
        requires
            old(self).wf(),
            temp@.len() % 2 == 0,
            forall|x: NumQuery| call_requires(*numbers, (x,)),
        ensures
            final(self).wf(),
            final(self).stack == old(self).stack,
            final(self).sp == old(self).sp,
            final(self).frame == old(self).frame,
            final(self).frames == old(self).frames,
            final(self).globals == old(self).globals,
            final(self).constants == old(self).constants,
            final(self).arrays == old(self).arrays,
            r matches Ok(id) && id == old(self).record_count(),
            final(self).record_count() == old(self).record_count() + 1,
            forall|g: int, k: Seq<char>| 0 <= g < old(self).record_count()
                ==> #[trigger] final(self).record_value(g, k) == old(self).record_value(g, k),
            text_keys(temp@, temp@.len() / 2) ==> forall|k: Seq<char>|
                holds_pair(#[trigger] final(self).record_value(old(self).record_count() as int, k),
                    pair_value(temp@, k, temp@.len() / 2)),
    {
        let id = self.new_hash();
        let ghost orig = *old(self);
        let ghost after_new = *self;
        proof {
            assert forall|g: int, k: Seq<char>| 0 <= g < orig.record_count()
                implies #[trigger] self.record_value(g, k) == orig.record_value(g, k) by {
                assert(self.hashes@[g] == orig.hashes@[g]);
            }
            assert forall|k: Seq<char>| #[trigger] self.record_value(id as int, k) is None by {
                assert(key_position(map_entries(self.hashes@[id as int]), k) is None);
            }
        }
        let mut i: usize = 0;
        while i < temp.len() && temp.len() - i >= 2
            invariant
                self.wf(),
                self.stack == old(self).stack,
                self.sp == old(self).sp,
                self.frame == old(self).frame,
                self.frames == old(self).frames,
                self.globals == old(self).globals,
                self.constants == old(self).constants,
                self.arrays == old(self).arrays,
                i <= temp@.len(),
                i % 2 == 0,
                temp@.len() % 2 == 0,
                id == orig.record_count(),
                self.record_count() == orig.record_count() + 1,
                forall|x: NumQuery| call_requires(*numbers, (x,)),
                forall|g: int, k: Seq<char>| 0 <= g < orig.record_count()
                    ==> #[trigger] self.record_value(g, k) == orig.record_value(g, k),
                text_keys(temp@, temp@.len() / 2) ==> forall|k: Seq<char>|
                    holds_pair(#[trigger] self.record_value(id as int, k), pair_value(temp@, k, (i / 2) as nat)),
            decreases temp@.len() - i,
        {
            let ghost before = *self;
            let key = self.to_key_string(&temp[i], numbers);
            let value = temp[i + 1].duplicate();
            let ghost kv = key@;
            let res = self.hash_insert(id, key, value);
            proof {
                assert(res is Ok);
                assert(i / 2 + 1 == (i + 2) / 2);
                if text_keys(temp@, temp@.len() / 2) {
                    lemma_text_key_at(temp@, temp@.len() / 2, (i / 2) as int);
                    assert(key_text(temp@[i as int]) == Some(kv));
                    assert forall|k: Seq<char>|
                        holds_pair(#[trigger] self.record_value(id as int, k), pair_value(temp@, k, ((i + 2) / 2) as nat)) by {
                        if k != kv {
                            assert(before.record_value(id as int, k) == self.record_value(id as int, k));
                        }
                    }
                }
            }
            i += 2;
        }
        Ok(id)
    }

    /// Replaces the top `2 * n` values of the stack, laid out as key-value
    /// pairs, by a new record that holds them.
    fn make_record<F: Fn(NumQuery) -> NumReply>(&mut self, n: usize, numbers: &F) -> (r: Result<(), String>)
        requires
            old(self).wf(),
            n < 0x10000,
            forall|x: NumQuery| call_requires(*numbers, (x,)),
        ensures
            final(self).wf(),
            final(self).frame == old(self).frame,
            final(self).frames == old(self).frames,
            final(self).constants == old(self).constants,
            final(self).globals == old(self).globals,
            ({
                let depth = old(self).depth() as int;
                let hs = old(self).record_count();
                let laid = old(self).stack_view().subrange(depth - 2 * n, depth);
                &&& 2 * n > depth ==> (r matches Err(m) && m@ == "Stack underflow"@)
                &&& 2 * n <= depth ==> (r is Ok <==> depth - 2 * n < STACK_SIZE)
                &&& 2 * n <= depth && r is Ok ==> final(self).depth() == depth - 2 * n + 1
                    && (final(self).stack_view()[depth - 2 * n] matches Object::Hash(id) && id == hs)
                    && final(self).record_count() == hs + 1
                    && (forall|g: int, k: Seq<char>| 0 <= g < hs
                        ==> #[trigger] final(self).record_value(g, k) == old(self).record_value(g, k))
                    && (text_keys(laid, n as nat) ==> forall|k: Seq<char>|
                        holds_pair(#[trigger] final(self).record_value(hs as int, k), pair_value(laid, k, n as nat)))
            }),
    {
        let temp = self.pop_many(n * 2)?;
        let ghost popped = *self;
        let id = self.build_hash(&temp, numbers)?;
        let ghost built = *self;
        self.push(Object::Hash(id))?;
        proof {
            let depth = old(self).sp as int;
            let laid = old(self).stack_view().subrange(depth - 2 * n, depth);
            assert forall|i: int| 0 <= i < 2 * n implies same_object(#[trigger] laid[i], temp@[i]) by {
                assert(laid[i] == old(self).stack@[depth - 2 * n + i]);
            }
            assert forall|k: Seq<char>| text_keys(laid, n as nat) implies
                holds_pair(#[trigger] self.record_value(id as int, k), pair_value(laid, k, n as nat)) by {
                lemma_pairs_copied(laid, temp@, n as nat, k);
                assert(temp@.len() / 2 == n as nat);
                assert(text_keys(temp@, temp@.len() / 2));
                assert(id as int == popped.record_count());
                assert(holds_pair(built.record_value(popped.record_count() as int, k), pair_value(temp@, k, temp@.len() / 2)));
                assert(holds_pair(built.record_value(id as int, k), pair_value(temp@, k, n as nat)));
                assert(self.record_value(id as int, k) == built.record_value(id as int, k));
            }
            assert forall|g: int, k: Seq<char>| 0 <= g < old(self).record_count() implies
                #[trigger] self.record_value(g, k) == built.record_value(g, k)
                && popped.record_value(g, k) == old(self).record_value(g, k) by {}
        }
        Ok(())
    }

    /// The stack slot of local `idx` of the current frame.
    fn local_slot(&self, idx: usize) -> (r: Result<usize, String>)
        ensures
            r is Ok <==> self.frame.bp + idx < STACK_SIZE,
            r matches Ok(slot) ==> slot == self.frame.bp + idx,
            r matches Err(m) ==> m@ == "Local slot out of range"@,
    {
        if self.frame.bp >= STACK_SIZE || idx >= STACK_SIZE - self.frame.bp {
            return Err(owned("Local slot out of range"));
        }
        Ok(self.frame.bp + idx)
    }

    /// The length of array `id`.
    fn array_len(&self, id: usize) -> (r: Result<usize, String>)
        ensures
            r is Ok <==> id < self.arrays@.len(),
            r matches Ok(n) ==> n == self.arrays@[id as int]@.len(),
            r matches Err(m) ==> m@ == "Invalid array reference"@,
    {
        if id >= self.arrays.len() {
            return Err(owned("Invalid array reference"));
        }
        Ok(self.arrays[id].len())
    }

    /// The keys of record `h`, in their order.
    fn hash_keys(&self, h: usize) -> (r: Result<Vec<String>, String>)
        ensures
            r is Ok <==> h < self.hashes@.len(),
            r matches Err(m) ==> m@ == "Invalid record reference"@,
            r matches Ok(ks) ==> ks@.len() == map_entries(self.hashes@[h as int]).len()
                && forall|i: int| 0 <= i < ks@.len() ==> #[trigger] ks@[i]@ == map_entries(self.hashes@[h as int])[i].0,
    {
        if h >= self.hashes.len() {
            return Err(owned("Invalid record reference"));
        }
        let m = &self.hashes[h];
        let n = map_len(m);
        let mut keys: Vec<String> = Vec::new();
        let mut i: usize = 0;
        while i < n
            invariant
                i <= n,
                n == map_entries(*m).len(),
                keys@.len() == i,
                forall|k: int| 0 <= k < i ==> #[trigger] keys@[k]@ == map_entries(*m)[k].0,
            decreases n - i,
        {
            let (k, _) = map_entry(m, i);
            keys.push(k);
            i += 1;
        }
        Ok(keys)
    }

    /// `left[index]`: a record field by its key, an array or tuple element
    /// by a number (`:null` when out of range).
    fn index_value<F: Fn(NumQuery) -> NumReply>(&self, left: &Object, index: &Object, numbers: &F)
        -> (r: Result<Object, String>)
        requires
            self.wf(),
            forall|x: NumQuery| call_requires(*numbers, (x,)),
        ensures
            left matches Object::Hash(h) ==> (key_text(*index) matches Some(k) ==> {
                &&& (r is Ok <==> h < self.record_count())
                &&& r matches Err(m) ==> m@ == "Invalid record reference"@
                &&& r matches Ok(o) ==> match self.record_value(h as int, k) {
                    Some(v) => same_object(v, o),
                    None => o matches Object::Atom(a) && a@ == "null"@,
                }
            }),
            left matches Object::Array(id) ==> match *index {
                Object::Number(b) => if (id as int) < self.arrays_view().len() {
                    r matches Ok(o) && exists|rep: NumReply| call_ensures(*numbers, (NumQuery::Slot(b),), rep)
                        && slot_read(rep, self.arrays_view()[id as int], o)
                } else {
                    r matches Err(m) && m@ == "Invalid array reference"@
                },
                _ => r matches Err(m) && m@ == "Array index must be a number"@,
            },
            left matches Object::Tuple(es) ==> match *index {
                Object::Number(b) => r matches Ok(o) && exists|rep: NumReply|
                    call_ensures(*numbers, (NumQuery::Slot(b),), rep) && slot_read(rep, es@, o),
                _ => r matches Err(m) && m@ == "Tuple index must be a number"@,
            },
            !(left is Hash || left is Array || left is Tuple) ==>
                (r matches Err(m) && m@ == "Index operator not supported on this type"@),
    {
        match left {
            Object::Hash(h) => {
                let key = self.to_key_string(index, numbers);
                match self.hash_get(*h, key.as_str())? {
                    Some(v) => Ok(v),
                    None => Ok(atom("null")),
                }
            },
            Object::Array(id) => {
                match index {
                    Object::Number(b) => {
                        let len = self.array_len(*id)?;
                        let slot = ask_slot(numbers, *b);
                        let (at_least_zero, _, _, i) = slot;
                        let o = if at_least_zero && i < len {
                            self.arrays[*id][i].duplicate()
                        } else {
                            atom("null")
                        };
                        proof {
                            let rep = choose|rep: NumReply| call_ensures(*numbers, (NumQuery::Slot(*b),), rep)
                                && slot == reply_slot(rep);
                            assert(self.arrays_view()[*id as int] == self.arrays@[*id as int]@);
                            assert(slot_read(rep, self.arrays_view()[*id as int], o));
                        }
                        Ok(o)
                    },
                    _ => Err(owned("Array index must be a number")),
                }
            },
            Object::Tuple(elements) => {
                match index {
                    Object::Number(b) => {
                        let slot = ask_slot(numbers, *b);
                        let (at_least_zero, _, _, i) = slot;
                        let o = if at_least_zero && i < elements.len() {
                            elements[i].duplicate()
                        } else {
                            atom("null")
                        };
                        proof {
                            let rep = choose|rep: NumReply| call_ensures(*numbers, (NumQuery::Slot(*b),), rep)
                                && slot == reply_slot(rep);
                            assert(slot_read(rep, elements@, o));
                        }
                        Ok(o)
                    },
                    _ => Err(owned("Tuple index must be a number")),
                }
            },
            _ => Err(owned("Index operator not supported on this type")),
        }
    }

    /// `left[index] = value`: sets a record field, or an array element (or
    /// appends one just past the end).
    fn set_index<F: Fn(NumQuery) -> NumReply>(&mut self, left: &Object, index: &Object, value: &Object, numbers: &F)
        -> (r: Result<(), String>)
        requires
            old(self).wf(),
            forall|x: NumQuery| call_requires(*numbers, (x,)),
        ensures
            final(self).wf(),
            final(self).stack == old(self).stack,
            final(self).sp == old(self).sp,
            final(self).frame == old(self).frame,
            final(self).frames == old(self).frames,
            left matches Object::Hash(h) ==> (key_text(*index) matches Some(k) ==> {
                &&& (r is Ok <==> h < old(self).record_count())
                &&& r matches Err(m) ==> m@ == "Invalid record reference"@
                &&& r is Ok ==> (final(self).record_value(h as int, k) matches Some(v) && same_object(*value, v))
                &&& r is Ok ==> forall|g: int, k2: Seq<char>| 0 <= g < old(self).record_count() && (g != h || k2 != k)
                    ==> #[trigger] final(self).record_value(g, k2) == old(self).record_value(g, k2)
            }),
            left matches Object::Array(id) ==> match *index {
                Object::Number(b) => exists|rep: NumReply| {
                    &&& #[trigger] call_ensures(*numbers, (NumQuery::Slot(b),), rep)
                    &&& (reply_slot(rep).1 || !reply_slot(rep).2) ==>
                        (r matches Err(m) && m@ == "Array index must be a positive integer"@)
                    &&& !(reply_slot(rep).1 || !reply_slot(rep).2) && id >= old(self).arrays_view().len() ==>
                        (r matches Err(m) && m@ == "Invalid array reference"@)
                    &&& !(reply_slot(rep).1 || !reply_slot(rep).2) && id < old(self).arrays_view().len() ==> {
                        &&& slot_write(rep, old(self).arrays_view()[id as int], *value,
                            final(self).arrays_view()[id as int], result_text(r))
                        &&& final(self).arrays_view().len() == old(self).arrays_view().len()
                        &&& forall|a: int| 0 <= a < old(self).arrays_view().len() && a != id
                            ==> #[trigger] final(self).arrays_view()[a] == old(self).arrays_view()[a]
                    }
                },
                _ => r matches Err(m) && m@ == "Array index must be a number"@,
            },
            left is Tuple ==> (r matches Err(m) && m@ == "Tuples are immutable"@),
            !(left is Hash || left is Array || left is Tuple) ==>
                (r matches Err(m) && m@ == "Property assignment not supported on this type"@),
    {
        match left {
            Object::Hash(h) => {
                let key = self.to_key_string(index, numbers);
                self.hash_insert(*h, key, value.duplicate())
            },
            Object::Array(id) => {
                match index {
                    Object::Number(b) => {
                        let slot = ask_slot(numbers, *b);
                        let ghost rep = choose|rep: NumReply| call_ensures(*numbers, (NumQuery::Slot(*b),), rep)
                            && slot == reply_slot(rep);
                        let (_, below_zero, integral, i) = slot;
                        if below_zero || !integral {
                            proof { assert(reply_slot(rep).1 || !reply_slot(rep).2); }
                            return Err(owned("Array index must be a positive integer"));
                        }
                        let len = match self.array_len(*id) {
                            Ok(n) => n,
                            Err(e) => {
                                proof { assert(!(reply_slot(rep).1 || !reply_slot(rep).2)); }
                                return Err(e);
                            },
                        };
                        let id = *id;
                        let ghost before = self.arrays_view();
                        if i < len {
                            let mut items: Vec<Object> = Vec::new();
                            std::mem::swap(&mut items, &mut self.arrays[id]);
                            items.set(i, value.duplicate());
                            std::mem::swap(&mut items, &mut self.arrays[id]);
                            proof {
                                assert(self.arrays_view()[id as int] == self.arrays@[id as int]@);
                                assert forall|a: int| 0 <= a < before.len() && a != id
                                    implies #[trigger] self.arrays_view()[a] == before[a] by {
                                    assert(self.arrays@[a] == old(self).arrays@[a]);
                                }
                                assert(slot_write(rep, before[id as int], *value, self.arrays_view()[id as int],
                                    Ok::<(), Seq<char>>(())));
                            }
                            Ok(())
                        } else if i == len {
                            let mut items: Vec<Object> = Vec::new();
                            std::mem::swap(&mut items, &mut self.arrays[id]);
                            items.push(value.duplicate());
                            std::mem::swap(&mut items, &mut self.arrays[id]);
                            proof {
                                assert(self.arrays_view()[id as int] == self.arrays@[id as int]@);
                                assert forall|a: int| 0 <= a < before.len() && a != id
                                    implies #[trigger] self.arrays_view()[a] == before[a] by {
                                    assert(self.arrays@[a] == old(self).arrays@[a]);
                                }
                                assert(slot_write(rep, before[id as int], *value, self.arrays_view()[id as int],
                                    Ok::<(), Seq<char>>(())));
                            }
                            Ok(())
                        } else {
                            proof {
                                assert(slot_write(rep, before[id as int], *value, self.arrays_view()[id as int],
                                    Err::<(), Seq<char>>("Array index out of bounds"@)));
                            }
                            Err(owned("Array index out of bounds"))
                        }
                    },
                    _ => Err(owned("Array index must be a number")),
                }
            },
            Object::Tuple(_) => Err(owned("Tuples are immutable")),
            _ => Err(owned("Property assignment not supported on this type")),
        }
    }

    /// Calls the value below the `num_args` arguments on top of the stack:
    /// a closure gets a new frame; a library function runs at once.
    fn execute_call<F: Fn(NumQuery) -> NumReply, P: Fn(String)>(&mut self, num_args: usize, numbers: &F, print: &P)
        -> (r: Result<(), String>)
        requires
            old(self).wf(),
            forall|x: NumQuery| call_requires(*numbers, (x,)),
            forall|x: String| call_requires(*print, (x,)),
        ensures
            final(self).wf(),
            num_args >= old(self).sp ==> (r matches Err(m) && m@ == "Stack underflow"@),
            num_args < old(self).sp ==> match old(self).stack@[old(self).sp - 1 - num_args] {
                Object::Closure { func, free } => match *func {
                    Object::CompiledFunction { instructions, num_locals, num_parameters } =>
                        if num_parameters != num_args {
                            r matches Err(m) && m@ == "Wrong number of arguments"@
                        } else if num_locals > STACK_SIZE - (old(self).sp - num_args) {
                            r matches Err(m) && m@ == "Stack overflow"@
                        } else {
                            &&& r is Ok
                            &&& final(self).frame.instructions@ == instructions@
                            &&& final(self).frame.ip == 0
                            &&& final(self).frame.bp == old(self).sp - num_args
                            &&& final(self).frame.free@.len() == free@.len()
                            &&& forall|i: int| 0 <= i < free@.len() ==> same_object(free@[i], #[trigger] final(self).frame.free@[i])
                            &&& final(self).frames@ == old(self).frames@.push(old(self).frame)
                            &&& final(self).sp == old(self).sp - num_args + num_locals
                            &&& final(self).stack == old(self).stack
                        },
                    _ => r is Ok && *final(self) == *old(self),
                },
                Object::Native(_) => r is Ok && final(self).sp == old(self).sp - num_args
                    && final(self).frame == old(self).frame && final(self).frames == old(self).frames,
                _ => r matches Err(m) && m@ == "Calling non-function"@,
            },
    {
        let func_obj = self.peek(num_args)?;
        proof { reveal_with_fuel(same_object, 2); }
        match func_obj {
            Object::Closure { func, free } => {
                match *func {
                    Object::CompiledFunction { instructions, num_locals, num_parameters } => {
                        if num_parameters != num_args {
                            return Err(owned("Wrong number of arguments"));
                        }
                        let bp = self.sp - num_args;
                        if num_locals > STACK_SIZE - bp {
                            return Err(owned("Stack overflow"));
                        }
                        let mut callee = Frame { instructions, free, ip: 0, bp };
                        std::mem::swap(&mut callee, &mut self.frame);
                        self.frames.push(callee);
                        self.sp = bp + num_locals;
                    },
                    _ => {},
                }
                Ok(())
            },
            Object::Native(f) => {
                let args = self.pop_many(num_args)?;
                self.pop()?;
                let result = self.call_native(f, args, numbers, print);
                self.push(result)
            },
            _ => Err(owned("Calling non-function")),
        }
    }

    /// Runs instructions until the main code ends, an error occurs, or an
    /// import has to be served. At most `usize::MAX` instructions run per
    /// call.
    #[verifier::spinoff_prover]
    #[verifier::rlimit(40)]
    pub fn run<F: Fn(NumQuery) -> NumReply, P: Fn(String)>(&mut self, numbers: &F, print: &P)
        -> (r: Result<Outcome, String>)
        requires
            old(self).wf(),
            forall|x: NumQuery| call_requires(*numbers, (x,)),
            forall|x: String| call_requires(*print, (x,)),
        ensures
            final(self).wf(),
            r matches Ok(Outcome::Finished) ==> final(self).at_end(),
            old(self).at_end() ==> (r matches Ok(Outcome::Finished))
                && final(self).depth() == (if old(self).depth() > 0 { old(self).depth() - 1 } else { 0 })
                && final(self).code() == old(self).code(),
            exists|trace: Seq<VM>| #[trigger] steps_through(*old(self), trace, *numbers)
                && run_end(trace.last(), *final(self), r, *numbers)
                && (r matches Ok(Outcome::Paused) ==> trace.len() == usize::MAX + 1),
            forall|base: nat, op: Opcode| #[trigger] starts_arith_run(*old(self), base, op)
                ==> r == Ok::<Outcome, String>(Outcome::Finished) && (final(self).last_value() matches Some(Object::Number(b))
                    && exists|rep: NumReply| #[trigger] call_ensures(*numbers, (NumQuery::Arith(op,
                        old(self).constants_view()[base as int]->Number_0,
                        old(self).constants_view()[base + 1int]->Number_0),), rep) && b == reply_number(rep)),
            forall|n: nat, base: nat| #[trigger] starts_number_run(*old(self), n, base)
                ==> r == Ok::<Outcome, String>(Outcome::Finished) && (final(self).last_value() matches Some(v)
                    && same_object(old(self).constants_view()[base + n - 1], v)),
    {
        let mut budget: usize = usize::MAX;
        let ghost mut trace: Seq<VM> = seq![*self];
        let ghost good = exists|n: nat, base: nat| starts_number_run(*old(self), n, base);
        let ghost (gn, gb) = if good {
            choose|n: nat, base: nat| starts_number_run(*old(self), n, base)
        } else {
            (1nat, 0nat)
        };
        let ghost d0 = old(self).depth() as int;
        let ghost mut gj: int = 0;
        let ghost mut mid: bool = false;
        let ghost ag = exists|base: nat, op: Opcode| starts_arith_run(*old(self), base, op);
        let ghost (ab, aop) = if ag {
            choose|base: nat, op: Opcode| starts_arith_run(*old(self), base, op)
        } else {
            (0nat, Opcode::OpAdd)
        };
        let ghost mut ak: int = 0;
        let ghost c0 = old(self).constants_view()[ab as int];
        let ghost c1 = old(self).constants_view()[ab + 1int];
        while self.frame.ip < self.frame.instructions.len()
            invariant
                self.wf(),
                old(self).at_end() ==> *self == *old(self),
                forall|x: NumQuery| call_requires(*numbers, (x,)),
                forall|x: String| call_requires(*print, (x,)),
                steps_through(*old(self), trace, *numbers),
                trace.last() == *self,
                trace.len() + budget == usize::MAX + 1,
                good == exists|n: nat, base: nat| starts_number_run(*old(self), n, base),
                good ==> starts_number_run(*old(self), gn, gb),
                good ==> {
                    &&& self.code() == number_run(gn, gb)
                    &&& self.constants_view() == old(self).constants_view()
                    &&& 0 <= gj < gn
                    &&& !mid ==> self.ip() == 4 * gj && self.depth() == d0
                    &&& mid ==> self.ip() == 4 * gj + 3 && self.depth() == d0 + 1
                        && same_object(old(self).constants_view()[gb + gj], self.stack_view()[d0])
                    &&& budget == usize::MAX - 2 * gj - (if mid { 1int } else { 0int })
                },
                d0 == old(self).depth(),
                ag == exists|base: nat, op: Opcode| starts_arith_run(*old(self), base, op),
                ag ==> starts_arith_run(*old(self), ab, aop),
                c0 == old(self).constants_view()[ab as int],
                c1 == old(self).constants_view()[ab + 1int],
                ag ==> {
                    &&& self.code() == old(self).code()
                    &&& 0 <= ak <= 3
                    &&& budget == usize::MAX - ak
                    &&& ak <= 2 ==> self.ip() == 3 * ak && self.depth() == d0 + ak
                    &&& ak == 3 ==> self.ip() == 7 && self.depth() == d0 + 1
                        && (self.stack_view()[d0] matches Object::Number(b)
                        && exists|rep: NumReply| #[trigger] call_ensures(*numbers, (NumQuery::Arith(aop,
                            c0->Number_0, c1->Number_0),), rep) && b == reply_number(rep))
                    &&& ak <= 1 ==> self.constants_view() == old(self).constants_view()
                    &&& (ak == 1 || ak == 2) ==> same_object(c0, self.stack_view()[d0])
                    &&& ak == 2 ==> same_object(c1, self.stack_view()[d0 + 1])
                },
            decreases budget,
        {
            proof {
                if good {
                    lemma_number_run_layout(gn, gb, gj);
                }
                if ag {
                    lemma_arith_layout(ab, aop);
                }
            }
            if budget == 0 {
                proof {
                    assert(run_end(trace.last(), *self, Ok::<Outcome, String>(Outcome::Paused), *numbers));
                    assert forall|n: nat, base: nat| #[trigger] starts_number_run(*old(self), n, base) implies false by {
                        assert(good);
                    }
                    assert forall|base: nat, op: Opcode| #[trigger] starts_arith_run(*old(self), base, op) implies false by {
                        assert(ag);
                    }
                }
                return Ok(Outcome::Paused);
            }
            budget = budget - 1;
            let ghost before = *self;
            proof { assert(!before.at_end()); }
            let ghost gj0 = gj;
            let ghost mid0 = mid;
            let ghost ak0 = ak;
            let res = self.step(numbers, print);
            proof {
                if ag {
                    if ak0 == 2 {
                        assert(opcode_of_byte(before.code()[before.ip() as int]) == Some(aop));
                        assert(before.stack_view()[d0] matches Object::Number(_));
                        assert(before.stack_view()[d0 + 1] matches Object::Number(_));
                    }
                    ak = ak + 1;
                }
            }
            proof {
                if good {
                    if mid {
                        gj = gj + 1;
                        mid = false;
                    } else {
                        mid = true;
                    }
                }
            }
            match res {
                Err(e) => {
                    proof {
                        assert(run_end(trace.last(), *self, Err::<Outcome, String>(e), *numbers));
                        if good {
                            lemma_number_run_layout(gn, gb, gj0);
                            assert(before.ip() < before.code().len());
                            if mid0 {
                                assert(opcode_of_byte(before.code()[before.ip() as int]) == Some(Opcode::OpPop));
                            } else {
                                assert(opcode_of_byte(before.code()[before.ip() as int]) == Some(Opcode::OpConstant));
                            }
                            assert(false);
                        }
                        assert forall|n: nat, base: nat| #[trigger] starts_number_run(*old(self), n, base) implies false by {
                            assert(good);
                        }
                        if ag {
                            assert(before.ip() < before.code().len());
                            assert(false);
                        }
                        assert forall|base: nat, op: Opcode| #[trigger] starts_arith_run(*old(self), base, op) implies false by {
                            assert(ag);
                        }
                    }
                    return Err(e);
                },
                Ok(Some(o)) => {
                    proof {
                        assert(run_end(trace.last(), *self, Ok::<Outcome, String>(o), *numbers));
                        if ag {
                            assert(false);
                        }
                        assert forall|base: nat, op: Opcode| #[trigger] starts_arith_run(*old(self), base, op) implies false by {
                            assert(ag);
                        }
                    }
                    return Ok(o);
                },
                Ok(None) => {},
            }
            proof {
                lemma_trace_push(*old(self), trace, before, *self, *numbers);
                trace = trace.push(*self);
            }
        }
        let ghost last = *self;
        proof {
            if good {
                lemma_number_run_layout(gn, gb, gj);
                assert(mid && gj == gn - 1);
            }
            if ag {
                lemma_arith_layout(ab, aop);
                assert(ak == 3);
            }
        }
        if self.sp > 0 {
            let top = self.pop();
            match top {
                Ok(v) => { self.last_popped_stack_elem = Some(v); },
                Err(e) => { return Err(e); },
            }
        } else {
            self.last_popped_stack_elem = None;
        }
        proof {
            assert(run_end(trace.last(), *self, Ok::<Outcome, String>(Outcome::Finished), *numbers));
            assert forall|n: nat, base: nat| #[trigger] starts_number_run(*old(self), n, base)
                implies (self.last_value() matches Some(v) && same_object(old(self).constants_view()[base + n - 1], v)) by {
                lemma_number_run_layout(n, base, 0);
                lemma_number_run_layout(gn, gb, 0);
                assert(n == gn);
                assert(base == gb);
            }
            assert forall|base: nat, op: Opcode| #[trigger] starts_arith_run(*old(self), base, op)
                implies (self.last_value() matches Some(Object::Number(b))
                    && exists|rep: NumReply| #[trigger] call_ensures(*numbers, (NumQuery::Arith(op,
                        old(self).constants_view()[base as int]->Number_0,
                        old(self).constants_view()[base + 1int]->Number_0),), rep) && b == reply_number(rep)) by {
                lemma_arith_layout(base, op);
                lemma_arith_layout(ab, aop);
                assert(base == ab);
                assert(op == aop);
            }
        }
        Ok(Outcome::Finished)
    }
}


/// `i` moved up by `off`, if that does not overflow.
pub open spec fn shifted(i: usize, off: usize) -> usize {
    if i + off <= usize::MAX { (i + off) as usize } else { i }
}

/// `b` is `a` with every array reference moved up by `a_off` and every
/// record reference by `h_off`.
pub open spec fn moved(a: Object, b: Object, a_off: usize, h_off: usize) -> bool
    decreases a,
{
    match a {
        Object::Array(i) => b == Object::Array(shifted(i, a_off)),
        Object::Hash(i) => b == Object::Hash(shifted(i, h_off)),
        Object::Closure { func, free } => b matches Object::Closure { func: f2, free: v2 }
            && moved(*func, *f2, a_off, h_off) && free@.len() == v2@.len()
            && forall|k: int| 0 <= k < free@.len() ==> moved(#[trigger] free@[k], v2@[k], a_off, h_off),
        Object::Tuple(xs) => b matches Object::Tuple(ys) && xs@.len() == ys@.len()
            && forall|k: int| 0 <= k < xs@.len() ==> moved(#[trigger] xs@[k], ys@[k], a_off, h_off),
        _ => same_object(a, b),
    }
}

/// `i` moved up by `off`, if that does not overflow.
fn shift(i: usize, off: usize) -> (r: usize)
    ensures
        r == shifted(i, off),
{
    if i <= usize::MAX - off { i + off } else { i }
}

/// A copy of `o` whose array and record slots are moved up by `a_off` and
/// `h_off`.
fn remap(o: &Object, a_off: usize, h_off: usize) -> (r: Object)
    ensures
        moved(*o, r, a_off, h_off),
    decreases o,
{
    match o {
        Object::Array(i) => Object::Array(shift(*i, a_off)),
        Object::Hash(i) => Object::Hash(shift(*i, h_off)),
        Object::Closure { func, free } => {
            let f = remap(func, a_off, h_off);
            Object::Closure { func: Box::new(f), free: remap_list(free, a_off, h_off) }
        },
        Object::Tuple(xs) => Object::Tuple(remap_list(xs, a_off, h_off)),
        _ => o.duplicate(),
    }
}

/// `remap` of each value of a list.
fn remap_list(v: &Vec<Object>, a_off: usize, h_off: usize) -> (r: Vec<Object>)
    ensures
        r@.len() == v@.len(),
        forall|k: int| 0 <= k < v@.len() ==> moved(#[trigger] v@[k], r@[k], a_off, h_off),
    decreases v,
{
    let mut r: Vec<Object> = Vec::new();
    let mut i: usize = 0;
    while i < v.len()
        invariant
            i <= v@.len(),
            r@.len() == i,
            forall|k: int| 0 <= k < i ==> moved(#[trigger] v@[k], r@[k], a_off, h_off),
        decreases v@.len() - i,
    {
        let x = remap(&v[i], a_off, h_off);
        r.push(x);
        i += 1;
    }
    r
}

impl VM {
    /// The value of the module already imported from `path`, if any.
    pub fn cached_module(&self, path: &str) -> (r: Option<Object>)
        ensures
            r is Some <==> assoc(self.modules_view(), path@) is Some,
            r matches Some(v) ==> same_object(assoc(self.modules_view(), path@)->0, v),
    {
        match assoc_position(&self.loaded_modules, path) {
            Some(i) => Some(self.loaded_modules[i].1.duplicate()),
            None => None,
        }
    }

    /// Records the value of the module imported from `path` and pushes it,
    /// as the import's result.
    pub fn finish_import(&mut self, path: String, module: Object) -> (r: Result<(), String>)
        requires
            old(self).wf(),
        ensures
            final(self).wf(),
            r is Ok <==> old(self).depth() < STACK_SIZE,
            r is Ok ==> final(self).depth() == old(self).depth() + 1
                && same_object(module, final(self).stack_view()[old(self).depth() as int]),
            r is Err ==> final(self).depth() == old(self).depth() && final(self).stack_view() == old(self).stack_view(),
            assoc(final(self).modules_view(), path@) == Some(module),
            forall|n: Seq<char>| n != path@ ==> assoc(final(self).modules_view(), n) == assoc(old(self).modules_view(), n),
    {
        let copy = module.duplicate();
        assoc_insert(&mut self.loaded_modules, path, module);
        self.push(copy)
    }

    /// The value `value` of the machine `other`, moved into this machine:
    /// the arrays and records of `other` join this machine's heap, and the
    /// value refers to them there.
    pub fn adopt(&mut self, other: VM, value: &Object) -> (r: Object)
        requires
            old(self).wf(),
            other.wf(),
        ensures
            forall|g: int, k: Seq<char>| 0 <= g < other.record_count() ==>
                match #[trigger] other.record_value(g, k) {
                    Some(v) => final(self).record_value(old(self).record_count() + g, k) matches Some(w)
                        && moved(v, w, old(self).arrays_view().len() as usize, old(self).record_count() as usize),
                    None => final(self).record_value(old(self).record_count() + g, k) is None,
                },
            final(self).wf(),
            final(self).depth() == old(self).depth(),
            final(self).stack_view() == old(self).stack_view(),
            final(self).globals_view() == old(self).globals_view(),
            moved(*value, r, old(self).arrays_view().len() as usize, old(self).record_count() as usize),
            ({
                let n = old(self).arrays_view().len();
                &&& final(self).arrays_view().len() == n + other.arrays_view().len()
                &&& final(self).arrays_view().take(n as int) == old(self).arrays_view()
                &&& forall|j: int, k: int| 0 <= j < other.arrays_view().len() && 0 <= k < other.arrays_view()[j].len()
                    ==> moved(#[trigger] other.arrays_view()[j][k], final(self).arrays_view()[n + j][k],
                        n as usize, old(self).record_count() as usize)
                &&& forall|j: int| 0 <= j < other.arrays_view().len()
                    ==> #[trigger] final(self).arrays_view()[n + j].len() == other.arrays_view()[j].len()
            }),
            final(self).record_count() == old(self).record_count() + other.record_count(),
            forall|h: int, k: Seq<char>| 0 <= h < old(self).record_count() && old(self).record_value(h, k) is Some
                ==> #[trigger] final(self).record_value(h, k) == old(self).record_value(h, k),
    {
        let a_off = self.arrays.len();
        let h_off = self.hashes.len();
        let c_off = self.cells.len();
        let mut i: usize = 0;
        while i < other.arrays.len()
            invariant
                self.wf(),
                self.stack == old(self).stack,
                self.sp == old(self).sp,
                self.globals == old(self).globals,
                self.hashes == old(self).hashes,
                self.cells == old(self).cells,
                a_off == old(self).arrays@.len(),
                h_off == old(self).hashes@.len(),
                self.arrays@.len() == a_off + i,
                i <= other.arrays@.len(),
                forall|j: int| 0 <= j < a_off ==> #[trigger] self.arrays@[j] == old(self).arrays@[j],
                forall|j: int| 0 <= j < i ==> #[trigger] self.arrays@[a_off + j]@.len() == other.arrays@[j]@.len(),
                forall|j: int, k: int| 0 <= j < i && 0 <= k < other.arrays@[j]@.len()
                    ==> moved(#[trigger] other.arrays@[j]@[k], self.arrays@[a_off + j]@[k], a_off, h_off),
            decreases other.arrays@.len() - i,
        {
            let items = remap_list(&other.arrays[i], a_off, h_off);
            self.arrays.push(items);
            i += 1;
        }
        let ghost arrays_done = self.arrays@;
        let mut k: usize = 0;
        while k < other.cells.len()
            invariant
                self.wf(),
                self.stack == old(self).stack,
                self.sp == old(self).sp,
                self.globals == old(self).globals,
                self.hashes == old(self).hashes,
                self.arrays@ == arrays_done,
                c_off == old(self).cells@.len(),
                self.cells@.len() == c_off + k,
                k <= other.cells@.len(),
                forall|j: int| 0 <= j < c_off ==> #[trigger] self.cells@[j] == old(self).cells@[j],
                forall|j: int| 0 <= j < k ==> moved(#[trigger] other.cells@[j], self.cells@[c_off + j], a_off, h_off),
            decreases other.cells@.len() - k,
        {
            let v = remap(&other.cells[k], a_off, h_off);
            self.cells.push(v);
            k += 1;
        }
        let ghost cells_done = self.cells@;
        let mut h: usize = 0;
        while h < other.hashes.len()
            invariant
                self.stack@.len() == STACK_SIZE,
                self.sp <= STACK_SIZE,
                self.globals@.len() == GLOBALS_SIZE,
                other.wf(),
                old(self).wf(),
                self.stack == old(self).stack,
                self.sp == old(self).sp,
                self.globals == old(self).globals,
                self.arrays@ == arrays_done,
                self.cells@ == cells_done,
                self.cells@.len() == c_off + other.cells@.len(),
                c_off == old(self).cells@.len(),
                h_off == old(self).hashes@.len(),
                self.hashes@.len() == h_off + h,
                h <= other.hashes@.len(),
                forall|g: int| 0 <= g < h_off ==> #[trigger] self.hashes@[g] == old(self).hashes@[g],
                forall|g: int| 0 <= g < h ==>
                    map_entries(#[trigger] self.hashes@[h_off + g]) == shifted_entries(map_entries(other.hashes@[g]), c_off),
                forall|g: int| 0 <= g < self.hashes@.len() ==> distinct_keys(map_entries(#[trigger] self.hashes@[g])),
            decreases other.hashes@.len() - h,
        {
            let src = &other.hashes[h];
            let n = map_len(src);
            let mut m = map_new();
            let mut j: usize = 0;
            let ghost se = map_entries(*src);
            proof { assert(distinct_keys(se)); }
            while j < n
                invariant
                    j <= n,
                    n == map_entries(*src).len(),
                    se == map_entries(*src),
                    distinct_keys(se),
                    map_entries(m) == shifted_entries(se.take(j as int), c_off),
                    distinct_keys(map_entries(m)),
                decreases n - j,
            {
                let (key, cell) = map_entry(src, j);
                let ghost before = map_entries(m);
                proof {
                    if key_position(before, key@) is Some {
                        let p = choose|p: int| 0 <= p < before.len() && before[p].0 == key@;
                        assert(se[p].0 == key@);
                        assert(se[j as int].0 == key@);
                        assert(false);
                    }
                }
                map_insert(&mut m, key, shift(cell, c_off));
                proof {
                    assert(map_entries(m) =~= shifted_entries(se.take(j as int + 1), c_off));
                }
                j += 1;
            }
            proof { assert(se.take(n as int) =~= se); }
            self.hashes.push(m);
            proof {
                assert forall|g: int| 0 <= g < self.hashes@.len() implies distinct_keys(map_entries(#[trigger] self.hashes@[g])) by {
                    if g < self.hashes@.len() - 1 {
                        assert(self.hashes@[g] == self.hashes@.drop_last()[g]);
                    }
                }
                assert forall|g: int| 0 <= g < h + 1 implies
                    map_entries(#[trigger] self.hashes@[h_off + g]) == shifted_entries(map_entries(other.hashes@[g]), c_off) by {
                    if g < h {
                        assert(self.hashes@[h_off + g] == self.hashes@.drop_last()[h_off + g]);
                    }
                }
            }
            h += 1;
        }
        let total_cells = self.cells.len();
        proof {
            assert(total_cells as nat == c_off + other.cells@.len());
            lemma_adopted_owned(old(self).hashes@, c_off as nat, other.hashes@, other.cells@.len(), self.hashes@);
            assert forall|g: int, k: Seq<char>| 0 <= g < other.record_count() implies
                match #[trigger] other.record_value(g, k) {
                    Some(v) => self.record_value(h_off + g, k) matches Some(w) && moved(v, w, a_off, h_off),
                    None => self.record_value(h_off + g, k) is None,
                } by {
                let e = map_entries(other.hashes@[g]);
                let e2 = map_entries(self.hashes@[h_off + g]);
                assert(e2 == shifted_entries(e, c_off));
                assert(distinct_keys(e));
                assert(distinct_keys(e2));
                match key_position(e, k) {
                    Some(i) => {
                        assert(e[i].0 == k);
                        assert(e2[i] == (e[i].0, shifted(e[i].1, c_off)));
                        lemma_key_position_at(e2, i);
                        lemma_key_position_at(e, i);
                        assert(is_field(other.hashes@, g, i));
                        assert((e[i].1 as int) < other.cells@.len());
                        assert(self.cells@[c_off + e[i].1] == cells_done[c_off + e[i].1]);
                    },
                    None => {
                        if key_position(e2, k) is Some {
                            let p = choose|p: int| 0 <= p < e2.len() && e2[p].0 == k;
                            assert(e2[p].0 == e[p].0);
                            assert(false);
                        }
                    },
                }
            }
        }
        proof {
            let n = old(self).arrays@.len();
            assert(self.arrays_view().take(n as int) =~= old(self).arrays_view()) by {
                assert forall|j: int| 0 <= j < n implies self.arrays_view().take(n as int)[j] == old(self).arrays_view()[j] by {
                    assert(self.arrays@[j] == old(self).arrays@[j]);
                }
            }
            assert forall|hh: int, kk: Seq<char>| 0 <= hh < old(self).record_count() && old(self).record_value(hh, kk) is Some
                implies #[trigger] self.record_value(hh, kk) == old(self).record_value(hh, kk) by {
                assert(self.hashes@[hh] == old(self).hashes@[hh]);
            }
        }
        remap(value, a_off, h_off)
    }

    /// A value as `{:?}` writes it (numbers by the number function).
    pub fn describe<F: Fn(NumQuery) -> NumReply>(&self, obj: &Object, numbers: &F) -> (r: String)
        requires
            forall|x: NumQuery| call_requires(*numbers, (x,)),
        ensures
            shows_numbers_once(*numbers) ==> r@ == self.shown(*obj, usize::MAX as nat, *numbers),
    {
        self.debug_text(obj, numbers, usize::MAX)
    }
}

} // verus!
