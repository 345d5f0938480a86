//! The bytecode compiler: turns a checked syntax tree into instructions and a
//! pool of constants. Jumps whose destination is not known yet are emitted
//! with a placeholder operand and patched once it is.
use vstd::prelude::*;
use crate::assoc::assoc_position;
use crate::ast::{Expression, MatchCase, Pattern, Program, spec_unwrap_loc};
use crate::code::{make, opcode_byte, opcode_of_byte, instruction_bytes, instruction_len, spec_read_u16, Opcode};
use crate::error_reporter::Diagnostic;
use crate::symbol_table::{Symbol, SymbolScope, SymbolTable};
use crate::text::{decimal_string, join2, join3, owned, str_eq, spec_decimal};

verus! {

/// A value of the constant pool. A number is kept as the decimal text it
/// was written in (or, for numbers the compiler makes up, the decimal text
/// of an integer); it becomes a float only when the program is loaded.
#[derive(Debug)]
pub enum Constant {
    Number(String),
    String(String),
    Atom(String),
    CompiledFunction { instructions: Vec<u8>, num_locals: usize, num_parameters: usize },
}

/// The jumps of an enclosing loop or breakable block that still wait for
/// their destination.
#[derive(Debug)]
pub enum BreakTarget {
    Loop { continue_jumps: Vec<usize>, break_jumps: Vec<usize> },
    Block { break_jumps: Vec<usize> },
}

/// The output of the compiler.
#[derive(Debug)]
pub struct Bytecode {
    pub instructions: Vec<u8>,
    pub constants: Vec<Constant>,
}

/// The compiler's state. `starts` holds where each emitted instruction
/// begins.
pub struct Compiler {
    pub instructions: Vec<u8>,
    pub constants: Vec<Constant>,
    pub symbol_table: SymbolTable,
    pub current_line: usize,
    pub current_col: usize,
    pub break_stack: Vec<BreakTarget>,
    pub starts: Ghost<Set<int>>,
}

/// The opcode whose byte is at `p`.
/// The messages with which compiling fails: a scope out of room, an
/// undefined name, an assignment to a constant, an unknown operator, or a
/// `break` or `continue` with no loop to leave.
pub open spec fn compile_failure(m: Seq<char>) -> bool {
    ||| m == "Too many definitions in one scope"@
    ||| exists|n: Seq<char>| m == "Undefined variable: "@ + n
    ||| exists|n: Seq<char>| m == "Cannot reassign constant '"@ + n + "'"@
    ||| exists|n: Seq<char>| m == "Unknown operator: "@ + n
    ||| exists|n: Seq<char>| m == "Unknown prefix operator: "@ + n
    ||| m == "break statement outside loop or block context"@
    ||| m == "continue statement outside loop context"@
}

pub open spec fn op_at(code: Seq<u8>, p: int) -> Opcode {
    opcode_of_byte(code[p]).unwrap()
}

/// Each start holds a whole instruction, instructions do not overlap, and
/// they follow one another from the first byte to the last.
#[verifier::opaque]
pub open spec fn code_wf(code: Seq<u8>, starts: Set<int>) -> bool {
    &&& forall|p: int| #[trigger] starts.contains(p) ==> {
        &&& 0 <= p < code.len()
        &&& opcode_of_byte(code[p]) is Some
        &&& p + instruction_len(op_at(code, p)) <= code.len()
    }
    &&& forall|p: int, q: int| #[trigger] starts.contains(p) && #[trigger] starts.contains(q) && p < q
        ==> p + instruction_len(op_at(code, p)) <= q
    &&& code.len() > 0 ==> starts.contains(0)
    &&& forall|p: int| #[trigger] starts.contains(p) ==> p + instruction_len(op_at(code, p)) == code.len()
        || starts.contains(p + instruction_len(op_at(code, p)))
}

/// The byte of a jump opcode, whose operand is patched later.
pub open spec fn is_jump_byte(b: u8) -> bool {
    b == opcode_byte(Opcode::OpJump) || b == opcode_byte(Opcode::OpJumpNotTruthy)
}

/// An unconditional or conditional jump instruction begins at `p`.
pub open spec fn jump_at(code: Seq<u8>, starts: Set<int>, p: int) -> bool {
    &&& starts.contains(p)
    &&& (code[p] == opcode_byte(Opcode::OpJump) || code[p] == opcode_byte(Opcode::OpJumpNotTruthy))
}

/// Every position in `s` is a jump instruction.
pub open spec fn all_jumps(code: Seq<u8>, starts: Set<int>, s: Seq<usize>) -> bool {
    forall|k: int| 0 <= k < s.len() ==> jump_at(code, starts, #[trigger] s[k] as int)
}

/// The pending jumps of a target.
pub open spec fn target_jumps(t: BreakTarget) -> Seq<usize> {
    match t {
        BreakTarget::Loop { continue_jumps, break_jumps } => continue_jumps@ + break_jumps@,
        BreakTarget::Block { break_jumps } => break_jumps@,
    }
}

/// The jump at `p` leads to a place inside the code (its end included).
pub open spec fn landed(code: Seq<u8>, p: int) -> bool {
    spec_read_u16(code, p + 1) <= code.len()
}

/// The jumps whose destination lies outside the code: those still waiting
/// for it.
pub open spec fn unlanded(code: Seq<u8>, starts: Set<int>) -> Set<int> {
    Set::new(|p: int| jump_at(code, starts, p) && !landed(code, p))
}

/// Every jump of the code leads to a place inside it.
pub open spec fn jumps_land(code: Seq<u8>, starts: Set<int>) -> bool {
    forall|p: int| #[trigger] jump_at(code, starts, p) ==> landed(code, p)
}

/// A compiled function's code is well formed and each of its jumps leads to
/// a place inside it; other constants hold no code.
pub open spec fn function_lands(c: Constant) -> bool {
    c matches Constant::CompiledFunction { instructions, .. } ==>
        exists|starts: Set<int>| #[trigger] code_wf(instructions@, starts) && jumps_land(instructions@, starts)
}

/// Every constant of `pool` satisfies `function_lands`.
#[verifier::opaque]
pub open spec fn functions_land(pool: Seq<Constant>) -> bool {
    forall|i: int| 0 <= i < pool.len() ==> #[trigger] function_lands(pool[i])
}

/// Empty code has no jumps.
proof fn lemma_empty_code_lands(code: Seq<u8>, starts: Set<int>)
    requires
        code_wf(code, starts),
        code.len() == 0,
    ensures
        unlanded(code, starts) =~= Set::<int>::empty(),
{
    reveal(code_wf);
}

/// `p` is one of the positions in `s`.
pub open spec fn in_jumps(s: Seq<usize>, p: int) -> bool {
    exists|k: int| 0 <= k < s.len() && #[trigger] s[k] as int == p
}

/// The positions in `s`, as a set.
pub open spec fn jump_set(s: Seq<usize>) -> Set<int> {
    Set::new(|p: int| in_jumps(s, p))
}

/// The pending jumps of every target on `stack`.
pub open spec fn pending(stack: Seq<BreakTarget>) -> Set<int> {
    Set::new(|p: int| exists|i: int| 0 <= i < stack.len() && #[trigger] in_jumps(target_jumps(stack[i]), p))
}

/// The targets of `old` are still there, each with at least its jumps.
pub open spec fn stack_grows(old: Seq<BreakTarget>, new: Seq<BreakTarget>) -> bool {
    &&& old.len() <= new.len()
    &&& forall|i: int, p: int| 0 <= i < old.len() && #[trigger] in_jumps(target_jumps(old[i]), p)
        ==> in_jumps(target_jumps(new[i]), p)
}

/// The code ends with the instruction `op` with `operands`.
pub open spec fn ends_with(code: Seq<u8>, op: Opcode, operands: Seq<usize>) -> bool {
    let b = instruction_bytes(op, operands);
    code.len() >= b.len() && code.subrange(code.len() - b.len(), code.len() as int) == b
}

/// The code that indexes along a path of `n` steps whose index constants
/// stand in the pool from position `base` on.
pub open spec fn path_code(n: nat, base: nat) -> Seq<u8>
    decreases n,
{
    if n == 0 {
        seq![]
    } else {
        path_code((n - 1) as nat, base) + instruction_bytes(Opcode::OpConstant, seq![(base + n - 1) as usize])
            + instruction_bytes(Opcode::OpIndex, seq![])
    }
}

/// The last instruction of `code` (whose instructions begin at `starts`)
/// is one of `op`'s.
pub open spec fn ends_in(code: Seq<u8>, starts: Set<int>, op: Opcode) -> bool {
    &&& code.len() >= instruction_len(op)
    &&& starts.contains(code.len() - instruction_len(op))
    &&& code[code.len() - instruction_len(op)] == opcode_byte(op)
}

/// The code ends with a load of the atom `:null`.
pub open spec fn ends_with_null(code: Seq<u8>, constants: Seq<Constant>) -> bool {
    exists|k: usize| (k as int) < constants.len() && atom_constant(constants[k as int], "null"@)
        && #[trigger] ends_with(code, Opcode::OpConstant, seq![k])
}

/// An instruction's bytes are as long as the instruction, and begin with
/// its opcode.
proof fn lemma_instruction_len(op: Opcode, operands: Seq<usize>)
    ensures
        instruction_bytes(op, operands).len() == instruction_len(op),
        instruction_bytes(op, operands)[0] == opcode_byte(op),
{
}

/// A pattern that tests its subject, and so adds a jump to the next case.
pub open spec fn tests_subject(p: Pattern) -> bool {
    p is Number || p is StringLiteral || p is Atom || p is Tuple
}

/// How many of the patterns test their subject.
pub open spec fn count_tests(ps: Seq<Pattern>) -> nat
    decreases ps.len(),
{
    if ps.len() == 0 {
        0
    } else {
        count_tests(ps.drop_last()) + if tests_subject(ps.last()) { 1nat } else { 0nat }
    }
}

/// The code of a program of `n` number literals whose constants stand in
/// the pool from position `base` on: each loads its constant, and every
/// value but the last is popped.
pub open spec fn number_run(n: nat, base: nat) -> Seq<u8>
    decreases n,
{
    if n == 0 {
        seq![]
    } else if n == 1 {
        instruction_bytes(Opcode::OpConstant, seq![base as usize])
    } else {
        number_run((n - 1) as nat, base) + instruction_bytes(Opcode::OpPop, seq![])
            + instruction_bytes(Opcode::OpConstant, seq![(base + n - 1) as usize])
    }
}

/// The program defines a constant with a number and then assigns to it.
pub open spec fn reassigns_constant(es: Seq<Expression>) -> bool {
    &&& es.len() >= 2
    &&& es[0] matches Expression::Const { value, .. } && *value is Number
    &&& es[1] matches Expression::Assign { name, .. } && name@ == es[0]->Const_name@
}

/// Every expression of the list is a number literal.
pub open spec fn all_numbers(es: Seq<Expression>) -> bool {
    forall|i: int| 0 <= i < es.len() ==> #[trigger] es[i] is Number
}

/// Every value of the record literal's pairs is a number literal.
pub open spec fn number_values(ps: Seq<(String, Expression)>) -> bool {
    forall|i: int| 0 <= i < ps.len() ==> #[trigger] ps[i].1 is Number
}

/// The pool holds an atom constant named `name`.
pub open spec fn has_atom(constants: Seq<Constant>, name: Seq<char>) -> bool {
    exists|k: int| 0 <= k < constants.len() && atom_constant(#[trigger] constants[k], name)
}

/// Patching operands keeps which instruction comes last.
proof fn lemma_ends_in_kept(a: &Compiler, b: &Compiler, op: Opcode)
    requires
        a.ends_in(op),
        b.extends(a),
        b.instructions@.len() == a.instructions@.len(),
    ensures
        b.ends_in(op),
{
}

/// After an instruction is appended, it comes last.
proof fn lemma_ends_in_emitted(a: &Compiler, b: &Compiler, op: Opcode, operands: Seq<usize>)
    requires
        b.instructions@ == a.instructions@ + instruction_bytes(op, operands),
        b.starts@.contains(a.instructions@.len() as int),
    ensures
        b.ends_in(op),
{
    lemma_instruction_len(op, operands);
    assert(b.instructions@[a.instructions@.len() as int] == instruction_bytes(op, operands)[0]);
}

/// Code that has an instruction appended ends with it.
proof fn lemma_ends_with(code: Seq<u8>, op: Opcode, operands: Seq<usize>)
    ensures
        ends_with(code + instruction_bytes(op, operands), op, operands),
{
    let b = instruction_bytes(op, operands);
    assert((code + b).subrange(code.len() as int, (code + b).len() as int) =~= b);
}

/// The instruction of an infix operator.
pub open spec fn infix_opcode(op: Seq<char>) -> Option<Opcode> {
    if op == "+"@ {
        Some(Opcode::OpAdd)
    } else if op == "-"@ {
        Some(Opcode::OpSub)
    } else if op == "*"@ {
        Some(Opcode::OpMul)
    } else if op == "/"@ {
        Some(Opcode::OpDiv)
    } else if op == "=="@ {
        Some(Opcode::OpEqual)
    } else if op == "!="@ {
        Some(Opcode::OpNotEqual)
    } else if op == ">"@ {
        Some(Opcode::OpGreater)
    } else if op == "<"@ {
        Some(Opcode::OpLess)
    } else {
        None
    }
}

/// From `before` to `after` the compiler added the number constants `a`
/// and `b`, in this order, and the code that loads `a`, loads `b` and then
/// runs `op`.
pub open spec fn numbers_then(before: Compiler, after: Compiler, a: Seq<char>, b: Seq<char>, op: Opcode) -> bool {
    let c = before.constants@.len();
    &&& after.constants@.len() == c + 2
    &&& number_constant(after.constants@[c as int], a)
    &&& number_constant(after.constants@[c + 1int], b)
    &&& after.instructions@ == before.instructions@ + instruction_bytes(Opcode::OpConstant, seq![c as usize])
        + instruction_bytes(Opcode::OpConstant, seq![(c + 1) as usize]) + instruction_bytes(op, seq![])
}

/// The instruction of a prefix operator.
pub open spec fn prefix_opcode(op: Seq<char>) -> Option<Opcode> {
    if op == "-"@ {
        Some(Opcode::OpMinus)
    } else if op == "!"@ {
        Some(Opcode::OpBang)
    } else {
        None
    }
}

/// What the form of `e` alone says of the instruction that its compiled
/// code ends with.
pub open spec fn ends_as_form(code: Seq<u8>, e: Expression) -> bool {
    match e {
        Expression::Infix { operator, .. } => infix_opcode(operator@) matches Some(c) && ends_with(code, c, seq![]),
        Expression::Prefix { operator, .. } => prefix_opcode(operator@) matches Some(c) && ends_with(code, c, seq![]),
        Expression::Array(es) => ends_with(code, Opcode::OpArray, seq![es@.len() as usize]),
        Expression::Tuple(es) => ends_with(code, Opcode::OpTuple, seq![es@.len() as usize]),
        Expression::Hash(ps) => ends_with(code, Opcode::OpHash, seq![ps@.len() as usize]),
        Expression::Index { .. } => ends_with(code, Opcode::OpIndex, seq![]),
        Expression::IndexAssign { .. } => ends_with(code, Opcode::OpSetIndex, seq![]),
        Expression::Return(_) => ends_with(code, Opcode::OpReturnValue, seq![]),
        Expression::Import(_) => ends_with(code, Opcode::OpImport, seq![]),
        Expression::Call { arguments, .. } => ends_with(code, Opcode::OpCall, seq![arguments@.len() as usize]),
        Expression::MethodCall { arguments, .. } =>
            ends_with(code, Opcode::OpCall, seq![(arguments@.len() % 256 + 1) as usize]),
        _ => true,
    }
}

/// The text of a compiled number constant.
pub open spec fn number_constant(c: Constant, text: Seq<char>) -> bool {
    c matches Constant::Number(t) && t@ == text
}

/// A string constant with the text `text`.
pub open spec fn string_constant(c: Constant, text: Seq<char>) -> bool {
    c matches Constant::String(t) && t@ == text
}

/// An atom constant with the name `name`.
pub open spec fn atom_constant(c: Constant, name: Seq<char>) -> bool {
    c matches Constant::Atom(t) && t@ == name
}

/// The instruction that loads a value of `scope`.
pub open spec fn get_opcode(scope: SymbolScope) -> Opcode {
    match scope {
        SymbolScope::Local => Opcode::OpGetLocal,
        SymbolScope::Global => Opcode::OpGetGlobal,
        SymbolScope::Free => Opcode::OpGetFree,
    }
}

/// The instruction that stores a value of `scope`.
pub open spec fn set_opcode(scope: SymbolScope) -> Opcode {
    match scope {
        SymbolScope::Local => Opcode::OpSetLocal,
        SymbolScope::Global => Opcode::OpSetGlobal,
        SymbolScope::Free => Opcode::OpSetFree,
    }
}

/// The first position of `pool` that holds the atom `name`, if any.
fn find_atom(pool: &Vec<Constant>, name: &str) -> (r: Option<usize>)
    ensures
        match r {
            Some(i) => (i as int) < pool@.len() && atom_constant(pool@[i as int], name@)
                && forall|j: int| 0 <= j < i ==> !atom_constant(#[trigger] pool@[j], name@),
            None => forall|j: int| 0 <= j < pool@.len() ==> !atom_constant(#[trigger] pool@[j], name@),
        },
{
    let mut i: usize = 0;
    while i < pool.len()
        invariant
            i <= pool@.len(),
            forall|j: int| 0 <= j < i ==> !atom_constant(#[trigger] pool@[j], name@),
        decreases pool@.len() - i,
    {
        match &pool[i] {
            Constant::Atom(t) => {
                if str_eq(t.as_str(), name) {
                    return Some(i);
                }
            },
            _ => {},
        }
        i += 1;
    }
    None
}

/// The first position of `pool` that holds the string `text`, if any.
fn find_string(pool: &Vec<Constant>, text: &str) -> (r: Option<usize>)
    ensures
        match r {
            Some(i) => (i as int) < pool@.len() && string_constant(pool@[i as int], text@)
                && forall|j: int| 0 <= j < i ==> !string_constant(#[trigger] pool@[j], text@),
            None => forall|j: int| 0 <= j < pool@.len() ==> !string_constant(#[trigger] pool@[j], text@),
        },
{
    let mut i: usize = 0;
    while i < pool.len()
        invariant
            i <= pool@.len(),
            forall|j: int| 0 <= j < i ==> !string_constant(#[trigger] pool@[j], text@),
        decreases pool@.len() - i,
    {
        match &pool[i] {
            Constant::String(t) => {
                if str_eq(t.as_str(), text) {
                    return Some(i);
                }
            },
            _ => {},
        }
        i += 1;
    }
    None
}

/// The bytes of `code` from `q` on are `bytes`.
pub open spec fn code_at(code: Seq<u8>, q: int, bytes: Seq<u8>) -> bool {
    &&& 0 <= q
    &&& q + bytes.len() <= code.len()
    &&& code.subrange(q, q + bytes.len()) == bytes
}

/// The instruction that loads `sym`.
pub open spec fn get_bytes(sym: Symbol) -> Seq<u8> {
    instruction_bytes(get_opcode(sym.scope), seq![sym.index])
}

/// The instruction that stores the top of the stack into `sym`.
pub open spec fn set_bytes(sym: Symbol) -> Seq<u8> {
    instruction_bytes(set_opcode(sym.scope), seq![sym.index])
}

/// The instruction of `op`, which takes no operand.
pub open spec fn plain_bytes(op: Opcode) -> Seq<u8> {
    instruction_bytes(op, seq![])
}

/// Bytes found at `q` and bytes found right after them are found together.
proof fn lemma_code_at_join(code: Seq<u8>, q: int, x: Seq<u8>, y: Seq<u8>)
    requires
        code_at(code, q, x),
        code_at(code, q + x.len(), y),
    ensures
        code_at(code, q, x + y),
{
    assert forall|k: int| 0 <= k < x.len() + y.len() implies code[q + k] == (x + y)[k] by {
        if k < x.len() {
            assert(code.subrange(q, q + x.len())[k] == x[k]);
        } else {
            assert(code.subrange(q + x.len(), q + x.len() + y.len())[k - x.len()] == y[k - x.len()]);
        }
    }
    assert(code.subrange(q, q + (x + y).len()) =~= x + y);
}

/// Bytes found together at `q` are found one after the other.
proof fn lemma_code_at_split(code: Seq<u8>, q: int, x: Seq<u8>, y: Seq<u8>)
    requires
        code_at(code, q, x + y),
    ensures
        code_at(code, q, x),
        code_at(code, q + x.len(), y),
{
    assert forall|k: int| 0 <= k < x.len() implies code[q + k] == x[k] by {
        assert(code.subrange(q, q + (x + y).len())[k] == (x + y)[k]);
    }
    assert forall|k: int| 0 <= k < y.len() implies code[q + x.len() + k] == y[k] by {
        assert(code.subrange(q, q + (x + y).len())[x.len() + k] == (x + y)[x.len() + k]);
    }
    assert(code.subrange(q, q + x.len()) =~= x);
    assert(code.subrange(q + x.len(), q + x.len() + y.len()) =~= y);
}

/// An instruction that is not a jump stays as it is.
proof fn lemma_instr_kept(a: &Compiler, b: &Compiler, q: int, op: Opcode, ops: Seq<usize>)
    requires
        a.wf(),
        b.extends(a),
        a.starts@.contains(q),
        op != Opcode::OpJump,
        op != Opcode::OpJumpNotTruthy,
        code_at(a.instructions@, q, instruction_bytes(op, ops)),
    ensures
        code_at(b.instructions@, q, instruction_bytes(op, ops)),
{
    lemma_instruction_len(op, ops);
    crate::code::lemma_opcode_byte_roundtrip(op);
    crate::code::lemma_opcode_byte_roundtrip(Opcode::OpJump);
    crate::code::lemma_opcode_byte_roundtrip(Opcode::OpJumpNotTruthy);
    let len = instruction_bytes(op, ops).len();
    assert(a.instructions@.subrange(q, q + len)[0] == a.instructions@[q]);
    assert(a.instructions@[q] == opcode_byte(op));
    assert(op_at(a.instructions@, q) == op);
    assert(!is_jump_byte(a.instructions@[q]));
    assert(b.instructions@.subrange(q, q + len) == a.instructions@.subrange(q, q + len));
    reveal(code_wf);
}

/// The code compiled for `for x in e body end` from `a` on, in `b`: the
/// array goes into the first hidden variable and the counter, the second,
/// starts at 0; each pass stores element `counter` of the array into the
/// non-constant loop variable `el`; and the counter goes up by 1.
pub open spec fn for_steps(a: &Compiler, b: &Compiler) -> bool {
    let st = a.symbol_table;
    let arr = Symbol { scope: st.definition_scope(), index: st.num_definitions, is_const: false };
    let idx = Symbol { scope: st.definition_scope(), index: (st.num_definitions + 1) as usize, is_const: false };
    exists|q0: int, q1: int, q2: int, k0: usize, k1: usize, el: Symbol| {
        &&& a.instructions@.len() <= q0 < q1 < q2
        &&& !el.is_const
        &&& (k0 as int) < b.constants@.len() && number_constant(b.constants@[k0 as int], "0"@)
        &&& (k1 as int) < b.constants@.len() && number_constant(b.constants@[k1 as int], "1"@)
        &&& #[trigger] code_at(b.instructions@, q0, set_bytes(arr) + plain_bytes(Opcode::OpPop)
            + instruction_bytes(Opcode::OpConstant, seq![k0]) + set_bytes(idx) + plain_bytes(Opcode::OpPop))
        &&& #[trigger] code_at(b.instructions@, q1, get_bytes(arr) + get_bytes(idx) + plain_bytes(Opcode::OpIndex)
            + set_bytes(el) + plain_bytes(Opcode::OpPop))
        &&& #[trigger] code_at(b.instructions@, q2, get_bytes(idx) + instruction_bytes(Opcode::OpConstant, seq![k1])
            + plain_bytes(Opcode::OpAdd) + set_bytes(idx) + plain_bytes(Opcode::OpPop))
    }
}

/// Five instructions, none a jump, that begin where the starts say stay as
/// they are.
proof fn lemma_five_kept(a: &Compiler, b: &Compiler, q: int,
    o1: Opcode, x1: Seq<usize>, o2: Opcode, x2: Seq<usize>, o3: Opcode, x3: Seq<usize>,
    o4: Opcode, x4: Seq<usize>, o5: Opcode, x5: Seq<usize>)
    requires
        a.wf(),
        b.extends(a),
        o1 != Opcode::OpJump && o1 != Opcode::OpJumpNotTruthy,
        o2 != Opcode::OpJump && o2 != Opcode::OpJumpNotTruthy,
        o3 != Opcode::OpJump && o3 != Opcode::OpJumpNotTruthy,
        o4 != Opcode::OpJump && o4 != Opcode::OpJumpNotTruthy,
        o5 != Opcode::OpJump && o5 != Opcode::OpJumpNotTruthy,
        code_at(a.instructions@, q, instruction_bytes(o1, x1) + instruction_bytes(o2, x2) + instruction_bytes(o3, x3)
            + instruction_bytes(o4, x4) + instruction_bytes(o5, x5)),
        a.starts@.contains(q),
        a.starts@.contains(q + instruction_bytes(o1, x1).len()),
        a.starts@.contains(q + instruction_bytes(o1, x1).len() + instruction_bytes(o2, x2).len()),
        a.starts@.contains(q + instruction_bytes(o1, x1).len() + instruction_bytes(o2, x2).len()
            + instruction_bytes(o3, x3).len()),
        a.starts@.contains(q + instruction_bytes(o1, x1).len() + instruction_bytes(o2, x2).len()
            + instruction_bytes(o3, x3).len() + instruction_bytes(o4, x4).len()),
    ensures
        code_at(b.instructions@, q, instruction_bytes(o1, x1) + instruction_bytes(o2, x2) + instruction_bytes(o3, x3)
            + instruction_bytes(o4, x4) + instruction_bytes(o5, x5)),
{
    let (i1, i2, i3, i4, i5) = (instruction_bytes(o1, x1), instruction_bytes(o2, x2), instruction_bytes(o3, x3),
        instruction_bytes(o4, x4), instruction_bytes(o5, x5));
    let ca = a.instructions@;
    let cb = b.instructions@;
    lemma_code_at_split(ca, q, i1 + i2 + i3 + i4, i5);
    lemma_code_at_split(ca, q, i1 + i2 + i3, i4);
    lemma_code_at_split(ca, q, i1 + i2, i3);
    lemma_code_at_split(ca, q, i1, i2);
    let p2 = q + i1.len();
    let p3 = p2 + i2.len();
    let p4 = p3 + i3.len();
    let p5 = p4 + i4.len();
    assert((i1 + i2).len() == i1.len() + i2.len());
    assert((i1 + i2 + i3).len() == i1.len() + i2.len() + i3.len());
    assert((i1 + i2 + i3 + i4).len() == i1.len() + i2.len() + i3.len() + i4.len());
    lemma_instr_kept(a, b, q, o1, x1);
    lemma_instr_kept(a, b, p2, o2, x2);
    lemma_instr_kept(a, b, p3, o3, x3);
    lemma_instr_kept(a, b, p4, o4, x4);
    lemma_instr_kept(a, b, p5, o5, x5);
    lemma_code_at_join(cb, q, i1, i2);
    lemma_code_at_join(cb, q, i1 + i2, i3);
    lemma_code_at_join(cb, q, i1 + i2 + i3, i4);
    lemma_code_at_join(cb, q, i1 + i2 + i3 + i4, i5);
}

/// Five instructions, none a jump, appended to `code` to give `b`'s code
/// are still in place in `c`.
proof fn lemma_appended_kept(code: Seq<u8>, b: &Compiler, c: &Compiler,
    o1: Opcode, x1: Seq<usize>, o2: Opcode, x2: Seq<usize>, o3: Opcode, x3: Seq<usize>,
    o4: Opcode, x4: Seq<usize>, o5: Opcode, x5: Seq<usize>)
    requires
        b.wf(),
        c.extends(b),
        o1 != Opcode::OpJump && o1 != Opcode::OpJumpNotTruthy,
        o2 != Opcode::OpJump && o2 != Opcode::OpJumpNotTruthy,
        o3 != Opcode::OpJump && o3 != Opcode::OpJumpNotTruthy,
        o4 != Opcode::OpJump && o4 != Opcode::OpJumpNotTruthy,
        o5 != Opcode::OpJump && o5 != Opcode::OpJumpNotTruthy,
        b.instructions@ == code + (instruction_bytes(o1, x1) + instruction_bytes(o2, x2) + instruction_bytes(o3, x3)
            + instruction_bytes(o4, x4) + instruction_bytes(o5, x5)),
        b.starts@.contains(code.len() as int),
        b.starts@.contains(code.len() as int + instruction_bytes(o1, x1).len()),
        b.starts@.contains(code.len() as int + instruction_bytes(o1, x1).len() + instruction_bytes(o2, x2).len()),
        b.starts@.contains(code.len() as int + instruction_bytes(o1, x1).len() + instruction_bytes(o2, x2).len()
            + instruction_bytes(o3, x3).len()),
        b.starts@.contains(code.len() as int + instruction_bytes(o1, x1).len() + instruction_bytes(o2, x2).len()
            + instruction_bytes(o3, x3).len() + instruction_bytes(o4, x4).len()),
    ensures
        code_at(c.instructions@, code.len() as int, instruction_bytes(o1, x1) + instruction_bytes(o2, x2)
            + instruction_bytes(o3, x3) + instruction_bytes(o4, x4) + instruction_bytes(o5, x5)),
{
    let r = instruction_bytes(o1, x1) + instruction_bytes(o2, x2) + instruction_bytes(o3, x3)
        + instruction_bytes(o4, x4) + instruction_bytes(o5, x5);
    let q = code.len() as int;
    assert(b.instructions@.subrange(q, q + r.len()) =~= r);
    lemma_five_kept(b, c, q, o1, x1, o2, x2, o3, x3, o4, x4, o5, x5);
}

/// What compiling a `for` loop emitted, step by step, is still in place at
/// the end, as `for_steps` says.
proof fn lemma_for_steps(o: &Compiler, sa: &Compiler, sb: &Compiler,
    sc: &Compiler, sd: &Compiler, se: &Compiler, sf: &Compiler, fin: &Compiler,
    arr: Symbol, idx: Symbol, el: Symbol)
    requires
        arr == (Symbol { scope: o.symbol_table.definition_scope(), index: o.symbol_table.num_definitions, is_const: false }),
        idx == (Symbol { scope: o.symbol_table.definition_scope(),
            index: (o.symbol_table.num_definitions + 1) as usize, is_const: false }),
        !el.is_const,
        o.instructions@.len() <= sa.instructions@.len(),
        sb.grown(sa),
        sc.grown(sb),
        sd.grown(sc),
        se.grown(sd),
        sf.grown(se),
        fin.grown(sf),
        sb.constants@.len() == sa.constants@.len() + 1,
        number_constant(sb.constants@[sa.constants@.len() as int], "0"@),
        code_at(fin.instructions@, sa.instructions@.len() as int, set_bytes(arr) + plain_bytes(Opcode::OpPop)
            + instruction_bytes(Opcode::OpConstant, seq![sa.constants@.len() as usize]) + set_bytes(idx)
            + plain_bytes(Opcode::OpPop)),
        sc.instructions@.len() > sb.instructions@.len(),
        sd.instructions@.len() > sc.instructions@.len(),
        code_at(fin.instructions@, sc.instructions@.len() as int, get_bytes(arr) + get_bytes(idx)
            + plain_bytes(Opcode::OpIndex) + set_bytes(el) + plain_bytes(Opcode::OpPop)),
        code_at(fin.instructions@, se.instructions@.len() as int, get_bytes(idx)
            + instruction_bytes(Opcode::OpConstant, seq![se.constants@.len() as usize])
            + plain_bytes(Opcode::OpAdd) + set_bytes(idx) + plain_bytes(Opcode::OpPop)),
        sb.instructions@.len() > sa.instructions@.len(),
        sf.constants@.len() == se.constants@.len() + 1,
        number_constant(sf.constants@[se.constants@.len() as int], "1"@),
        sb.constants@.len() <= usize::MAX,
        sf.constants@.len() <= usize::MAX,
    ensures
        for_steps(o, fin),
{
    lemma_grown_trans(sb, sc, sd);
    lemma_grown_trans(sb, sd, se);
    lemma_grown_trans(sb, se, sf);
    lemma_grown_trans(sb, sf, fin);
    lemma_grown_trans(se, sf, fin);
    let k0 = sa.constants@.len() as usize;
    let k1 = se.constants@.len() as usize;
    assert(fin.constants@[k0 as int] == sb.constants@[k0 as int]);
    assert(fin.constants@[k1 as int] == sf.constants@[k1 as int]);
    let q0 = sa.instructions@.len() as int;
    let q1 = sc.instructions@.len() as int;
    let q2 = se.instructions@.len() as int;
    assert(o.instructions@.len() <= q0 < q1 < q2);
    assert(code_at(fin.instructions@, q0, set_bytes(arr) + plain_bytes(Opcode::OpPop)
        + instruction_bytes(Opcode::OpConstant, seq![k0]) + set_bytes(idx) + plain_bytes(Opcode::OpPop)));
    assert(code_at(fin.instructions@, q1, get_bytes(arr) + get_bytes(idx) + plain_bytes(Opcode::OpIndex)
        + set_bytes(el) + plain_bytes(Opcode::OpPop)));
    assert(code_at(fin.instructions@, q2, get_bytes(idx) + instruction_bytes(Opcode::OpConstant, seq![k1])
        + plain_bytes(Opcode::OpAdd) + set_bytes(idx) + plain_bytes(Opcode::OpPop)));
}

/// Code that did not change keeps every instruction.
proof fn lemma_keeps_same(a: &Compiler, b: &Compiler)
    requires
        b.instructions@ == a.instructions@,
    ensures
        b.keeps_operands(a),
{
}

/// Keeping every instruction is transitive.
proof fn lemma_keeps_trans(a: &Compiler, b: &Compiler, c: &Compiler)
    requires
        b.keeps_operands(a),
        c.keeps_operands(b),
        a.starts@.subset_of(b.starts@),
        forall|p: int| #[trigger] a.starts@.contains(p) ==> b.instructions@[p] == a.instructions@[p],
    ensures
        c.keeps_operands(a),
{
    assert forall|p: int| #[trigger] a.starts@.contains(p) && !is_jump_byte(a.instructions@[p])
        implies c.instructions@.subrange(p, p + instruction_len(op_at(a.instructions@, p)))
            == a.instructions@.subrange(p, p + instruction_len(op_at(a.instructions@, p))) by {
        assert(b.starts@.contains(p));
    }
}

/// Code that did not change extends itself.
proof fn lemma_extends_same(a: &Compiler, b: &Compiler)
    requires
        b.instructions@ == a.instructions@,
        b.starts@ == a.starts@,
    ensures
        b.extends(a),
{
    lemma_keeps_same(a, b);
}

/// Extending is transitive.
proof fn lemma_extends_chain(a: &Compiler, b: &Compiler, c: &Compiler)
    requires
        b.extends(a),
        c.extends(b),
    ensures
        c.extends(a),
{
    lemma_keeps_trans(a, b, c);
}

/// The code that compiling a `for` loop emitted step by step is still in
/// place at the end.
#[verifier::rlimit(60)]
proof fn lemma_for_code(o: &Compiler, sa: &Compiler, sa1: &Compiler, sa2: &Compiler, sb: &Compiler,
    sc: &Compiler, sd: &Compiler, se: &Compiler, sf: &Compiler, fin: &Compiler,
    arr: Symbol, idx: Symbol, el: Symbol)
    requires
        arr == (Symbol { scope: o.symbol_table.definition_scope(), index: o.symbol_table.num_definitions, is_const: false }),
        idx == (Symbol { scope: o.symbol_table.definition_scope(),
            index: (o.symbol_table.num_definitions + 1) as usize, is_const: false }),
        !el.is_const,
        o.instructions@.len() <= sa.instructions@.len(),
        sa1.grown(sa),
        sa2.grown(sa1),
        sb.grown(sa2),
        sc.grown(sb),
        sd.grown(sc),
        se.grown(sd),
        sf.grown(se),
        fin.grown(sf),
        sa1.instructions@ == sa.instructions@ + set_bytes(arr),
        sa1.starts@ == sa.starts@.insert(sa.instructions@.len() as int),
        sa2.instructions@ == sa1.instructions@ + plain_bytes(Opcode::OpPop),
        sa2.starts@ == sa1.starts@.insert(sa1.instructions@.len() as int),
        sa2.constants == sa1.constants,
        sa1.constants == sa.constants,
        sb.instructions@ == sa2.instructions@ + instruction_bytes(Opcode::OpConstant, seq![sa2.constants@.len() as usize])
            + set_bytes(idx) + plain_bytes(Opcode::OpPop),
        sb.starts@.contains(sa2.instructions@.len() as int),
        sb.starts@.contains(sa2.instructions@.len() as int + 3),
        sb.starts@.contains(sa2.instructions@.len() as int + 3 + set_bytes(idx).len()),
        sb.constants@.len() == sa2.constants@.len() + 1,
        number_constant(sb.constants@[sa2.constants@.len() as int], "0"@),
        sc.instructions@.len() > sb.instructions@.len(),
        sd.instructions@ == sc.instructions@ + get_bytes(arr) + get_bytes(idx) + plain_bytes(Opcode::OpIndex)
            + set_bytes(el) + plain_bytes(Opcode::OpPop),
        sd.starts@.contains(sc.instructions@.len() as int),
        sd.starts@.contains(sc.instructions@.len() as int + get_bytes(arr).len()),
        sd.starts@.contains(sc.instructions@.len() as int + get_bytes(arr).len() + get_bytes(idx).len()),
        sd.starts@.contains(sc.instructions@.len() as int + get_bytes(arr).len() + get_bytes(idx).len() + 1),
        sd.starts@.contains(sc.instructions@.len() as int + get_bytes(arr).len() + get_bytes(idx).len() + 1
            + set_bytes(el).len()),
        sf.instructions@ == se.instructions@ + get_bytes(idx) + instruction_bytes(Opcode::OpConstant, seq![se.constants@.len() as usize])
            + plain_bytes(Opcode::OpAdd) + set_bytes(idx) + plain_bytes(Opcode::OpPop),
        sf.starts@.contains(se.instructions@.len() as int),
        sf.starts@.contains(se.instructions@.len() as int + get_bytes(idx).len()),
        sf.starts@.contains(se.instructions@.len() as int + get_bytes(idx).len() + 3),
        sf.starts@.contains(se.instructions@.len() as int + get_bytes(idx).len() + 4),
        sf.starts@.contains(se.instructions@.len() as int + get_bytes(idx).len() + 4 + set_bytes(idx).len()),
        sf.constants@.len() == se.constants@.len() + 1,
        number_constant(sf.constants@[se.constants@.len() as int], "1"@),
        sb.constants@.len() <= usize::MAX,
        sf.constants@.len() <= usize::MAX,
    ensures
        for_steps(o, fin),
{
    let k0 = sa2.constants@.len() as usize;
    let k1 = se.constants@.len() as usize;
    lemma_grown_trans(sa2, sb, sc);
    lemma_grown_trans(sa2, sc, sd);
    lemma_grown_trans(sa2, sd, se);
    lemma_grown_trans(sa2, se, sf);
    lemma_grown_trans(sa2, sf, fin);
    lemma_grown_trans(sb, sc, sd);
    lemma_grown_trans(sb, sd, se);
    lemma_grown_trans(sb, se, sf);
    lemma_grown_trans(sb, sf, fin);
    lemma_grown_trans(sd, se, sf);
    lemma_grown_trans(sd, sf, fin);
    lemma_instruction_len(Opcode::OpPop, seq![]);
    lemma_instruction_len(Opcode::OpConstant, seq![k0]);
    lemma_instruction_len(Opcode::OpConstant, seq![k1]);
    assert(sb.instructions@ == sa.instructions@ + (set_bytes(arr) + plain_bytes(Opcode::OpPop)
        + instruction_bytes(Opcode::OpConstant, seq![k0]) + set_bytes(idx) + plain_bytes(Opcode::OpPop)));
    assert(sb.starts@.contains(sa.instructions@.len() as int));
    assert(sb.starts@.contains(sa.instructions@.len() as int + set_bytes(arr).len()));
    lemma_appended_kept(sa.instructions@, sb, fin, set_opcode(arr.scope), seq![arr.index],
        Opcode::OpPop, seq![], Opcode::OpConstant, seq![k0], set_opcode(idx.scope), seq![idx.index],
        Opcode::OpPop, seq![]);
    assert(sd.instructions@ == sc.instructions@ + (get_bytes(arr) + get_bytes(idx)
        + plain_bytes(Opcode::OpIndex) + set_bytes(el) + plain_bytes(Opcode::OpPop)));
    lemma_appended_kept(sc.instructions@, sd, fin, get_opcode(arr.scope), seq![arr.index],
        get_opcode(idx.scope), seq![idx.index], Opcode::OpIndex, seq![],
        set_opcode(el.scope), seq![el.index], Opcode::OpPop, seq![]);
    assert(sf.instructions@ == se.instructions@ + (get_bytes(idx)
        + instruction_bytes(Opcode::OpConstant, seq![k1]) + plain_bytes(Opcode::OpAdd)
        + set_bytes(idx) + plain_bytes(Opcode::OpPop)));
    lemma_appended_kept(se.instructions@, sf, fin, get_opcode(idx.scope), seq![idx.index],
        Opcode::OpConstant, seq![k1], Opcode::OpAdd, seq![], set_opcode(idx.scope), seq![idx.index],
        Opcode::OpPop, seq![]);
    lemma_grown_trans(sa, sa1, sa2);
    lemma_grown_trans(sa, sa2, sb);
    lemma_for_steps(o, sa, sb, sc, sd, se, sf, fin, arr, idx, el);
}

/// Appending bytes keeps every whole instruction that was there.
proof fn lemma_append_keeps(old_code: Seq<u8>, new_code: Seq<u8>, starts: Set<int>)
    requires
        code_wf(old_code, starts),
        old_code.is_prefix_of(new_code),
    ensures
        forall|p: int| #[trigger] starts.contains(p) ==>
            new_code.subrange(p, p + instruction_len(op_at(old_code, p)))
                == old_code.subrange(p, p + instruction_len(op_at(old_code, p))),
{
    reveal(code_wf);
    assert forall|p: int| #[trigger] starts.contains(p) implies
        new_code.subrange(p, p + instruction_len(op_at(old_code, p)))
            == old_code.subrange(p, p + instruction_len(op_at(old_code, p))) by {
        assert(new_code.subrange(p, p + instruction_len(op_at(old_code, p)))
            =~= old_code.subrange(p, p + instruction_len(op_at(old_code, p))));
    }
}

/// Rewriting the operand bytes of the jump at `j` keeps every other whole
/// instruction.
proof fn lemma_patch_keeps(old_code: Seq<u8>, new_code: Seq<u8>, starts: Set<int>, j: int)
    requires
        code_wf(old_code, starts),
        starts.contains(j),
        instruction_len(op_at(old_code, j)) == 3,
        new_code.len() == old_code.len(),
        forall|k: int| 0 <= k < old_code.len() && k != j + 1 && k != j + 2 ==> new_code[k] == old_code[k],
    ensures
        forall|p: int| #[trigger] starts.contains(p) && p != j ==>
            new_code.subrange(p, p + instruction_len(op_at(old_code, p)))
                == old_code.subrange(p, p + instruction_len(op_at(old_code, p))),
{
    reveal(code_wf);
    assert forall|p: int| #[trigger] starts.contains(p) && p != j implies
        new_code.subrange(p, p + instruction_len(op_at(old_code, p)))
            == old_code.subrange(p, p + instruction_len(op_at(old_code, p))) by {
        if p < j {
            assert(p + instruction_len(op_at(old_code, p)) <= j);
        } else {
            assert(j + instruction_len(op_at(old_code, j)) <= p);
        }
        assert(new_code.subrange(p, p + instruction_len(op_at(old_code, p)))
            =~= old_code.subrange(p, p + instruction_len(op_at(old_code, p))));
    }
}

/// Rewriting the operand bytes of the jump at `p` leaves the opcode of
/// every instruction in place.
proof fn lemma_operand_patch(old_code: Seq<u8>, new_code: Seq<u8>, starts: Set<int>, p: int)
    requires
        code_wf(old_code, starts),
        starts.contains(p),
        instruction_len(op_at(old_code, p)) == 3,
        new_code.len() == old_code.len(),
        forall|k: int| 0 <= k < old_code.len() && k != p + 1 && k != p + 2 ==> new_code[k] == old_code[k],
    ensures
        forall|q: int| #[trigger] starts.contains(q) ==> new_code[q] == old_code[q],
        forall|q: int| q != p && #[trigger] jump_at(old_code, starts, q) ==> landed(new_code, q) == landed(old_code, q),
{
    reveal(code_wf);
    assert forall|q: int| #[trigger] starts.contains(q) implies new_code[q] == old_code[q] by {
        if q < p {
            assert(q + instruction_len(op_at(old_code, q)) <= p);
        } else if q > p {
            assert(p + instruction_len(op_at(old_code, p)) <= q);
        }
    }
    assert forall|q: int| q != p && #[trigger] jump_at(old_code, starts, q)
        implies landed(new_code, q) == landed(old_code, q) by {
        crate::code::lemma_byte_opcode_roundtrip(old_code[q]);
        assert(instruction_len(op_at(old_code, q)) == 3);
        if q < p {
            assert(q + instruction_len(op_at(old_code, q)) <= p);
        } else {
            assert(p + instruction_len(op_at(old_code, p)) <= q);
        }
        assert(new_code[q + 1] == old_code[q + 1]);
        assert(new_code[q + 2] == old_code[q + 2]);
    }
}

/// Code whose instructions begin with the same opcodes at the same places,
/// and that has the same length, is as well formed.
proof fn lemma_code_wf_same_ops(old_code: Seq<u8>, new_code: Seq<u8>, starts: Set<int>)
    requires
        code_wf(old_code, starts),
        new_code.len() == old_code.len(),
        forall|q: int| #[trigger] starts.contains(q) ==> new_code[q] == old_code[q],
    ensures
        code_wf(new_code, starts),
{
    reveal(code_wf);
    assert forall|q: int| #[trigger] starts.contains(q) implies op_at(new_code, q) == op_at(old_code, q) by {
        assert(new_code[q] == old_code[q]);
    }
}

/// Appends `bytes` to `code`.
fn append_bytes(code: &mut Vec<u8>, bytes: &Vec<u8>)
    ensures
        final(code)@ == old(code)@ + bytes@,
{
    let ghost start = code@;
    let mut i: usize = 0;
    while i < bytes.len()
        invariant
            i <= bytes@.len(),
            code@ == start + bytes@.take(i as int),
        decreases bytes@.len() - i,
    {
        code.push(bytes[i]);
        i += 1;
        assert(code@ =~= start + bytes@.take(i as int));
    }
    assert(bytes@.take(bytes@.len() as int) =~= bytes@);
}

impl Compiler {
    /// Instructions are well formed and every pending jump is a jump.
    pub open spec fn wf(&self) -> bool {
        &&& code_wf(self.instructions@, self.starts@)
        &&& functions_land(self.constants@)
        &&& forall|i: int| 0 <= i < self.break_stack@.len()
            ==> all_jumps(self.instructions@, self.starts@, target_jumps(#[trigger] self.break_stack@[i]))
    }

    /// Instructions that began before still begin with the same opcode, and
    /// those that are not jumps keep their operands too.
    pub open spec fn extends(&self, old: &Compiler) -> bool {
        &&& old.starts@.subset_of(self.starts@)
        &&& old.instructions@.len() <= self.instructions@.len()
        &&& forall|p: int| #[trigger] old.starts@.contains(p) ==> self.instructions@[p] == old.instructions@[p]
        &&& self.keeps_operands(old)
    }

    /// Every instruction of `old` that is not a jump is still there whole.
    pub open spec fn keeps_operands(&self, old: &Compiler) -> bool {
        forall|p: int| #[trigger] old.starts@.contains(p) && !is_jump_byte(old.instructions@[p])
            ==> self.instructions@.subrange(p, p + instruction_len(op_at(old.instructions@, p)))
                == old.instructions@.subrange(p, p + instruction_len(op_at(old.instructions@, p)))
    }

    /// A compiler for a program, with a global scope.
    pub fn new() -> (c: Self)
        ensures
            c.wf(),
            c.instructions@.len() == 0,
            c.constants@.len() == 0,
            c.break_stack@.len() == 0,
            jumps_land(c.instructions@, c.starts@),
            c.symbol_table.outer is None,
            c.current_line == 1,
            c.current_col == 1,
    {
        proof { reveal(code_wf); reveal(functions_land); }
        Self {
            instructions: Vec::new(),
            constants: Vec::new(),
            symbol_table: SymbolTable::new(),
            current_line: 1,
            current_col: 1,
            break_stack: Vec::new(),
            starts: Ghost(Set::empty()),
        }
    }

    /// A compiler for a function body, in a scope inside `outer`.
    pub fn new_with_state(outer: SymbolTable) -> (c: Self)
        ensures
            c.wf(),
            c.instructions@.len() == 0,
            c.constants@.len() == 0,
            c.break_stack@.len() == 0,
            c.symbol_table.outer == Some(Box::new(outer)),
            c.symbol_table.num_definitions == 0,
            c.symbol_table.store@.len() == 0,
            c.symbol_table.free_symbols@.len() == 0,
            c.current_line == 1,
            c.current_col == 1,
    {
        proof { reveal(code_wf); reveal(functions_land); }
        Self {
            instructions: Vec::new(),
            constants: Vec::new(),
            symbol_table: SymbolTable::new_enclosed(outer),
            current_line: 1,
            current_col: 1,
            break_stack: Vec::new(),
            starts: Ghost(Set::empty()),
        }
    }

    /// An error at the current place.
    fn err(&self, message: String) -> (d: Diagnostic)
        ensures
            d == (Diagnostic { line: self.current_line, col: self.current_col, message, hint: None }),
    {
        Diagnostic { line: self.current_line, col: self.current_col, message, hint: None }
    }

    /// Overwrites the bytes at `pos` with `bytes`.
    fn replace_instruction(&mut self, pos: usize, bytes: Vec<u8>)
        requires
            pos + bytes@.len() <= old(self).instructions@.len(),
        ensures
            final(self).instructions@.len() == old(self).instructions@.len(),
            forall|k: int| 0 <= k < final(self).instructions@.len() ==> #[trigger] final(self).instructions@[k] == (
                if pos <= k < pos + bytes@.len() { bytes@[k - pos] } else { old(self).instructions@[k] }),
            final(self).starts == old(self).starts,
            final(self).constants == old(self).constants,
            final(self).break_stack == old(self).break_stack,
            final(self).symbol_table == old(self).symbol_table,
            final(self).current_line == old(self).current_line,
            final(self).current_col == old(self).current_col,
    {
        let n = self.instructions.len();
        let mut i: usize = 0;
        while i < bytes.len()
            invariant
                i <= bytes@.len(),
                n == self.instructions@.len(),
                pos + bytes@.len() <= self.instructions@.len(),
                self.instructions@.len() == old(self).instructions@.len(),
                forall|k: int| 0 <= k < self.instructions@.len() ==> #[trigger] self.instructions@[k] == (
                    if pos <= k < pos + i { bytes@[k - pos] } else { old(self).instructions@[k] }),
                self.starts == old(self).starts,
                self.constants == old(self).constants,
                self.break_stack == old(self).break_stack,
                self.symbol_table == old(self).symbol_table,
                self.current_line == old(self).current_line,
                self.current_col == old(self).current_col,
            decreases bytes@.len() - i,
        {
            self.instructions.set(pos + i, bytes[i]);
            i += 1;
        }
    }

    /// Sets the destination of the jump at `op_pos` to `operand`.
    fn change_operand(&mut self, op_pos: usize, operand: usize)
        requires
            old(self).wf(),
            jump_at(old(self).instructions@, old(self).starts@, op_pos as int),
            operand <= old(self).instructions@.len(),
        ensures
            final(self).wf(),
            final(self).extends(old(self)),
            unlanded(final(self).instructions@, final(self).starts@)
                .subset_of(unlanded(old(self).instructions@, old(self).starts@).remove(op_pos as int)),
            final(self).instructions@ == old(self).instructions@
                .update(op_pos + 1, ((operand % 65536) / 256) as u8)
                .update(op_pos + 2, (operand % 256) as u8),
            final(self).instructions@.len() == old(self).instructions@.len(),
            final(self).starts == old(self).starts,
            final(self).constants == old(self).constants,
            final(self).break_stack == old(self).break_stack,
            final(self).symbol_table == old(self).symbol_table,
            final(self).current_line == old(self).current_line,
            final(self).current_col == old(self).current_col,
    {
        let ghost old_code = self.instructions@;
        proof {
            assert(self.starts@.contains(op_pos as int));
            assert(op_pos + instruction_len(op_at(old_code, op_pos as int)) <= old_code.len()) by {
                reveal(code_wf);
            }
            crate::code::lemma_byte_opcode_roundtrip(old_code[op_pos as int]);
        }
        let op = match Opcode::from_byte(self.instructions[op_pos]) {
            Some(op) => op,
            None => { return; },
        };
        assert(op == Opcode::OpJump || op == Opcode::OpJumpNotTruthy);
        let bytes = make(op, &[operand]);
        self.replace_instruction(op_pos, bytes);
        proof {
            let new_code = self.instructions@;
            assert(new_code =~= old_code.update(op_pos + 1, ((operand % 65536) / 256) as u8)
                .update(op_pos + 2, (operand % 256) as u8));
            let st = self.starts@;
            lemma_operand_patch(old_code, new_code, st, op_pos as int);
            lemma_patch_keeps(old_code, new_code, st, op_pos as int);
            assert(is_jump_byte(old_code[op_pos as int]));
            lemma_code_wf_same_ops(old_code, new_code, st);
            crate::code::lemma_make_read_roundtrip(op, seq![operand]);
            assert(spec_read_u16(new_code, op_pos + 1) == operand % 65536);
            assert forall|q: int| #[trigger] unlanded(new_code, st).contains(q)
                implies unlanded(old_code, st).remove(op_pos as int).contains(q) by {
                assert(jump_at(new_code, st, q));
                assert(new_code[q] == old_code[q]);
                assert(jump_at(old_code, st, q));
            }
            assert forall|k: int| 0 <= k < self.break_stack@.len()
                implies all_jumps(new_code, st, target_jumps(#[trigger] self.break_stack@[k])) by {
                let s = target_jumps(self.break_stack@[k]);
                assert forall|j: int| 0 <= j < s.len() implies jump_at(new_code, st, #[trigger] s[j] as int) by {
                    assert(jump_at(old_code, st, s[j] as int));
                    assert(new_code[s[j] as int] == old_code[s[j] as int]);
                }
            }
        }
    }

    /// Adds `c` to the constant pool and gives its position.
    fn add_constant(&mut self, c: Constant) -> (pos: usize)
        requires
            function_lands(c),
        ensures
            functions_land(old(self).constants@) ==> functions_land(final(self).constants@),
            final(self).constants@ == old(self).constants@.push(c),
            pos == old(self).constants@.len(),
            final(self).instructions == old(self).instructions,
            final(self).starts == old(self).starts,
            final(self).break_stack == old(self).break_stack,
            final(self).symbol_table == old(self).symbol_table,
            final(self).current_line == old(self).current_line,
            final(self).current_col == old(self).current_col,
    {
        self.constants.push(c);
        proof {
            reveal(functions_land);
            assert forall|i: int| 0 <= i < self.constants@.len() && functions_land(old(self).constants@)
                implies #[trigger] function_lands(self.constants@[i]) by {
                if i < old(self).constants@.len() {
                    assert(self.constants@[i] == old(self).constants@[i]);
                }
            }
        }
        self.constants.len() - 1
    }

    /// Emits a load of the string constant `value`, reusing an equal one.
    fn emit_string(&mut self, value: &str)
        requires
            old(self).wf(),
        ensures
            final(self).waits_no_more(old(self)),
            final(self).wf(),
            final(self).extends(old(self)),
            final(self).break_stack == old(self).break_stack,
            final(self).symbol_table == old(self).symbol_table,
            final(self).current_line == old(self).current_line,
            final(self).current_col == old(self).current_col,
            old(self).constants@.is_prefix_of(final(self).constants@),
            final(self).constants@.len() <= old(self).constants@.len() + 1,
            final(self).instructions@.len() == old(self).instructions@.len() + 3,
    {
        let pos = match find_string(&self.constants, value) {
            Some(i) => i,
            None => self.add_constant(Constant::String(owned(value))),
        };
        let ghost before = *self;
        self.emit(Opcode::OpConstant, &[pos]);
        proof {
            lemma_extends_same(old(self), &before);
            lemma_extends_chain(old(self), &before, self);
        }
    }

    /// Emits a load of the atom constant `name`, reusing an equal one.
    fn emit_atom(&mut self, name: &str) -> (pos: usize)
        requires
            old(self).wf(),
        ensures
            final(self).waits_no_more(old(self)),
            final(self).wf(),
            final(self).extends(old(self)),
            final(self).break_stack == old(self).break_stack,
            final(self).symbol_table == old(self).symbol_table,
            final(self).current_line == old(self).current_line,
            final(self).current_col == old(self).current_col,
            old(self).constants@.is_prefix_of(final(self).constants@),
            final(self).constants@.len() <= old(self).constants@.len() + 1,
            (pos as int) < final(self).constants@.len(),
            atom_constant(final(self).constants@[pos as int], name@),
            forall|j: int| 0 <= j < pos ==> !atom_constant(#[trigger] final(self).constants@[j], name@),
            final(self).instructions@ == old(self).instructions@ + instruction_bytes(Opcode::OpConstant, seq![pos]),
            final(self).ends_in(Opcode::OpConstant),
    {
        let pos = match find_atom(&self.constants, name) {
            Some(i) => i,
            None => self.add_constant(Constant::Atom(owned(name))),
        };
        let ghost before = *self;
        self.emit(Opcode::OpConstant, &[pos]);
        proof {
            lemma_ends_in_emitted(&before, self, Opcode::OpConstant, seq![pos]);
            lemma_extends_same(old(self), &before);
            lemma_extends_chain(old(self), &before, self);
        }
        pos
    }

    /// Emits a load of the value of `symbol`.
    fn emit_get(&mut self, symbol: &Symbol)
        requires
            old(self).wf(),
        ensures
            final(self).starts@ == old(self).starts@.insert(old(self).instructions@.len() as int),
            final(self).waits_no_more(old(self)),
            final(self).wf(),
            final(self).extends(old(self)),
            final(self).instructions@ == old(self).instructions@ + instruction_bytes(get_opcode(symbol.scope), seq![symbol.index]),
            final(self).constants == old(self).constants,
            final(self).break_stack == old(self).break_stack,
            final(self).symbol_table == old(self).symbol_table,
            final(self).current_line == old(self).current_line,
            final(self).current_col == old(self).current_col,
    {
        match symbol.scope {
            SymbolScope::Local => { self.emit(Opcode::OpGetLocal, &[symbol.index]); },
            SymbolScope::Global => { self.emit(Opcode::OpGetGlobal, &[symbol.index]); },
            SymbolScope::Free => { self.emit(Opcode::OpGetFree, &[symbol.index]); },
        }
    }

    /// Emits a store of the top of the stack into `symbol`.
    fn emit_set(&mut self, symbol: &Symbol)
        requires
            old(self).wf(),
        ensures
            final(self).starts@ == old(self).starts@.insert(old(self).instructions@.len() as int),
            final(self).waits_no_more(old(self)),
            final(self).wf(),
            final(self).extends(old(self)),
            final(self).instructions@ == old(self).instructions@ + instruction_bytes(set_opcode(symbol.scope), seq![symbol.index]),
            final(self).constants == old(self).constants,
            final(self).break_stack == old(self).break_stack,
            final(self).symbol_table == old(self).symbol_table,
            final(self).current_line == old(self).current_line,
            final(self).current_col == old(self).current_col,
    {
        match symbol.scope {
            SymbolScope::Local => { self.emit(Opcode::OpSetLocal, &[symbol.index]); },
            SymbolScope::Global => { self.emit(Opcode::OpSetGlobal, &[symbol.index]); },
            SymbolScope::Free => { self.emit(Opcode::OpSetFree, &[symbol.index]); },
        }
    }

    /// Patches every pending jump of `target`: continues to `continue_dest`,
    /// breaks to `end_pos`.
    fn resolve_jumps(&mut self, target: BreakTarget, continue_dest: usize, end_pos: usize)
        requires
            old(self).wf(),
            all_jumps(old(self).instructions@, old(self).starts@, target_jumps(target)),
            continue_dest <= old(self).instructions@.len(),
            end_pos <= old(self).instructions@.len(),
        ensures
            final(self).wf(),
            final(self).extends(old(self)),
            unlanded(final(self).instructions@, final(self).starts@)
                .subset_of(unlanded(old(self).instructions@, old(self).starts@).difference(jump_set(target_jumps(target)))),
            final(self).instructions@.len() == old(self).instructions@.len(),
            final(self).starts == old(self).starts,
            final(self).constants == old(self).constants,
            final(self).break_stack == old(self).break_stack,
            final(self).symbol_table == old(self).symbol_table,
            final(self).current_line == old(self).current_line,
            final(self).current_col == old(self).current_col,
    {
        match target {
            BreakTarget::Loop { continue_jumps, break_jumps } => {
                proof {
                    assert forall|k: int| 0 <= k < continue_jumps@.len()
                        implies jump_at(self.instructions@, self.starts@, #[trigger] continue_jumps@[k] as int) by {
                        assert(target_jumps(target)[k] == continue_jumps@[k]);
                    }
                    assert forall|k: int| 0 <= k < break_jumps@.len()
                        implies jump_at(self.instructions@, self.starts@, #[trigger] break_jumps@[k] as int) by {
                        assert(target_jumps(target)[continue_jumps@.len() + k] == break_jumps@[k]);
                    }
                }
                let ghost u0 = unlanded(self.instructions@, self.starts@);
                self.patch_all(&continue_jumps, continue_dest);
                let ghost mid = *self;
                self.patch_all(&break_jumps, end_pos);
                proof {
                    lemma_extends_chain(old(self), &mid, self);
                    let tj = target_jumps(target);
                    assert forall|p: int| #[trigger] unlanded(self.instructions@, self.starts@).contains(p)
                        implies u0.difference(jump_set(tj)).contains(p) by {
                        if in_jumps(tj, p) {
                            let k = choose|k: int| 0 <= k < tj.len() && #[trigger] tj[k] as int == p;
                            let n = continue_jumps@.len() as int;
                            if k < n {
                                assert(continue_jumps@[k] == tj[k]);
                                assert(in_jumps(continue_jumps@, p));
                            } else {
                                assert(break_jumps@[k - n] == tj[k]);
                                assert(in_jumps(break_jumps@, p));
                            }
                        }
                    }
                }
            },
            BreakTarget::Block { break_jumps } => {
                self.patch_all(&break_jumps, end_pos);
            },
        }
    }

    /// Sets the destination of every jump in `jumps` to `dest`.
    fn patch_all(&mut self, jumps: &Vec<usize>, dest: usize)
        requires
            old(self).wf(),
            all_jumps(old(self).instructions@, old(self).starts@, jumps@),
            dest <= old(self).instructions@.len(),
        ensures
            final(self).wf(),
            final(self).extends(old(self)),
            unlanded(final(self).instructions@, final(self).starts@)
                .subset_of(unlanded(old(self).instructions@, old(self).starts@).difference(jump_set(jumps@))),
            final(self).instructions@.len() == old(self).instructions@.len(),
            final(self).starts == old(self).starts,
            final(self).constants == old(self).constants,
            final(self).break_stack == old(self).break_stack,
            final(self).symbol_table == old(self).symbol_table,
            final(self).current_line == old(self).current_line,
            final(self).current_col == old(self).current_col,
    {
        let mut i: usize = 0;
        proof { lemma_extends_same(old(self), self); }
        while i < jumps.len()
            invariant
                i <= jumps@.len(),
                self.wf(),
                self.extends(old(self)),
                self.instructions@.len() == old(self).instructions@.len(),
                self.starts == old(self).starts,
                self.constants == old(self).constants,
                self.break_stack == old(self).break_stack,
                self.symbol_table == old(self).symbol_table,
                self.current_line == old(self).current_line,
                self.current_col == old(self).current_col,
                all_jumps(self.instructions@, self.starts@, jumps@),
                dest <= old(self).instructions@.len(),
                forall|p: int| #[trigger] unlanded(self.instructions@, self.starts@).contains(p)
                    ==> unlanded(old(self).instructions@, old(self).starts@).contains(p)
                        && forall|k: int| 0 <= k < i ==> jumps@[k] as int != p,
            decreases jumps@.len() - i,
        {
            let ghost before = *self;
            self.change_operand(jumps[i], dest);
            proof {
                lemma_extends_chain(old(self), &before, self);
                assert forall|p: int| #[trigger] unlanded(self.instructions@, self.starts@).contains(p)
                    implies unlanded(old(self).instructions@, old(self).starts@).contains(p)
                        && forall|k: int| 0 <= k < i + 1 ==> jumps@[k] as int != p by {
                    assert(unlanded(before.instructions@, before.starts@).contains(p));
                }
                assert forall|k: int| 0 <= k < jumps@.len()
                    implies jump_at(self.instructions@, self.starts@, #[trigger] jumps@[k] as int) by {
                    assert(jump_at(before.instructions@, before.starts@, jumps@[k] as int));
                }
            }
            i += 1;
        }
        proof {
            assert forall|p: int| #[trigger] unlanded(self.instructions@, self.starts@).contains(p)
                implies unlanded(old(self).instructions@, old(self).starts@).difference(jump_set(jumps@)).contains(p) by {
                if in_jumps(jumps@, p) {
                    let k = choose|k: int| 0 <= k < jumps@.len() && #[trigger] jumps@[k] as int == p;
                    assert(jumps@[k] as int != p);
                }
            }
        }
    }

    /// Appends one instruction and gives where it begins.
    #[verifier::spinoff_prover]
    #[verifier::rlimit(60)]
    fn emit(&mut self, op: Opcode, operands: &[usize]) -> (pos: usize)
        requires
            old(self).wf(),
            operands@.len() >= crate::code::operand_widths(op).len(),
        ensures
            final(self).wf(),
            final(self).extends(old(self)),
            pos == old(self).instructions@.len(),
            final(self).instructions@ == old(self).instructions@ + instruction_bytes(op, operands@),
            final(self).starts@ == old(self).starts@.insert(pos as int),
            unlanded(final(self).instructions@, final(self).starts@)
                .subset_of(unlanded(old(self).instructions@, old(self).starts@).insert(pos as int)),
            (op != Opcode::OpJump && op != Opcode::OpJumpNotTruthy) || operands@[0] <= pos ==>
                unlanded(final(self).instructions@, final(self).starts@)
                    .subset_of(unlanded(old(self).instructions@, old(self).starts@)),
            final(self).constants == old(self).constants,
            final(self).break_stack == old(self).break_stack,
            final(self).symbol_table == old(self).symbol_table,
            final(self).current_line == old(self).current_line,
            final(self).current_col == old(self).current_col,
    {
        let instr = make(op, operands);
        let pos = self.instructions.len();
        let ghost old_code = self.instructions@;
        append_bytes(&mut self.instructions, &instr);
        proof {
            reveal(code_wf);
            crate::code::lemma_make_read_roundtrip(op, operands@);
            let new_code = self.instructions@;
            let new_starts = self.starts@.insert(pos as int);
            assert forall|p: int| #[trigger] self.starts@.contains(p) implies new_code[p] == old_code[p] by {}
            assert(op_at(new_code, pos as int) == op);
            assert forall|p: int| #[trigger] new_starts.contains(p) implies {
                &&& 0 <= p < new_code.len()
                &&& opcode_of_byte(new_code[p]) is Some
                &&& p + instruction_len(op_at(new_code, p)) <= new_code.len()
            } by {
                if p != pos { assert(new_code[p] == old_code[p]); }
            }
            assert forall|p: int, q: int| #[trigger] new_starts.contains(p) && #[trigger] new_starts.contains(q) && p < q
                implies p + instruction_len(op_at(new_code, p)) <= q by {
                assert(new_code[p] == old_code[p]);
            }
            self.starts = Ghost(new_starts);
            assert forall|k: int| 0 <= k < self.break_stack@.len()
                implies all_jumps(self.instructions@, self.starts@, target_jumps(#[trigger] self.break_stack@[k])) by {
                let s = target_jumps(self.break_stack@[k]);
                assert forall|j: int| 0 <= j < s.len() implies jump_at(self.instructions@, self.starts@, #[trigger] s[j] as int) by {
                    assert(jump_at(old_code, old(self).starts@, s[j] as int));
                }
            }
            let old_starts = old(self).starts@;
            assert forall|q: int| #[trigger] unlanded(new_code, new_starts).contains(q) && q != pos
                implies unlanded(old_code, old_starts).contains(q) by {
                assert(old_starts.contains(q));
                assert(new_code[q] == old_code[q]);
                crate::code::lemma_byte_opcode_roundtrip(old_code[q]);
                assert(q + instruction_len(op_at(old_code, q)) <= old_code.len());
                assert(new_code[q + 1] == old_code[q + 1]);
                assert(new_code[q + 2] == old_code[q + 2]);
            }
            if (op != Opcode::OpJump && op != Opcode::OpJumpNotTruthy) || operands@[0] <= pos {
                if unlanded(new_code, new_starts).contains(pos as int) {
                    crate::code::lemma_opcode_byte_roundtrip(op);
                    assert(new_code[pos as int] == opcode_byte(op));
                    assert(opcode_of_byte(opcode_byte(Opcode::OpJump)) == Some(Opcode::OpJump));
                    assert(opcode_of_byte(opcode_byte(Opcode::OpJumpNotTruthy)) == Some(Opcode::OpJumpNotTruthy));
                    assert(op == Opcode::OpJump || op == Opcode::OpJumpNotTruthy);
                    assert(new_code[pos + 1] == instruction_bytes(op, operands@)[1]);
                    assert(new_code[pos + 2] == instruction_bytes(op, operands@)[2]);
                    assert(spec_read_u16(new_code, pos + 1) == operands@[0] % 65536);
                    assert(false);
                }
            }
            assert(self.keeps_operands(old(self))) by {
                assert(old_code.is_prefix_of(new_code));
                lemma_append_keeps(old_code, new_code, old_starts);
            }
        }
        pos
    }
}


/// Whether some target of `stack` is a loop.
pub open spec fn has_loop(stack: Seq<BreakTarget>) -> bool {
    exists|i: int| 0 <= i < stack.len() && stack[i] is Loop
}

/// The innermost loop of `stack`, if any.
fn innermost_loop(stack: &Vec<BreakTarget>) -> (r: Option<usize>)
    ensures
        match r {
            Some(i) => (i as int) < stack@.len() && stack@[i as int] is Loop
                && forall|j: int| i < j < stack@.len() ==> !(#[trigger] stack@[j] is Loop),
            None => !has_loop(stack@),
        },
{
    let mut i: usize = stack.len();
    while i > 0
        invariant
            i <= stack@.len(),
            forall|j: int| i <= j < stack@.len() ==> !(#[trigger] stack@[j] is Loop),
        decreases i,
    {
        i -= 1;
        if let BreakTarget::Loop { .. } = &stack[i] {
            return Some(i);
        }
    }
    None
}

/// A copy of a list of symbols.
fn copy_symbol_list(v: &Vec<Symbol>) -> (r: Vec<Symbol>)
    ensures
        r@ == v@,
{
    let mut r: Vec<Symbol> = Vec::new();
    let mut i: usize = 0;
    while i < v.len()
        invariant
            i <= v@.len(),
            r@ == v@.take(i as int),
        decreases v@.len() - i,
    {
        r.push(v[i]);
        i += 1;
        assert(r@ =~= v@.take(i as int));
    }
    assert(v@.take(v@.len() as int) =~= v@);
    r
}

/// Pending jumps stay jumps as the code grows.
proof fn lemma_jumps_kept(old: &Compiler, new: &Compiler, s: Seq<usize>)
    requires
        new.extends(old),
        all_jumps(old.instructions@, old.starts@, s),
    ensures
        all_jumps(new.instructions@, new.starts@, s),
{
    assert forall|k: int| 0 <= k < s.len() implies jump_at(new.instructions@, new.starts@, #[trigger] s[k] as int) by {
        assert(jump_at(old.instructions@, old.starts@, s[k] as int));
        assert(old.starts@.contains(s[k] as int));
    }
}

/// A pending jump stays a jump as the code grows.
proof fn lemma_jump_kept(old: &Compiler, new: &Compiler, p: int)
    requires
        new.extends(old),
        jump_at(old.instructions@, old.starts@, p),
    ensures
        jump_at(new.instructions@, new.starts@, p),
{
    assert(old.starts@.contains(p));
}

/// Growth of the code composes.
proof fn lemma_grown_trans(a: &Compiler, b: &Compiler, c: &Compiler)
    requires
        b.grown(a),
        c.grown(b),
    ensures
        c.grown(a),
{
    assert forall|p: int| #[trigger] a.starts@.contains(p) implies c.instructions@[p] == a.instructions@[p] by {
        assert(b.starts@.contains(p));
    }
    assert(a.starts@.subset_of(c.starts@));
    assert forall|p: int| #[trigger] a.starts@.contains(p) && !is_jump_byte(a.instructions@[p])
        implies c.instructions@.subrange(p, p + instruction_len(op_at(a.instructions@, p)))
            == a.instructions@.subrange(p, p + instruction_len(op_at(a.instructions@, p))) by {
        assert(b.starts@.contains(p));
        assert(b.instructions@[p] == a.instructions@[p]);
    }
}

/// The positions of a prefix are positions of the whole.
proof fn lemma_jump_set_prefix(a: Seq<usize>, b: Seq<usize>)
    requires
        a.is_prefix_of(b),
    ensures
        jump_set(a).subset_of(jump_set(b)),
{
    assert forall|p: int| #[trigger] jump_set(a).contains(p) implies jump_set(b).contains(p) by {
        let k = choose|k: int| 0 <= k < a.len() && #[trigger] a[k] as int == p;
        assert(b[k] == a[k]);
    }
}

/// Settling composes.
proof fn lemma_settled_trans(a: &Compiler, b: &Compiler, c: &Compiler)
    requires
        b.settled(a),
        c.settled(b),
    ensures
        c.settled(a),
{
    lemma_stack_grows_trans(a.break_stack@, b.break_stack@, c.break_stack@);
    lemma_pending_grows(b.break_stack@, c.break_stack@);
}

/// Code that grew without new waiting jumps and with the same stack is
/// settled.
proof fn lemma_quiet_settled(a: &Compiler, b: &Compiler)
    requires
        b.waits_no_more(a),
        b.break_stack@ == a.break_stack@,
    ensures
        b.settled(a),
{
}

/// Taking the innermost target off a stack that grew by it, once its jumps
/// are patched, leaves code settled from before it was pushed.
proof fn lemma_settled_after_pop(a: &Compiler, b: &Compiler, c: &Compiler)
    requires
        b.settled(a),
        b.break_stack@.len() == a.break_stack@.len() + 1,
        c.break_stack@ == b.break_stack@.drop_last(),
        unlanded(c.instructions@, c.starts@).subset_of(
            unlanded(b.instructions@, b.starts@).difference(jump_set(target_jumps(b.break_stack@.last())))),
    ensures
        c.settled(a),
{
    assert forall|i: int, p: int| 0 <= i < a.break_stack@.len() && #[trigger] in_jumps(target_jumps(a.break_stack@[i]), p)
        implies in_jumps(target_jumps(c.break_stack@[i]), p) by {
        assert(in_jumps(target_jumps(b.break_stack@[i]), p));
        assert(c.break_stack@[i] == b.break_stack@[i]);
    }
    lemma_pending_pop(b.break_stack@);
}

/// The pending jumps of a stack that grew include those from before.
proof fn lemma_pending_grows(s: Seq<BreakTarget>, t: Seq<BreakTarget>)
    requires
        stack_grows(s, t),
    ensures
        pending(s).subset_of(pending(t)),
{
    assert forall|p: int| #[trigger] pending(s).contains(p) implies pending(t).contains(p) by {
        let i = choose|i: int| 0 <= i < s.len() && #[trigger] in_jumps(target_jumps(s[i]), p);
        assert(in_jumps(target_jumps(t[i]), p));
    }
}

/// Growth of the stack composes.
proof fn lemma_stack_grows_trans(a: Seq<BreakTarget>, b: Seq<BreakTarget>, c: Seq<BreakTarget>)
    requires
        stack_grows(a, b),
        stack_grows(b, c),
    ensures
        stack_grows(a, c),
{
    assert forall|i: int, p: int| 0 <= i < a.len() && #[trigger] in_jumps(target_jumps(a[i]), p)
        implies in_jumps(target_jumps(c[i]), p) by {
        assert(in_jumps(target_jumps(b[i]), p));
    }
}

/// The pending jumps of a stack are those of its innermost target and
/// those of the rest.
proof fn lemma_pending_pop(s: Seq<BreakTarget>)
    requires
        s.len() > 0,
    ensures
        pending(s) =~= pending(s.drop_last()).union(jump_set(target_jumps(s.last()))),
{
    let t = s.drop_last();
    assert forall|p: int| #[trigger] pending(s).contains(p) implies
        pending(t).union(jump_set(target_jumps(s.last()))).contains(p) by {
        let i = choose|i: int| 0 <= i < s.len() && #[trigger] in_jumps(target_jumps(s[i]), p);
        if i < s.len() - 1 {
            assert(t[i] == s[i]);
            assert(in_jumps(target_jumps(t[i]), p));
        }
    }
    assert forall|p: int| #[trigger] pending(t).union(jump_set(target_jumps(s.last()))).contains(p)
        implies pending(s).contains(p) by {
        if pending(t).contains(p) {
            let i = choose|i: int| 0 <= i < t.len() && #[trigger] in_jumps(target_jumps(t[i]), p);
            assert(s[i] == t[i]);
            assert(in_jumps(target_jumps(s[i]), p));
        } else {
            assert(in_jumps(target_jumps(s[s.len() - 1]), p));
        }
    }
}

impl Compiler {
    /// The code has grown from `old`: it is well formed, instructions that
    /// began before begin with the same opcode, and the constant pool only
    /// grew at its end.
    pub open spec fn grown(&self, old: &Compiler) -> bool {
        &&& self.wf()
        &&& self.extends(old)
        &&& old.constants@.is_prefix_of(self.constants@)
    }

    /// The last instruction is one of `op`'s.
    pub open spec fn ends_in(&self, op: Opcode) -> bool {
        ends_in(self.instructions@, self.starts@, op)
    }

    /// No jump waits for its destination that did not wait in `old`.
    pub open spec fn waits_no_more(&self, old: &Compiler) -> bool {
        unlanded(self.instructions@, self.starts@).subset_of(unlanded(old.instructions@, old.starts@))
    }

    /// The targets of `old` are still on the stack with at least their
    /// jumps, and every jump that waits for its destination waited in `old`
    /// or is pending on the stack.
    pub open spec fn settled(&self, old: &Compiler) -> bool {
        &&& stack_grows(old.break_stack@, self.break_stack@)
        &&& unlanded(self.instructions@, self.starts@).subset_of(
            unlanded(old.instructions@, old.starts@).union(pending(self.break_stack@)))
    }

    /// Every jump that waits for its destination waited in `old` or is at
    /// one of the positions in `extra`.
    pub open spec fn waits_only(&self, old: &Compiler, extra: Seq<usize>) -> bool {
        unlanded(self.instructions@, self.starts@).subset_of(
            unlanded(old.instructions@, old.starts@).union(jump_set(extra)))
    }

    /// As `settled`, where the jumps at `extra` may also still wait.
    pub open spec fn settled_with(&self, old: &Compiler, extra: Seq<usize>) -> bool {
        &&& stack_grows(old.break_stack@, self.break_stack@)
        &&& unlanded(self.instructions@, self.starts@).subset_of(
            unlanded(old.instructions@, old.starts@).union(pending(self.break_stack@)).union(jump_set(extra)))
    }

    /// Defines `name` in the current scope; fails when the scope has no
    /// slot left.
    fn define_name(&mut self, name: String, is_const: bool) -> (r: Result<Symbol, Diagnostic>)
        requires
            old(self).wf(),
        ensures
            r matches Err(d) ==> compile_failure(d.message@),
            final(self).instructions == old(self).instructions,
            final(self).starts == old(self).starts,
            final(self).constants == old(self).constants,
            final(self).break_stack == old(self).break_stack,
            final(self).current_line == old(self).current_line,
            final(self).current_col == old(self).current_col,
            final(self).wf(),
            final(self).grown(old(self)),
            r matches Ok(sym) ==> sym == (Symbol {
                scope: old(self).symbol_table.definition_scope(),
                index: old(self).symbol_table.num_definitions,
                is_const,
            }) && final(self).symbol_table.resolves(name@) == Some(sym),
            r is Ok ==> final(self).symbol_table.num_definitions == old(self).symbol_table.num_definitions + 1
                && final(self).symbol_table.outer == old(self).symbol_table.outer,
            r is Err <==> old(self).symbol_table.num_definitions == usize::MAX,
    {
        proof { lemma_extends_same(old(self), old(self)); }
        if self.symbol_table.num_definitions == usize::MAX {
            return Err(self.err(owned("Too many definitions in one scope")));
        }
        let sym = self.symbol_table.define(name, is_const);
        assert(self.constants@ =~= old(self).constants@);
        proof { lemma_extends_same(old(self), self); }
        Ok(sym)
    }

    /// The symbol that `name` refers to here; a local of an enclosing
    /// function becomes a free variable of this one.
    fn resolve_name(&mut self, name: &str) -> (r: Result<Symbol, String>)
        requires
            old(self).wf(),
        ensures
            final(self).instructions == old(self).instructions,
            final(self).starts == old(self).starts,
            final(self).constants == old(self).constants,
            final(self).break_stack == old(self).break_stack,
            final(self).current_line == old(self).current_line,
            final(self).current_col == old(self).current_col,
            final(self).grown(old(self)),
            r is Err <==> old(self).symbol_table.resolves(name@) is None,
            r matches Err(m) ==> m@ == "Undefined variable: "@ + name@,
            r matches Ok(sym) ==> old(self).symbol_table.resolves(name@) matches Some(found)
                && sym.is_const == found.is_const
                && (sym == found || sym.scope == SymbolScope::Free),
    {
        match self.symbol_table.resolve(name) {
            Some(symbol) => {
                if symbol.scope != SymbolScope::Global && self.symbol_table.outer.is_some()
                    && assoc_position(&self.symbol_table.store, name).is_none() {
                    let s = self.symbol_table.define_free(&symbol);
                    assert(self.constants@ =~= old(self).constants@);
                    proof { lemma_extends_same(old(self), self); }
                    Ok(s)
                } else {
                    assert(self.constants@ =~= old(self).constants@);
                    proof { lemma_extends_same(old(self), self); }
                    Ok(symbol)
                }
            },
            None => {
                assert(self.constants@ =~= old(self).constants@);
                proof { lemma_extends_same(old(self), self); }
                Err(join2("Undefined variable: ", name))
            },
        }
    }
}


impl Compiler {
    /// `return x` and `import x`: the operand, then the instruction.
    fn compile_unary_instruction(&mut self, expr: &Expression) -> (r: Result<(), Diagnostic>)
        requires
            old(self).wf(),
            expr is Return || expr is Import,
        ensures
            r matches Err(d) ==> compile_failure(d.message@),
            final(self).grown(old(self)),
            r is Ok ==> final(self).break_stack@.len() == old(self).break_stack@.len(),
            r is Ok ==> final(self).settled(old(self)),
            r is Ok ==> ends_as_form(final(self).instructions@, *expr),
            expr matches Expression::Return(inner) && **inner is Number ==> r is Ok,
            expr matches Expression::Import(inner) && **inner is Number ==> r is Ok,
        decreases expr, 0nat,
    {
        match expr {
            Expression::Return(inner) => {
                self.compile_expression(inner)?;
                let ghost s1 = *self;
                self.emit(Opcode::OpReturnValue, &[]);
                proof {
                    lemma_quiet_settled(&s1, self);
                    lemma_settled_trans(old(self), &s1, self);
                    lemma_ends_with(s1.instructions@, Opcode::OpReturnValue, seq![]);
                }
                Ok(())
            },
            Expression::Import(path) => {
                self.compile_expression(path)?;
                let ghost s1 = *self;
                self.emit(Opcode::OpImport, &[]);
                proof {
                    lemma_quiet_settled(&s1, self);
                    lemma_settled_trans(old(self), &s1, self);
                    lemma_ends_with(s1.instructions@, Opcode::OpImport, seq![]);
                }
                Ok(())
            },
            _ => Ok(()),
        }
    }

    /// An array, tuple or record literal: its parts, then the instruction that builds it.
    fn compile_collection(&mut self, expr: &Expression) -> (r: Result<(), Diagnostic>)
        requires
            old(self).wf(),
            expr is Array || expr is Tuple || expr is Hash,
        ensures
            r matches Err(d) ==> compile_failure(d.message@),
            final(self).grown(old(self)),
            r is Ok ==> final(self).break_stack@.len() == old(self).break_stack@.len(),
            r is Ok ==> final(self).settled(old(self)),
            r is Ok ==> ends_as_form(final(self).instructions@, *expr),
            expr matches Expression::Array(es) && all_numbers(es@) ==> r is Ok,
            expr matches Expression::Tuple(es) && all_numbers(es@) ==> r is Ok,
            expr matches Expression::Hash(ps) && number_values(ps@) ==> r is Ok,
            r is Ok ==> (expr matches Expression::Hash(ps) ==> forall|i: int| 0 <= i < ps@.len()
                ==> has_atom(final(self).constants@, #[trigger] ps@[i].0@)),
        decreases expr, 0nat,
    {
        match expr {
            Expression::Array(elements) => {
                self.compile_list(elements)?;
                let ghost s1 = *self;
                self.emit(Opcode::OpArray, &[elements.len()]);
                proof {
                    lemma_quiet_settled(&s1, self);
                    lemma_settled_trans(old(self), &s1, self);
                    lemma_ends_with(s1.instructions@, Opcode::OpArray, seq![elements.len()]);
                }
                Ok(())
            },
            Expression::Tuple(elements) => {
                self.compile_list(elements)?;
                let ghost s1 = *self;
                self.emit(Opcode::OpTuple, &[elements.len()]);
                proof {
                    lemma_quiet_settled(&s1, self);
                    lemma_settled_trans(old(self), &s1, self);
                    lemma_ends_with(s1.instructions@, Opcode::OpTuple, seq![elements.len()]);
                }
                Ok(())
            },
            Expression::Hash(pairs) => {
                self.compile_pairs(pairs)?;
                let ghost s1 = *self;
                self.emit(Opcode::OpHash, &[pairs.len()]);
                proof {
                    lemma_quiet_settled(&s1, self);
                    lemma_settled_trans(old(self), &s1, self);
                    lemma_ends_with(s1.instructions@, Opcode::OpHash, seq![pairs.len()]);
                }
                Ok(())
            },
            _ => Ok(()),
        }
    }

    /// `a[i]` and `a[i] = v`: the operands, then the instruction.
    fn compile_indexing(&mut self, expr: &Expression) -> (r: Result<(), Diagnostic>)
        requires
            old(self).wf(),
            expr is Index || expr is IndexAssign,
        ensures
            r matches Err(d) ==> compile_failure(d.message@),
            final(self).grown(old(self)),
            r is Ok ==> final(self).break_stack@.len() == old(self).break_stack@.len(),
            r is Ok ==> final(self).settled(old(self)),
            r is Ok ==> ends_as_form(final(self).instructions@, *expr),
            expr matches Expression::Index { left, index } && **left is Number && **index is Number ==> r is Ok,
            expr matches Expression::IndexAssign { left, index, value } && **left is Number && **index is Number
                && **value is Number ==> r is Ok,
        decreases expr, 0nat,
    {
        match expr {
            Expression::Index { left, index } => {
                self.compile_expression(left)?;
                let ghost s1 = *self;
                self.compile_expression(index)?;
                proof { lemma_settled_trans(old(self), &s1, self); }
                let ghost s2 = *self;
                self.emit(Opcode::OpIndex, &[]);
                proof {
                    lemma_quiet_settled(&s2, self);
                    lemma_settled_trans(old(self), &s2, self);
                    lemma_ends_with(s2.instructions@, Opcode::OpIndex, seq![]);
                }
                Ok(())
            },
            Expression::IndexAssign { left, index, value } => {
                self.compile_expression(left)?;
                let ghost s1 = *self;
                self.compile_expression(index)?;
                proof { lemma_settled_trans(old(self), &s1, self); }
                let ghost s2 = *self;
                self.compile_expression(value)?;
                proof { lemma_settled_trans(old(self), &s2, self); }
                let ghost s3 = *self;
                self.emit(Opcode::OpSetIndex, &[]);
                proof {
                    lemma_quiet_settled(&s3, self);
                    lemma_settled_trans(old(self), &s3, self);
                    lemma_ends_with(s3.instructions@, Opcode::OpSetIndex, seq![]);
                }
                Ok(())
            },
            _ => Ok(()),
        }
    }

    /// `x:m(args)`: the receiver, the method, the arguments, then the call.
    fn compile_method_call(&mut self, expr: &Expression) -> (r: Result<(), Diagnostic>)
        requires
            old(self).wf(),
            expr is MethodCall,
        ensures
            r matches Err(d) ==> compile_failure(d.message@),
            final(self).grown(old(self)),
            r is Ok ==> final(self).break_stack@.len() == old(self).break_stack@.len(),
            r is Ok ==> final(self).settled(old(self)),
            r is Ok ==> ends_as_form(final(self).instructions@, *expr),
            expr matches Expression::MethodCall { left, arguments, .. } && **left is Number && all_numbers(arguments@)
                ==> r is Ok,
            r is Ok ==> (expr matches Expression::MethodCall { method, .. } ==> has_atom(final(self).constants@, method@)),
        decreases expr, 0nat,
    {
        match expr {
            Expression::MethodCall { left, method, arguments } => {
                self.compile_expression(left)?;
                let ghost s0 = *self;
                let pos = match find_atom(&self.constants, method.as_str()) {
                    Some(i) => i,
                    None => self.add_constant(Constant::Atom(method.clone())),
                };
                let ghost named = self.constants@;
                proof { assert(atom_constant(named[pos as int], method@)); }
                self.emit(Opcode::OpGetMethod, &[pos]);
                proof { lemma_quiet_settled(&s0, self); lemma_settled_trans(old(self), &s0, self); }
                let ghost s1 = *self;
                self.compile_list(arguments)?;
                proof { lemma_settled_trans(old(self), &s1, self); }
                let ghost s2 = *self;
                self.emit(Opcode::OpCall, &[arguments.len() % 256 + 1]);
                proof {
                    lemma_quiet_settled(&s2, self);
                    lemma_settled_trans(old(self), &s2, self);
                    lemma_ends_with(s2.instructions@, Opcode::OpCall, seq![(arguments.len() % 256 + 1) as usize]);
                    assert(named.is_prefix_of(self.constants@));
                    assert(self.constants@[pos as int] == named[pos as int]);
                }
                Ok(())
            },
            _ => Ok(()),
        }
    }
}

impl Compiler {
    /// Compiles one expression; its value is left on the stack.
    pub fn compile_expression(&mut self, expr: &Expression) -> (r: Result<(), Diagnostic>)
        requires
            old(self).wf(),
        ensures
            r matches Err(d) ==> compile_failure(d.message@),
            final(self).grown(old(self)),
            r is Ok ==> final(self).break_stack@.len() == old(self).break_stack@.len(),
            r is Ok ==> final(self).settled(old(self)),
            expr is For && r is Ok ==> for_steps(old(self), final(self)),
            expr matches Expression::Number(t) ==> {
                &&& r is Ok
                &&& final(self).symbol_table == old(self).symbol_table
                &&& final(self).constants@.len() == old(self).constants@.len() + 1
                &&& number_constant(final(self).constants@.last(), t@)
                &&& final(self).instructions@ == old(self).instructions@
                    + instruction_bytes(Opcode::OpConstant, seq![old(self).constants@.len() as usize])
            },
            expr matches Expression::Identifier(n) ==> {
                &&& (r is Err <==> old(self).symbol_table.resolves(n@) is None)
                &&& r matches Err(d) ==> d.message@ == "Undefined variable: "@ + n@
                    && d.line == old(self).current_line && d.col == old(self).current_col
            },
            expr matches Expression::Assign { name, .. } ==> ((old(self).symbol_table.resolves(name@) matches Some(s)
                && s.is_const) ==> (r matches Err(d) && d.message@ == "Cannot reassign constant '"@ + name@ + "'"@)),
            expr matches Expression::Const { name, value, .. } ==> (**value is Number
                && old(self).symbol_table.num_definitions < usize::MAX ==> (r is Ok
                && (final(self).symbol_table.resolves(name@) matches Some(s) && s.is_const))),
            expr matches Expression::Let { name, value, .. } ==> (**value is Number
                && old(self).symbol_table.num_definitions < usize::MAX ==> (r is Ok
                && (final(self).symbol_table.resolves(name@) matches Some(s) && !s.is_const))),
            expr matches Expression::While { condition, body } && **condition is Number && **body is Number ==> r is Ok,
            expr is Break && old(self).break_stack@.len() == 0 ==>
                (r matches Err(d) && d.message@ == "break statement outside loop or block context"@
                    && *final(self) == *old(self)),
            expr is Continue && !has_loop(old(self).break_stack@) ==>
                (r matches Err(d) && d.message@ == "continue statement outside loop context"@
                    && *final(self) == *old(self)),
            r is Ok ==> ends_as_form(final(self).instructions@, spec_unwrap_loc(*expr)),
            spec_unwrap_loc(*expr) matches Expression::Infix { operator, .. } && infix_opcode(operator@) is None ==> r is Err,
            spec_unwrap_loc(*expr) matches Expression::Prefix { operator, .. } && prefix_opcode(operator@) is None ==> r is Err,
            expr matches Expression::Infix { left, operator, right } ==> (infix_opcode(operator@) matches Some(op)
                ==> (**left matches Expression::Number(a) ==> (**right matches Expression::Number(b)
                ==> r is Ok && numbers_then(*old(self), *final(self), a@, b@, op)))),
        decreases expr, 1nat,
    {
        match expr {
            Expression::Loc { line, col, expr: inner } => {
                self.current_line = *line;
                self.current_col = *col;
                self.compile_expression(inner)
            },
            Expression::Identifier(name) => {
                let res = self.compile_identifier(name.as_str());
                proof { lemma_quiet_settled(old(self), self); }
                res
            },
            Expression::StringLiteral(val) => {
                self.emit_string(val.as_str());
                proof { lemma_quiet_settled(old(self), self); }
                Ok(())
            },
            Expression::Atom(name) => {
                self.emit_atom(name.as_str());
                proof { lemma_quiet_settled(old(self), self); }
                Ok(())
            },
            Expression::Number(val) => {
                let pos = self.add_constant(Constant::Number(val.clone()));
                self.emit(Opcode::OpConstant, &[pos]);
                proof { lemma_quiet_settled(old(self), self); }
                Ok(())
            },
            Expression::Assign { .. } => self.compile_assign(expr),
            Expression::Function { .. } => self.compile_function(expr),
            Expression::Call { .. } => self.compile_call(expr),
            Expression::Infix { .. } => self.compile_infix(expr),
            Expression::Prefix { .. } => self.compile_prefix(expr),
            Expression::Block(exprs, is_breakable) => self.compile_block(exprs, *is_breakable),
            Expression::If { .. } => self.compile_if(expr),
            Expression::Let { name, value, .. } => self.compile_binding(expr, false),
            Expression::Const { name, value, .. } => self.compile_binding(expr, true),
            Expression::Return(_) | Expression::Import(_) => self.compile_unary_instruction(expr),
            Expression::Array(_) | Expression::Tuple(_) | Expression::Hash(_) => self.compile_collection(expr),
            Expression::Index { .. } | Expression::IndexAssign { .. } => self.compile_indexing(expr),
            Expression::MethodCall { .. } => self.compile_method_call(expr),
            Expression::Loop { .. } => self.compile_loop(expr),
            Expression::While { .. } => self.compile_while(expr),
            Expression::For { .. } => self.compile_for(expr),
            Expression::ForHash { .. } => self.compile_for_hash(expr),
            Expression::Break(_) => self.compile_break(expr),
            Expression::Continue => self.compile_continue(),
            Expression::Match { .. } => self.compile_match(expr),
            Expression::Question(_) => self.compile_question(expr),
        }
    }

    /// Compiles each expression in order, leaving all their values.
    fn compile_list(&mut self, exprs: &Vec<Expression>) -> (r: Result<(), Diagnostic>)
        requires
            old(self).wf(),
        ensures
            r matches Err(d) ==> compile_failure(d.message@),
            final(self).grown(old(self)),
            r is Ok ==> final(self).break_stack@.len() == old(self).break_stack@.len(),
            r is Ok ==> final(self).settled(old(self)),
            exprs@.len() == 0 ==> r is Ok && *final(self) == *old(self),
            all_numbers(exprs@) ==> r is Ok,
            r is Ok && exprs@.len() > 0 ==> ends_as_form(final(self).instructions@,
                spec_unwrap_loc(exprs@[exprs@.len() - 1])),
        decreases exprs, 3nat,
    {
        let ghost orig = *self;
        let mut i: usize = 0;
        while i < exprs.len()
            invariant
                *old(self) == orig,
                self.grown(&orig),
                self.settled(&orig),
                self.break_stack@.len() == orig.break_stack@.len(),
                i <= exprs@.len(),
                i == 0 ==> *self == orig,
                i > 0 ==> ends_as_form(self.instructions@, spec_unwrap_loc(exprs@[i - 1])),
            decreases exprs@.len() - i,
        {
            let ghost before = *self;
            let res = self.compile_expression(&exprs[i]);
            proof { lemma_grown_trans(&orig, &before, self); }
            if res.is_err() {
                return res;
            }
            proof { lemma_settled_trans(&orig, &before, self); }
            i += 1;
        }
        Ok(())
    }

    /// Compiles the keys (as atoms) and values of a record literal.
    fn compile_pairs(&mut self, pairs: &Vec<(String, Expression)>) -> (r: Result<(), Diagnostic>)
        requires
            old(self).wf(),
        ensures
            r matches Err(d) ==> compile_failure(d.message@),
            final(self).grown(old(self)),
            r is Ok ==> final(self).break_stack@.len() == old(self).break_stack@.len(),
            r is Ok ==> final(self).settled(old(self)),
            pairs@.len() == 0 ==> r is Ok && *final(self) == *old(self),
            number_values(pairs@) ==> r is Ok,
            r is Ok ==> forall|i: int| 0 <= i < pairs@.len() ==> has_atom(final(self).constants@, #[trigger] pairs@[i].0@),
        decreases pairs, 3nat,
    {
        let ghost orig = *self;
        let mut i: usize = 0;
        while i < pairs.len()
            invariant
                *old(self) == orig,
                self.grown(&orig),
                self.settled(&orig),
                self.break_stack@.len() == orig.break_stack@.len(),
                i <= pairs@.len(),
                i == 0 ==> *self == orig,
                forall|j: int| 0 <= j < i ==> has_atom(self.constants@, #[trigger] pairs@[j].0@),
            decreases pairs@.len() - i,
        {
            let ghost before = *self;
            self.emit_atom(pairs[i].0.as_str());
            let ghost mid = *self;
            let res = self.compile_expression(&pairs[i].1);
            proof {
                lemma_grown_trans(&before, &mid, self);
                lemma_grown_trans(&orig, &before, self);
            }
            if res.is_err() {
                return res;
            }
            proof {
                lemma_quiet_settled(&before, &mid);
                lemma_settled_trans(&before, &mid, self);
                lemma_settled_trans(&orig, &before, self);
            }
            i += 1;
        }
        Ok(())
    }
}


impl Compiler {
    /// Loads the value of a name.
    fn compile_identifier(&mut self, name: &str) -> (r: Result<(), Diagnostic>)
        requires
            old(self).wf(),
        ensures
            r matches Err(d) ==> compile_failure(d.message@),
            final(self).grown(old(self)),
            final(self).break_stack == old(self).break_stack,
            final(self).waits_no_more(old(self)),
            r is Err <==> old(self).symbol_table.resolves(name@) is None,
            r matches Err(d) ==> d.message@ == "Undefined variable: "@ + name@
                && d.line == old(self).current_line && d.col == old(self).current_col,
    {
        let symbol = match self.resolve_name(name) {
            Ok(s) => s,
            Err(m) => { return Err(self.err(m)); },
        };
        let ghost before = *self;
        self.emit_get(&symbol);
        proof { lemma_extends_chain(old(self), &before, self); }
        Ok(())
    }

    /// Stores a new value into a variable that is not constant.
    fn compile_assign(&mut self, expr: &Expression) -> (r: Result<(), Diagnostic>)
        requires
            old(self).wf(),
            expr is Assign,
        ensures
            r matches Err(d) ==> compile_failure(d.message@),
            final(self).grown(old(self)),
            r is Ok ==> final(self).break_stack@.len() == old(self).break_stack@.len(),
            r is Ok ==> final(self).settled(old(self)),
            expr matches Expression::Assign { name, .. } ==> ((old(self).symbol_table.resolves(name@) matches Some(s)
                && s.is_const) ==> (r matches Err(d) && d.message@ == "Cannot reassign constant '"@ + name@ + "'"@)),
        decreases expr, 0nat,
    {
        match expr {
            Expression::Assign { name, value } => {
                let symbol = match self.resolve_name(name.as_str()) {
                    Ok(s) => s,
                    Err(m) => { return Err(self.err(m)); },
                };
                if symbol.is_const {
                    return Err(self.err(join3("Cannot reassign constant '", name.as_str(), "'")));
                }
                self.compile_expression(value)?;
                self.emit_set(&symbol);
                Ok(())
            },
            _ => Ok(()),
        }
    }

    /// Compiles the callee, then the arguments, then the call.
    fn compile_call(&mut self, expr: &Expression) -> (r: Result<(), Diagnostic>)
        requires
            old(self).wf(),
            expr is Call,
        ensures
            r matches Err(d) ==> compile_failure(d.message@),
            final(self).grown(old(self)),
            r is Ok ==> final(self).break_stack@.len() == old(self).break_stack@.len(),
            r is Ok ==> final(self).settled(old(self)),
            r is Ok ==> ends_as_form(final(self).instructions@, *expr),
            expr matches Expression::Call { function, arguments } && **function is Number && all_numbers(arguments@)
                ==> r is Ok,
        decreases expr, 0nat,
    {
        match expr {
            Expression::Call { function, arguments } => {
                self.compile_expression(function)?;
                self.compile_list(arguments)?;
                let ghost s1 = *self;
                self.emit(Opcode::OpCall, &[arguments.len()]);
                proof { lemma_ends_with(s1.instructions@, Opcode::OpCall, seq![arguments.len()]); }
                Ok(())
            },
            _ => Ok(()),
        }
    }

    /// Compiles both operands, then the operator's instruction.
    fn compile_infix(&mut self, expr: &Expression) -> (r: Result<(), Diagnostic>)
        requires
            old(self).wf(),
            expr is Infix,
        ensures
            r matches Err(d) ==> compile_failure(d.message@),
            final(self).grown(old(self)),
            r is Ok ==> final(self).break_stack@.len() == old(self).break_stack@.len(),
            r is Ok ==> final(self).settled(old(self)),
            r is Ok ==> ends_as_form(final(self).instructions@, *expr),
            expr matches Expression::Infix { operator, .. } && infix_opcode(operator@) is None ==> r is Err,
            expr matches Expression::Infix { left, operator, right } && infix_opcode(operator@) is Some
                && **left is Number && **right is Number ==> r is Ok,
            expr matches Expression::Infix { left, operator, right } ==> (infix_opcode(operator@) matches Some(op)
                ==> (**left matches Expression::Number(a) ==> (**right matches Expression::Number(b)
                ==> numbers_then(*old(self), *final(self), a@, b@, op)))),
        decreases expr, 0nat,
    {
        match expr {
            Expression::Infix { left, operator, right } => {
                self.compile_expression(left)?;
                let ghost after_left = *self;
                self.compile_expression(right)?;
                proof {
                    if **left is Number && **right is Number {
                        assert(after_left.constants@.is_prefix_of(self.constants@));
                        assert(self.constants@[old(self).constants@.len() as int] == after_left.constants@.last());
                    }
                }
                let op = operator.as_str();
                let code = if str_eq(op, "+") {
                    Opcode::OpAdd
                } else if str_eq(op, "-") {
                    Opcode::OpSub
                } else if str_eq(op, "*") {
                    Opcode::OpMul
                } else if str_eq(op, "/") {
                    Opcode::OpDiv
                } else if str_eq(op, "==") {
                    Opcode::OpEqual
                } else if str_eq(op, "!=") {
                    Opcode::OpNotEqual
                } else if str_eq(op, ">") {
                    Opcode::OpGreater
                } else if str_eq(op, "<") {
                    Opcode::OpLess
                } else {
                    return Err(self.err(join2("Unknown operator: ", op)));
                };
                let ghost s1 = *self;
                self.emit(code, &[]);
                proof { lemma_ends_with(s1.instructions@, code, seq![]); }
                Ok(())
            },
            _ => Ok(()),
        }
    }

    /// Compiles the operand, then the operator's instruction.
    fn compile_prefix(&mut self, expr: &Expression) -> (r: Result<(), Diagnostic>)
        requires
            old(self).wf(),
            expr is Prefix,
        ensures
            r matches Err(d) ==> compile_failure(d.message@),
            final(self).grown(old(self)),
            r is Ok ==> final(self).break_stack@.len() == old(self).break_stack@.len(),
            r is Ok ==> final(self).settled(old(self)),
            r is Ok ==> ends_as_form(final(self).instructions@, *expr),
            expr matches Expression::Prefix { operator, .. } && prefix_opcode(operator@) is None ==> r is Err,
            expr matches Expression::Prefix { operator, right } && prefix_opcode(operator@) is Some
                && **right is Number ==> r is Ok,
        decreases expr, 0nat,
    {
        match expr {
            Expression::Prefix { operator, right } => {
                self.compile_expression(right)?;
                let op = operator.as_str();
                let code = if str_eq(op, "-") {
                    Opcode::OpMinus
                } else if str_eq(op, "!") {
                    Opcode::OpBang
                } else {
                    return Err(self.err(join2("Unknown prefix operator: ", op)));
                };
                let ghost s1 = *self;
                self.emit(code, &[]);
                proof { lemma_ends_with(s1.instructions@, code, seq![]); }
                Ok(())
            },
            _ => Ok(()),
        }
    }

    /// Defines the name, compiles the value and stores it.
    fn compile_binding(&mut self, expr: &Expression, is_const: bool) -> (r: Result<(), Diagnostic>)
        requires
            old(self).wf(),
            expr is Let || expr is Const,
        ensures
            r matches Err(d) ==> compile_failure(d.message@),
            final(self).grown(old(self)),
            r is Ok ==> final(self).break_stack@.len() == old(self).break_stack@.len(),
            r is Ok ==> final(self).settled(old(self)),
            r is Ok ==> ends_with(final(self).instructions@, if old(self).symbol_table.definition_scope() == SymbolScope::Local {
                Opcode::OpSetLocal } else { Opcode::OpSetGlobal }, seq![old(self).symbol_table.num_definitions]),
            expr matches Expression::Let { name, value, .. } ==> (**value is Number
                && old(self).symbol_table.num_definitions < usize::MAX ==> (r is Ok
                && (final(self).symbol_table.resolves(name@) matches Some(s) && s.is_const == is_const))),
            expr matches Expression::Const { name, value, .. } ==> (**value is Number
                && old(self).symbol_table.num_definitions < usize::MAX ==> (r is Ok
                && (final(self).symbol_table.resolves(name@) matches Some(s) && s.is_const == is_const))),
        decreases expr, 0nat,
    {
        let (name, value) = match expr {
            Expression::Let { name, value, .. } => (name, value),
            Expression::Const { name, value, .. } => (name, value),
            _ => { return Ok(()); },
        };
        let symbol = self.define_name(name.clone(), is_const)?;
        self.compile_expression(value)?;
        let ghost before_set = *self;
        if symbol.scope == SymbolScope::Local {
            self.emit(Opcode::OpSetLocal, &[symbol.index]);
            proof { lemma_ends_with(before_set.instructions@, Opcode::OpSetLocal, seq![symbol.index]); }
        } else {
            self.emit(Opcode::OpSetGlobal, &[symbol.index]);
            proof { lemma_ends_with(before_set.instructions@, Opcode::OpSetGlobal, seq![symbol.index]); }
        }
        Ok(())
    }
}


impl Compiler {
    /// Compiles a sequence of expressions, keeping only the last value
    /// (`:null` for none). A breakable block is a target for `break`.
    fn compile_block(&mut self, exprs: &Vec<Expression>, is_breakable: bool) -> (r: Result<(), Diagnostic>)
        requires
            old(self).wf(),
        ensures
            r matches Err(d) ==> compile_failure(d.message@),
            final(self).grown(old(self)),
            r is Ok ==> final(self).break_stack@.len() == old(self).break_stack@.len(),
            r is Ok ==> final(self).settled(old(self)),
            exprs@.len() == 0 ==> r is Ok && final(self).ends_in(Opcode::OpConstant)
                && ends_with_null(final(self).instructions@, final(self).constants@),
            r is Ok && !is_breakable && exprs@.len() > 0 ==> ends_as_form(final(self).instructions@,
                spec_unwrap_loc(exprs@[exprs@.len() - 1])),
        decreases exprs, 3nat,
    {
        if exprs.len() == 0 {
            let null_pos = self.emit_atom("null");
            proof {
                lemma_ends_with(old(self).instructions@, Opcode::OpConstant, seq![null_pos]);
                assert(ends_with(self.instructions@, Opcode::OpConstant, seq![null_pos]));
            }
            return Ok(());
        }
        if is_breakable {
            self.break_stack.push(BreakTarget::Block { break_jumps: Vec::new() });
        }
        let ghost orig = *self;
        proof {
            assert forall|i: int, p: int| 0 <= i < old(self).break_stack@.len()
                && #[trigger] in_jumps(target_jumps(old(self).break_stack@[i]), p)
                implies in_jumps(target_jumps(orig.break_stack@[i]), p) by {
                assert(orig.break_stack@[i] == old(self).break_stack@[i]);
            }
            assert(orig.settled(old(self)));
        }
        let mut i: usize = 0;
        while i < exprs.len()
            invariant
                self.grown(&orig),
                self.grown(old(self)),
                self.settled(&orig),
                orig.settled(old(self)),
                !is_breakable ==> orig == *old(self),
                self.break_stack@.len() == orig.break_stack@.len(),
                orig.break_stack@.len() == old(self).break_stack@.len() + if is_breakable { 1int } else { 0int },
                i <= exprs@.len(),
                0 < i && i == exprs@.len() ==> ends_as_form(self.instructions@, spec_unwrap_loc(exprs@[i - 1])),
            decreases exprs@.len() - i,
        {
            let ghost before = *self;
            let res = self.compile_expression(&exprs[i]);
            if res.is_err() {
                return res;
            }
            proof { lemma_settled_trans(&orig, &before, self); }
            if i + 1 != exprs.len() {
                self.emit(Opcode::OpPop, &[]);
            }
            i += 1;
        }
        proof { lemma_settled_trans(old(self), &orig, self); }
        if is_breakable {
            let ghost before_pop = *self;
            let target = self.break_stack.pop().unwrap();
            proof {
                assert(all_jumps(self.instructions@, self.starts@, target_jumps(target)));
            }
            let end_pos = self.instructions.len();
            self.resolve_jumps(target, 0, end_pos);
            proof { lemma_settled_after_pop(old(self), &before_pop, self); }
        }
        Ok(())
    }

    /// Compiles a conditional; a missing branch gives `:null`.
    fn compile_if(&mut self, expr: &Expression) -> (r: Result<(), Diagnostic>)
        requires
            old(self).wf(),
            expr is If,
        ensures
            r matches Err(d) ==> compile_failure(d.message@),
            final(self).grown(old(self)),
            r is Ok ==> final(self).break_stack@.len() == old(self).break_stack@.len(),
            r is Ok ==> final(self).settled(old(self)),
            r is Ok ==> (expr matches Expression::If { alternative, .. } ==> (alternative is None ==> final(self).ends_in(Opcode::OpConstant))),
        decreases expr, 0nat,
    {
        match expr {
            Expression::If { condition, consequence, alternative } => {
                self.compile_expression(condition)?;
                let jump_not_truthy_pos = self.emit(Opcode::OpJumpNotTruthy, &[9999]);
                let ghost after_jnt = *self;
                self.compile_expression(consequence)?;
                let jump_pos = self.emit(Opcode::OpJump, &[9999]);
                proof { assert(jump_at(self.instructions@, self.starts@, jump_not_truthy_pos as int)) by {
                    assert(after_jnt.starts@.contains(jump_not_truthy_pos as int));
                } }
                let here = self.instructions.len();
                self.change_operand(jump_not_truthy_pos, here);
                proof { assert(jump_at(self.instructions@, self.starts@, jump_pos as int)); }
                match alternative {
                    Some(alt) => {
                        let ghost before_alt = *self;
                        self.compile_expression(alt)?;
                        proof { assert(before_alt.starts@.contains(jump_pos as int)); }
                    },
                    None => {
                        self.emit_atom("null");
                    },
                }
                let end = self.instructions.len();
                let ghost before_patch = *self;
                self.change_operand(jump_pos, end);
                proof {
                    if alternative.is_none() {
                        lemma_ends_in_kept(&before_patch, self, Opcode::OpConstant);
                    }
                }
                Ok(())
            },
            _ => Ok(()),
        }
    }

    /// Compiles a function literal into a constant and a closure over the
    /// free variables it uses.
    fn compile_function(&mut self, expr: &Expression) -> (r: Result<(), Diagnostic>)
        requires
            old(self).wf(),
            expr is Function,
        ensures
            r matches Err(d) ==> compile_failure(d.message@),
            final(self).grown(old(self)),
            r is Ok ==> final(self).break_stack@.len() == old(self).break_stack@.len(),
            r is Ok ==> final(self).settled(old(self)),
            r is Ok ==> final(self).ends_in(Opcode::OpClosure),
            r is Ok ==> final(self).constants@.len() > old(self).constants@.len() && final(self).constants@.last() is CompiledFunction,
        decreases expr, 0nat,
    {
        match expr {
            Expression::Function { parameters, body, .. } => {
                let mut fn_compiler = Compiler::new_with_state(self.symbol_table.duplicate());
                std::mem::swap(&mut fn_compiler.constants, &mut self.constants);
                let ghost start = fn_compiler;
                let mut i: usize = 0;
                while i < parameters.len()
                    invariant
                        fn_compiler.grown(&start),
                        fn_compiler.instructions@.len() == 0,
                        fn_compiler.constants == start.constants,
                        fn_compiler.break_stack@.len() == 0,
                        self.constants@.len() == 0,
                        self.instructions == old(self).instructions,
                        self.starts == old(self).starts,
                        self.break_stack == old(self).break_stack,
                        self.wf(),
                        start.constants@ == old(self).constants@,
                        i <= parameters@.len(),
                    decreases parameters@.len() - i,
                {
                    match fn_compiler.define_name(parameters[i].0.clone(), false) {
                        Ok(_) => {},
                        Err(e) => {
                            std::mem::swap(&mut fn_compiler.constants, &mut self.constants);
                            return Err(e);
                        },
                    }
                    i += 1;
                }
                let ghost before_body = fn_compiler;
                proof { lemma_empty_code_lands(before_body.instructions@, before_body.starts@); }
                if let Err(e) = fn_compiler.compile_block(body, false) {
                    std::mem::swap(&mut fn_compiler.constants, &mut self.constants);
                    return Err(e);
                }
                let ghost after_body = fn_compiler;
                fn_compiler.emit(Opcode::OpReturnValue, &[]);
                proof {
                    let code = fn_compiler.instructions@;
                    let st = fn_compiler.starts@;
                    assert forall|p: int| #[trigger] jump_at(code, st, p) implies landed(code, p) by {
                        if !landed(code, p) {
                            assert(unlanded(code, st).contains(p));
                            assert(unlanded(after_body.instructions@, after_body.starts@).contains(p));
                            assert(!pending(after_body.break_stack@).contains(p));
                            assert(unlanded(before_body.instructions@, before_body.starts@).contains(p));
                        }
                    }
                    assert(code_wf(code, st));
                }
                let ghost fn_code = fn_compiler.instructions@;
                let ghost fn_starts = fn_compiler.starts@;
                let num_locals = fn_compiler.symbol_table.num_definitions;
                let free_symbols = copy_symbol_list(&fn_compiler.symbol_table.free_symbols);
                let num_free = free_symbols.len();
                std::mem::swap(&mut fn_compiler.constants, &mut self.constants);
                let fn_obj = Constant::CompiledFunction {
                    instructions: fn_compiler.instructions,
                    num_locals,
                    num_parameters: parameters.len(),
                };
                proof {
                    assert(fn_obj->instructions@ == fn_code);
                    assert(code_wf(fn_obj->instructions@, fn_starts) && jumps_land(fn_obj->instructions@, fn_starts));
                    assert(function_lands(fn_obj));
                }
                let pos = self.add_constant(fn_obj);
                let ghost before_free = *self;
                let mut k: usize = 0;
                while k < free_symbols.len()
                    invariant
                        self.grown(&before_free),
                        self.waits_no_more(old(self)),
                        self.break_stack == old(self).break_stack,
                        k <= free_symbols@.len(),
                        self.constants@ == before_free.constants@,
                    decreases free_symbols@.len() - k,
                {
                    self.emit_get(&free_symbols[k]);
                    k += 1;
                }
                let ghost before_closure = *self;
                self.emit(Opcode::OpClosure, &[pos, num_free]);
                proof {
                    lemma_quiet_settled(old(self), self);
                    lemma_ends_in_emitted(&before_closure, self, Opcode::OpClosure, seq![pos, num_free]);
                }
                Ok(())
            },
            _ => Ok(()),
        }
    }
}


impl Compiler {
    /// A fresh loop target on top of the stack.
    fn push_loop_target(&mut self)
        requires
            old(self).wf(),
        ensures
            final(self).wf(),
            final(self).grown(old(self)),
            final(self).settled(old(self)),
            final(self).break_stack@.len() == old(self).break_stack@.len() + 1,
            final(self).instructions == old(self).instructions,
            final(self).starts == old(self).starts,
            final(self).symbol_table == old(self).symbol_table,
            final(self).current_line == old(self).current_line,
            final(self).current_col == old(self).current_col,
    {
        self.break_stack.push(BreakTarget::Loop { continue_jumps: Vec::new(), break_jumps: Vec::new() });
        proof {
            assert forall|i: int| 0 <= i < self.break_stack@.len()
                implies all_jumps(self.instructions@, self.starts@, target_jumps(#[trigger] self.break_stack@[i])) by {
                if i < old(self).break_stack@.len() {
                    assert(self.break_stack@[i] == old(self).break_stack@[i]);
                } else {
                    assert(target_jumps(self.break_stack@[i]) =~= Seq::<usize>::empty());
                }
            }
            assert(self.constants@ =~= old(self).constants@);
            lemma_extends_same(old(self), self);
        }
    }

    /// Takes the innermost target off the stack and patches its jumps.
    fn finish_target(&mut self, continue_dest: usize, end_pos: usize)
        requires
            old(self).wf(),
            old(self).break_stack@.len() > 0,
            continue_dest <= old(self).instructions@.len(),
            end_pos <= old(self).instructions@.len(),
        ensures
            unlanded(final(self).instructions@, final(self).starts@).subset_of(
                unlanded(old(self).instructions@, old(self).starts@)
                    .difference(jump_set(target_jumps(old(self).break_stack@.last())))),
            final(self).wf(),
            final(self).extends(old(self)),
            final(self).constants == old(self).constants,
            final(self).break_stack@ == old(self).break_stack@.drop_last(),
            final(self).instructions@.len() == old(self).instructions@.len(),
    {
        let target = self.break_stack.pop().unwrap();
        proof {
            assert(all_jumps(self.instructions@, self.starts@, target_jumps(old(self).break_stack@.last())));
            assert forall|i: int| 0 <= i < self.break_stack@.len()
                implies all_jumps(self.instructions@, self.starts@, target_jumps(#[trigger] self.break_stack@[i])) by {
                assert(self.break_stack@[i] == old(self).break_stack@[i]);
            }
            lemma_extends_same(old(self), self);
        }
        let ghost mid = *self;
        self.resolve_jumps(target, continue_dest, end_pos);
        assert(self.constants@ =~= old(self).constants@);
        proof { lemma_extends_chain(old(self), &mid, self); }
    }

    /// `loop body end`: repeats until a `break`; its value is `:null`.
    fn compile_loop(&mut self, expr: &Expression) -> (r: Result<(), Diagnostic>)
        requires
            old(self).wf(),
            expr is Loop,
        ensures
            r matches Err(d) ==> compile_failure(d.message@),
            final(self).grown(old(self)),
            r is Ok ==> final(self).break_stack@.len() == old(self).break_stack@.len(),
            r is Ok ==> final(self).settled(old(self)),
            r is Ok ==> final(self).ends_in(Opcode::OpConstant) && ends_with_null(final(self).instructions@, final(self).constants@),
        decreases expr, 0nat,
    {
        match expr {
            Expression::Loop { body } => {
                let start_pos = self.instructions.len();
                self.push_loop_target();
                self.compile_expression(body)?;
                self.emit(Opcode::OpPop, &[]);
                let continue_dest = self.instructions.len();
                self.emit(Opcode::OpJump, &[start_pos]);
                let end_pos = self.instructions.len();
                let ghost before_finish = *self;
                self.finish_target(continue_dest, end_pos);
                proof { lemma_settled_after_pop(old(self), &before_finish, self); }
                let ghost before_null = *self;
                let null_pos = self.emit_atom("null");
                proof {
                    lemma_ends_with(before_null.instructions@, Opcode::OpConstant, seq![null_pos]);
                    assert(ends_with(self.instructions@, Opcode::OpConstant, seq![null_pos]));
                }
                Ok(())
            },
            _ => Ok(()),
        }
    }

    /// `while condition body end`; its value is `:null`.
    fn compile_while(&mut self, expr: &Expression) -> (r: Result<(), Diagnostic>)
        requires
            old(self).wf(),
            expr is While,
        ensures
            r matches Err(d) ==> compile_failure(d.message@),
            final(self).grown(old(self)),
            r is Ok ==> final(self).break_stack@.len() == old(self).break_stack@.len(),
            r is Ok ==> final(self).settled(old(self)),
            r is Ok ==> final(self).ends_in(Opcode::OpConstant),
            expr matches Expression::While { condition, body } && **condition is Number && **body is Number ==> r is Ok,
        decreases expr, 0nat,
    {
        match expr {
            Expression::While { condition, body } => {
                let start_pos = self.instructions.len();
                self.push_loop_target();
                self.compile_expression(condition)?;
                let jump_out_pos = self.emit(Opcode::OpJumpNotTruthy, &[9999]);
                let ghost at_jump = *self;
                self.compile_expression(body)?;
                self.emit(Opcode::OpPop, &[]);
                let continue_dest = self.instructions.len();
                self.emit(Opcode::OpJump, &[start_pos]);
                let normal_exit = self.instructions.len();
                proof { lemma_jump_kept(&at_jump, self, jump_out_pos as int); }
                self.change_operand(jump_out_pos, normal_exit);
                self.emit_atom("null");
                let end_pos = self.instructions.len();
                let ghost before_finish = *self;
                self.finish_target(continue_dest, end_pos);
                proof {
                    lemma_settled_after_pop(old(self), &before_finish, self);
                    lemma_ends_in_kept(&before_finish, self, Opcode::OpConstant);
                }
                Ok(())
            },
            _ => Ok(()),
        }
    }

    /// Emits `index = index + 1` for the loop counter `idx_sym`.
    fn emit_increment(&mut self, idx_sym: &Symbol)
        requires
            old(self).wf(),
        ensures
            final(self).waits_no_more(old(self)),
            final(self).grown(old(self)),
            final(self).break_stack == old(self).break_stack,
            final(self).symbol_table == old(self).symbol_table,
            final(self).constants@.len() == old(self).constants@.len() + 1,
            number_constant(final(self).constants@[old(self).constants@.len() as int], "1"@),
            final(self).starts@.contains(old(self).instructions@.len() as int),
            final(self).starts@.contains(old(self).instructions@.len() as int + get_bytes(*idx_sym).len()),
            final(self).starts@.contains(old(self).instructions@.len() as int + get_bytes(*idx_sym).len() + 3),
            final(self).starts@.contains(old(self).instructions@.len() as int + get_bytes(*idx_sym).len() + 4),
            final(self).starts@.contains(old(self).instructions@.len() as int + get_bytes(*idx_sym).len() + 4 + set_bytes(*idx_sym).len()),
            final(self).instructions@ == old(self).instructions@
                + instruction_bytes(get_opcode(idx_sym.scope), seq![idx_sym.index])
                + instruction_bytes(Opcode::OpConstant, seq![old(self).constants@.len() as usize])
                + instruction_bytes(Opcode::OpAdd, seq![])
                + instruction_bytes(set_opcode(idx_sym.scope), seq![idx_sym.index])
                + instruction_bytes(Opcode::OpPop, seq![]),
    {
        self.emit_get(idx_sym);
        let ghost s0 = *self;
        let one_pos = self.add_constant(Constant::Number(owned("1")));
        let ghost s1 = *self;
        self.emit(Opcode::OpConstant, &[one_pos]);
        let ghost s2 = *self;
        self.emit(Opcode::OpAdd, &[]);
        let ghost s3 = *self;
        self.emit_set(idx_sym);
        let ghost s4 = *self;
        self.emit(Opcode::OpPop, &[]);
        proof {
            lemma_extends_same(&s0, &s1);
            lemma_extends_chain(old(self), &s0, &s1);
            lemma_extends_chain(old(self), &s1, &s2);
            lemma_extends_chain(old(self), &s2, &s3);
            lemma_extends_chain(old(self), &s3, &s4);
            lemma_extends_chain(old(self), &s4, self);
        }
    }

    /// Emits `index = 0` for the loop counter `idx_sym`.
    fn emit_zero(&mut self, idx_sym: &Symbol)
        requires
            old(self).wf(),
        ensures
            final(self).waits_no_more(old(self)),
            final(self).grown(old(self)),
            final(self).break_stack == old(self).break_stack,
            final(self).symbol_table == old(self).symbol_table,
            final(self).constants@.len() == old(self).constants@.len() + 1,
            number_constant(final(self).constants@[old(self).constants@.len() as int], "0"@),
            final(self).starts@.contains(old(self).instructions@.len() as int),
            final(self).starts@.contains(old(self).instructions@.len() as int + 3),
            final(self).starts@.contains(old(self).instructions@.len() as int + 3 + set_bytes(*idx_sym).len()),
            final(self).instructions@ == old(self).instructions@
                + instruction_bytes(Opcode::OpConstant, seq![old(self).constants@.len() as usize])
                + instruction_bytes(set_opcode(idx_sym.scope), seq![idx_sym.index])
                + instruction_bytes(Opcode::OpPop, seq![]),
    {
        let zero_pos = self.add_constant(Constant::Number(owned("0")));
        let ghost s0 = *self;
        self.emit(Opcode::OpConstant, &[zero_pos]);
        let ghost s1 = *self;
        self.emit_set(idx_sym);
        let ghost s2 = *self;
        self.emit(Opcode::OpPop, &[]);
        proof {
            lemma_extends_same(old(self), &s0);
            lemma_extends_chain(old(self), &s0, &s1);
            lemma_extends_chain(old(self), &s1, &s2);
            lemma_extends_chain(old(self), &s2, self);
        }
    }

    /// Emits `target = source[index]`.
    fn emit_element(&mut self, source: &Symbol, index: &Symbol, target: &Symbol)
        requires
            old(self).wf(),
        ensures
            final(self).waits_no_more(old(self)),
            final(self).grown(old(self)),
            final(self).break_stack == old(self).break_stack,
            final(self).symbol_table == old(self).symbol_table,
            final(self).constants == old(self).constants,
            final(self).starts@.contains(old(self).instructions@.len() as int),
            final(self).starts@.contains(old(self).instructions@.len() as int + get_bytes(*source).len()),
            final(self).starts@.contains(old(self).instructions@.len() as int + get_bytes(*source).len() + get_bytes(*index).len()),
            final(self).starts@.contains(old(self).instructions@.len() as int + get_bytes(*source).len() + get_bytes(*index).len() + 1),
            final(self).starts@.contains(old(self).instructions@.len() as int + get_bytes(*source).len() + get_bytes(*index).len() + 1
                + set_bytes(*target).len()),
            final(self).instructions@ == old(self).instructions@
                + instruction_bytes(get_opcode(source.scope), seq![source.index])
                + instruction_bytes(get_opcode(index.scope), seq![index.index])
                + instruction_bytes(Opcode::OpIndex, seq![])
                + instruction_bytes(set_opcode(target.scope), seq![target.index])
                + instruction_bytes(Opcode::OpPop, seq![]),
    {
        self.emit_get(source);
        self.emit_get(index);
        self.emit(Opcode::OpIndex, &[]);
        self.emit_set(target);
        self.emit(Opcode::OpPop, &[]);
    }

    /// A hidden variable named `prefix` followed by `pos`.
    fn define_hidden(&mut self, prefix: &str, pos: usize) -> (r: Result<Symbol, Diagnostic>)
        requires
            old(self).wf(),
        ensures
            r matches Err(d) ==> compile_failure(d.message@),
            final(self).grown(old(self)),
            final(self).instructions == old(self).instructions,
            final(self).starts == old(self).starts,
            final(self).break_stack == old(self).break_stack,
            final(self).constants == old(self).constants,
            r matches Ok(sym) ==> sym == (Symbol {
                scope: old(self).symbol_table.definition_scope(),
                index: old(self).symbol_table.num_definitions,
                is_const: false,
            }) && final(self).symbol_table.resolves(prefix@ + spec_decimal(pos as nat)) == Some(sym),
            r is Ok ==> final(self).symbol_table.num_definitions == old(self).symbol_table.num_definitions + 1
                && final(self).symbol_table.outer == old(self).symbol_table.outer,
            r is Err <==> old(self).symbol_table.num_definitions == usize::MAX,
    {
        let name = join2(prefix, decimal_string(pos).as_str());
        self.define_name(name, false)
    }

    /// `for element in array body end`; its value is `:null`.
    #[verifier::spinoff_prover]
    #[verifier::rlimit(100)]
    fn compile_for(&mut self, expr: &Expression) -> (r: Result<(), Diagnostic>)
        requires
            old(self).wf(),
            expr is For,
        ensures
            r matches Err(d) ==> compile_failure(d.message@),
            final(self).grown(old(self)),
            r is Ok ==> final(self).break_stack@.len() == old(self).break_stack@.len(),
            r is Ok ==> final(self).settled(old(self)),
            r is Ok ==> final(self).ends_in(Opcode::OpConstant),
            r is Ok ==> for_steps(old(self), final(self)),
        decreases expr, 0nat,
    {
        match expr {
            Expression::For { element, iterable, body } => {
                let start_pos_id = self.instructions.len();
                let arr_sym = self.define_hidden("_arr_", start_pos_id)?;
                let idx_sym = self.define_hidden("_idx_", start_pos_id)?;
                let len_sym = self.define_hidden("_len_", start_pos_id)?;
                self.compile_expression(iterable)?;
                let ghost sa = *self;
                self.emit_set(&arr_sym);
                let ghost sa1 = *self;
                self.emit(Opcode::OpPop, &[]);
                let ghost sa2 = *self;
                self.emit_zero(&idx_sym);
                let ghost sb = *self;
                self.emit_get(&arr_sym);
                self.emit(Opcode::OpArrayLen, &[]);
                self.emit_set(&len_sym);
                self.emit(Opcode::OpPop, &[]);
                let loop_start = self.instructions.len();
                self.push_loop_target();
                self.emit_get(&idx_sym);
                self.emit_get(&len_sym);
                self.emit(Opcode::OpLess, &[]);
                let jump_out_pos = self.emit(Opcode::OpJumpNotTruthy, &[9999]);
                let ghost at_jump = *self;
                let el_sym = self.define_name(element.clone(), false)?;
                let ghost sc = *self;
                self.emit_element(&arr_sym, &idx_sym, &el_sym);
                let ghost sd = *self;
                self.compile_expression(body)?;
                self.emit(Opcode::OpPop, &[]);
                let continue_dest = self.instructions.len();
                let ghost se = *self;
                self.emit_increment(&idx_sym);
                let ghost sf = *self;
                self.emit(Opcode::OpJump, &[loop_start]);
                let normal_exit = self.instructions.len();
                proof { lemma_jump_kept(&at_jump, self, jump_out_pos as int); }
                self.change_operand(jump_out_pos, normal_exit);
                self.emit_atom("null");
                let end_pos = self.instructions.len();
                let ghost before_finish = *self;
                self.finish_target(continue_dest, end_pos);
                proof {
                    lemma_settled_after_pop(old(self), &before_finish, self);
                    lemma_ends_in_kept(&before_finish, self, Opcode::OpConstant);
                    assert(sb.constants@.len() == sb.constants.len());
                    assert(sf.constants@.len() == sf.constants.len());
                    lemma_for_code(old(self), &sa, &sa1, &sa2, &sb, &sc, &sd, &se, &sf, self,
                        arr_sym, idx_sym, el_sym);
                }
                Ok(())
            },
            _ => Ok(()),
        }
    }

    /// `for key, value in record body end`; its value is `:null`.
    #[verifier::spinoff_prover]
    #[verifier::rlimit(80)]
    fn compile_for_hash(&mut self, expr: &Expression) -> (r: Result<(), Diagnostic>)
        requires
            old(self).wf(),
            expr is ForHash,
        ensures
            r matches Err(d) ==> compile_failure(d.message@),
            final(self).grown(old(self)),
            r is Ok ==> final(self).break_stack@.len() == old(self).break_stack@.len(),
            r is Ok ==> final(self).settled(old(self)),
            r is Ok ==> final(self).ends_in(Opcode::OpConstant),
        decreases expr, 0nat,
    {
        match expr {
            Expression::ForHash { key, value, iterable, body } => {
                let start_pos_id = self.instructions.len();
                let hash_sym = self.define_hidden("_hash_", start_pos_id)?;
                let keys_sym = self.define_hidden("_keys_", start_pos_id)?;
                let idx_sym = self.define_hidden("_idx_", start_pos_id)?;
                let len_sym = self.define_hidden("_len_", start_pos_id)?;
                self.compile_expression(iterable)?;
                self.emit_set(&hash_sym);
                self.emit(Opcode::OpPop, &[]);
                self.emit_get(&hash_sym);
                self.emit(Opcode::OpHashKeys, &[]);
                self.emit_set(&keys_sym);
                self.emit(Opcode::OpPop, &[]);
                self.emit_zero(&idx_sym);
                self.emit_get(&keys_sym);
                self.emit(Opcode::OpArrayLen, &[]);
                self.emit_set(&len_sym);
                self.emit(Opcode::OpPop, &[]);
                let loop_start = self.instructions.len();
                self.push_loop_target();
                self.emit_get(&idx_sym);
                self.emit_get(&len_sym);
                self.emit(Opcode::OpLess, &[]);
                let jump_out_pos = self.emit(Opcode::OpJumpNotTruthy, &[9999]);
                let ghost at_jump = *self;
                let key_sym = self.define_name(key.clone(), false)?;
                self.emit_element(&keys_sym, &idx_sym, &key_sym);
                let val_sym = self.define_name(value.clone(), false)?;
                self.emit_element(&hash_sym, &key_sym, &val_sym);
                self.compile_expression(body)?;
                self.emit(Opcode::OpPop, &[]);
                let continue_dest = self.instructions.len();
                self.emit_increment(&idx_sym);
                self.emit(Opcode::OpJump, &[loop_start]);
                let normal_exit = self.instructions.len();
                proof { lemma_jump_kept(&at_jump, self, jump_out_pos as int); }
                self.change_operand(jump_out_pos, normal_exit);
                self.emit_atom("null");
                let end_pos = self.instructions.len();
                let ghost before_finish = *self;
                self.finish_target(continue_dest, end_pos);
                proof {
                    lemma_settled_after_pop(old(self), &before_finish, self);
                    lemma_ends_in_kept(&before_finish, self, Opcode::OpConstant);
                }
                Ok(())
            },
            _ => Ok(()),
        }
    }
}


/// `target` with the jump at `offset` added to its breaks.
fn add_break(target: BreakTarget, offset: usize) -> (r: BreakTarget)
    ensures
        target_jumps(r).len() == target_jumps(target).len() + 1,
        in_jumps(target_jumps(r), offset as int),
        forall|p: int| #[trigger] in_jumps(target_jumps(target), p) ==> in_jumps(target_jumps(r), p),
        forall|k: int| 0 <= k < target_jumps(r).len() ==> #[trigger] target_jumps(r)[k] == offset
            || target_jumps(target).contains(target_jumps(r)[k]),
        r is Loop == target is Loop,
{
    match target {
        BreakTarget::Loop { continue_jumps, break_jumps } => {
            let mut b = break_jumps;
            b.push(offset);
            let r = BreakTarget::Loop { continue_jumps, break_jumps: b };
            proof {
                let old_j = target_jumps(target);
                assert forall|k: int| 0 <= k < target_jumps(r).len() implies #[trigger] target_jumps(r)[k] == offset
                    || old_j.contains(target_jumps(r)[k]) by {
                    if k < target_jumps(r).len() - 1 {
                        assert(target_jumps(r)[k] == old_j[k]);
                    }
                }
                assert(target_jumps(r)[old_j.len() as int] == offset);
                assert forall|p: int| #[trigger] in_jumps(old_j, p) implies in_jumps(target_jumps(r), p) by {
                    let k = choose|k: int| 0 <= k < old_j.len() && #[trigger] old_j[k] as int == p;
                    assert(target_jumps(r)[k] == old_j[k]);
                }
            }
            r
        },
        BreakTarget::Block { break_jumps } => {
            let mut b = break_jumps;
            b.push(offset);
            let r = BreakTarget::Block { break_jumps: b };
            proof {
                let old_j = target_jumps(target);
                assert forall|k: int| 0 <= k < target_jumps(r).len() implies #[trigger] target_jumps(r)[k] == offset
                    || old_j.contains(target_jumps(r)[k]) by {
                    if k < target_jumps(r).len() - 1 {
                        assert(target_jumps(r)[k] == old_j[k]);
                    }
                }
                assert(target_jumps(r)[old_j.len() as int] == offset);
                assert forall|p: int| #[trigger] in_jumps(old_j, p) implies in_jumps(target_jumps(r), p) by {
                    let k = choose|k: int| 0 <= k < old_j.len() && #[trigger] old_j[k] as int == p;
                    assert(target_jumps(r)[k] == old_j[k]);
                }
            }
            r
        },
    }
}

/// `target` with the jump at `offset` added to its continues.
fn add_continue(target: BreakTarget, offset: usize) -> (r: BreakTarget)
    requires
        target is Loop,
    ensures
        in_jumps(target_jumps(r), offset as int),
        forall|p: int| #[trigger] in_jumps(target_jumps(target), p) ==> in_jumps(target_jumps(r), p),
        forall|k: int| 0 <= k < target_jumps(r).len() ==> #[trigger] target_jumps(r)[k] == offset
            || target_jumps(target).contains(target_jumps(r)[k]),
        r is Loop == target is Loop,
{
    match target {
        BreakTarget::Loop { continue_jumps, break_jumps } => {
            let mut c = continue_jumps;
            c.push(offset);
            let r = BreakTarget::Loop { continue_jumps: c, break_jumps };
            proof {
                let old_j = target_jumps(target);
                let n = continue_jumps@.len() as int;
                assert forall|k: int| 0 <= k < target_jumps(r).len() implies #[trigger] target_jumps(r)[k] == offset
                    || old_j.contains(target_jumps(r)[k]) by {
                    if k < n {
                        assert(target_jumps(r)[k] == old_j[k]);
                    } else if k > n {
                        assert(target_jumps(r)[k] == old_j[k - 1]);
                    }
                }
                assert(target_jumps(r)[n] == offset);
                assert forall|p: int| #[trigger] in_jumps(old_j, p) implies in_jumps(target_jumps(r), p) by {
                    let k = choose|k: int| 0 <= k < old_j.len() && #[trigger] old_j[k] as int == p;
                    if k < n {
                        assert(target_jumps(r)[k] == old_j[k]);
                    } else {
                        assert(target_jumps(r)[k + 1] == old_j[k]);
                    }
                }
            }
            r
        },
        BreakTarget::Block { break_jumps } => BreakTarget::Block { break_jumps },
    }
}

impl Compiler {
    /// `break` or `break value`: jumps to the end of the innermost loop or
    /// breakable block, with the value (or `:null`) on the stack.
    fn compile_break(&mut self, expr: &Expression) -> (r: Result<(), Diagnostic>)
        requires
            old(self).wf(),
            expr is Break,
        ensures
            r matches Err(d) ==> compile_failure(d.message@),
            final(self).grown(old(self)),
            r is Ok ==> final(self).break_stack@.len() == old(self).break_stack@.len(),
            r is Ok ==> final(self).settled(old(self)),
            old(self).break_stack@.len() == 0 ==>
                (r matches Err(d) && d.message@ == "break statement outside loop or block context"@
                    && *final(self) == *old(self)),
        decreases expr, 0nat,
    {
        match expr {
            Expression::Break(val_opt) => {
                if self.break_stack.len() == 0 {
                    return Err(self.err(owned("break statement outside loop or block context")));
                }
                match val_opt {
                    Some(val) => { self.compile_expression(val)?; },
                    None => {
                        self.emit_atom("null");
                        proof { lemma_quiet_settled(old(self), self); }
                    },
                }
                let ghost s1 = *self;
                let offset = self.emit(Opcode::OpJump, &[9999]);
                let ghost before = *self;
                let target = self.break_stack.pop().unwrap();
                let new_target = add_break(target, offset);
                self.break_stack.push(new_target);
                proof {
                    let n = self.break_stack@.len() as int;
                    assert forall|i: int, p: int| 0 <= i < s1.break_stack@.len()
                        && #[trigger] in_jumps(target_jumps(s1.break_stack@[i]), p)
                        implies in_jumps(target_jumps(self.break_stack@[i]), p) by {
                        if i < n - 1 {
                            assert(self.break_stack@[i] == s1.break_stack@[i]);
                        }
                    }
                    lemma_pending_grows(s1.break_stack@, self.break_stack@);
                    lemma_stack_grows_trans(old(self).break_stack@, s1.break_stack@, self.break_stack@);
                    assert(in_jumps(target_jumps(self.break_stack@[n - 1]), offset as int));
                    assert(pending(self.break_stack@).contains(offset as int));
                    assert forall|p: int| #[trigger] unlanded(self.instructions@, self.starts@).contains(p)
                        implies unlanded(old(self).instructions@, old(self).starts@).union(pending(self.break_stack@)).contains(p) by {
                        if p != offset as int {
                            assert(unlanded(s1.instructions@, s1.starts@).contains(p));
                        }
                    }
                }
                proof {
                    let n = self.break_stack@.len() as int;
                    assert forall|i: int| 0 <= i < n
                        implies all_jumps(self.instructions@, self.starts@, target_jumps(#[trigger] self.break_stack@[i])) by {
                        if i < n - 1 {
                            assert(self.break_stack@[i] == before.break_stack@[i]);
                        } else {
                            let old_j = target_jumps(target);
                            assert(all_jumps(before.instructions@, before.starts@, target_jumps(before.break_stack@[n - 1])));
                            assert forall|k: int| 0 <= k < target_jumps(new_target).len()
                                implies jump_at(self.instructions@, self.starts@, #[trigger] target_jumps(new_target)[k] as int) by {
                                if target_jumps(new_target)[k] != offset {
                                    let j = choose|j: int| 0 <= j < old_j.len() && old_j[j] == target_jumps(new_target)[k];
                                    assert(jump_at(self.instructions@, self.starts@, old_j[j] as int));
                                }
                            }
                        }
                    }
                    assert(self.constants@ =~= before.constants@);
                }
                Ok(())
            },
            _ => Ok(()),
        }
    }

    /// `continue`: jumps to the next round of the innermost loop.
    fn compile_continue(&mut self) -> (r: Result<(), Diagnostic>)
        requires
            old(self).wf(),
        ensures
            r matches Err(d) ==> compile_failure(d.message@),
            final(self).grown(old(self)),
            r is Ok ==> final(self).break_stack@.len() == old(self).break_stack@.len(),
            r is Ok ==> final(self).settled(old(self)),
            !has_loop(old(self).break_stack@) ==>
                (r matches Err(d) && d.message@ == "continue statement outside loop context"@
                    && *final(self) == *old(self)),
    {
        match innermost_loop(&self.break_stack) {
            Some(idx) => {
                let offset = self.emit(Opcode::OpJump, &[9999]);
                let ghost before = *self;
                let target = self.break_stack.remove(idx);
                let new_target = add_continue(target, offset);
                self.break_stack.insert(idx, new_target);
                proof {
                    assert(self.break_stack@ =~= before.break_stack@.update(idx as int, new_target));
                    let s0 = old(self).break_stack@;
                    assert forall|i: int, p: int| 0 <= i < s0.len()
                        && #[trigger] in_jumps(target_jumps(s0[i]), p)
                        implies in_jumps(target_jumps(self.break_stack@[i]), p) by {
                        if i != idx {
                            assert(self.break_stack@[i] == s0[i]);
                        }
                    }
                    assert(in_jumps(target_jumps(self.break_stack@[idx as int]), offset as int));
                    assert(pending(self.break_stack@).contains(offset as int));
                    lemma_pending_grows(s0, self.break_stack@);
                    assert forall|p: int| #[trigger] unlanded(self.instructions@, self.starts@).contains(p)
                        implies unlanded(old(self).instructions@, old(self).starts@).union(pending(self.break_stack@)).contains(p) by {
                        if p != offset as int {
                            assert(unlanded(before.instructions@, before.starts@).contains(p));
                        }
                    }
                    assert(self.settled(old(self)));
                    let n = self.break_stack@.len() as int;
                    assert forall|i: int| 0 <= i < n
                        implies all_jumps(self.instructions@, self.starts@, target_jumps(#[trigger] self.break_stack@[i])) by {
                        if i != idx {
                            assert(self.break_stack@[i] == before.break_stack@[i]);
                        } else {
                            let old_j = target_jumps(target);
                            assert(all_jumps(before.instructions@, before.starts@, target_jumps(before.break_stack@[i])));
                            assert forall|k: int| 0 <= k < target_jumps(new_target).len()
                                implies jump_at(self.instructions@, self.starts@, #[trigger] target_jumps(new_target)[k] as int) by {
                                if target_jumps(new_target)[k] != offset {
                                    let j = choose|j: int| 0 <= j < old_j.len() && old_j[j] == target_jumps(new_target)[k];
                                    assert(jump_at(self.instructions@, self.starts@, old_j[j] as int));
                                }
                            }
                        }
                    }
                    assert(self.constants@ =~= before.constants@);
                }
            },
            None => {
                return Err(self.err(owned("continue statement outside loop context")));
            },
        }
        let ghost s1 = *self;
        self.emit_atom("null");
        proof {
            lemma_quiet_settled(&s1, self);
            lemma_settled_trans(old(self), &s1, self);
        }
        Ok(())
    }

    /// `expr?`: the second element of an `(:ok, value)` result, or else
    /// a return of the whole result from the function.
    fn compile_question(&mut self, expr: &Expression) -> (r: Result<(), Diagnostic>)
        requires
            old(self).wf(),
            expr is Question,
        ensures
            r matches Err(d) ==> compile_failure(d.message@),
            final(self).grown(old(self)),
            r is Ok ==> final(self).break_stack@.len() == old(self).break_stack@.len(),
            r is Ok ==> final(self).settled(old(self)),
            r is Ok ==> final(self).ends_in(Opcode::OpReturnValue),
        decreases expr, 0nat,
    {
        match expr {
            Expression::Question(inner) => {
                let start_pos_id = self.instructions.len();
                let res_sym = self.define_hidden("_res_", start_pos_id)?;
                self.compile_expression(inner)?;
                self.emit_set(&res_sym);
                self.emit(Opcode::OpPop, &[]);
                self.emit_get(&res_sym);
                let zero_pos = self.add_constant(Constant::Number(owned("0")));
                self.emit(Opcode::OpConstant, &[zero_pos]);
                self.emit(Opcode::OpIndex, &[]);
                let ok_pos = self.add_constant(Constant::Atom(owned("ok")));
                self.emit(Opcode::OpConstant, &[ok_pos]);
                self.emit(Opcode::OpEqual, &[]);
                let jump_fail_pos = self.emit(Opcode::OpJumpNotTruthy, &[9999]);
                let ghost at_fail = *self;
                self.emit_get(&res_sym);
                let one_pos = self.add_constant(Constant::Number(owned("1")));
                self.emit(Opcode::OpConstant, &[one_pos]);
                self.emit(Opcode::OpIndex, &[]);
                let jump_end_pos = self.emit(Opcode::OpJump, &[9999]);
                let fail_start = self.instructions.len();
                proof { lemma_jump_kept(&at_fail, self, jump_fail_pos as int); }
                self.change_operand(jump_fail_pos, fail_start);
                let ghost at_end = *self;
                self.emit_get(&res_sym);
                let ghost before_ret = *self;
                self.emit(Opcode::OpReturnValue, &[]);
                proof { lemma_ends_in_emitted(&before_ret, self, Opcode::OpReturnValue, seq![]); }
                let end_start = self.instructions.len();
                proof { lemma_jump_kept(&at_end, self, jump_end_pos as int); }
                let ghost before_patch = *self;
                self.change_operand(jump_end_pos, end_start);
                proof { lemma_ends_in_kept(&before_patch, self, Opcode::OpReturnValue); }
                Ok(())
            },
            _ => Ok(()),
        }
    }

    /// Loads the subject, then indexes into it along `path`.
    fn emit_access_path(&mut self, subject_sym: &Symbol, path: &Vec<usize>)
        requires
            old(self).wf(),
        ensures
            final(self).waits_no_more(old(self)),
            final(self).grown(old(self)),
            final(self).break_stack == old(self).break_stack,
            final(self).symbol_table == old(self).symbol_table,
            final(self).instructions@ == old(self).instructions@
                + instruction_bytes(get_opcode(subject_sym.scope), seq![subject_sym.index])
                + path_code(path@.len(), old(self).constants@.len()),
            old(self).constants@.is_prefix_of(final(self).constants@),
            final(self).constants@.len() == old(self).constants@.len() + path@.len(),
            forall|i: int| 0 <= i < path@.len() ==> number_constant(
                #[trigger] final(self).constants@[old(self).constants@.len() + i], spec_decimal(path@[i] as nat)),
    {
        self.emit_get(subject_sym);
        let ghost orig = *self;
        let ghost base = old(self).constants@.len();
        let mut i: usize = 0;
        while i < path.len()
            invariant
                self.grown(old(self)),
                self.waits_no_more(old(self)),
                self.break_stack == old(self).break_stack,
                self.symbol_table == old(self).symbol_table,
                i <= path@.len(),
                base == old(self).constants@.len(),
                self.instructions@ == orig.instructions@ + path_code(i as nat, base),
                old(self).constants@.is_prefix_of(self.constants@),
                self.constants@.len() == base + i,
                forall|k: int| 0 <= k < i ==> number_constant(#[trigger] self.constants@[base + k], spec_decimal(path@[k] as nat)),
            decreases path@.len() - i,
        {
            let ghost before = *self;
            let idx_pos = self.add_constant(Constant::Number(decimal_string(path[i])));
            self.emit(Opcode::OpConstant, &[idx_pos]);
            self.emit(Opcode::OpIndex, &[]);
            proof {
                assert(idx_pos == base + i);
                assert(self.instructions@ =~= orig.instructions@ + path_code((i + 1) as nat, base));
                assert forall|k: int| 0 <= k < i + 1 implies number_constant(#[trigger] self.constants@[base + k],
                    spec_decimal(path@[k] as nat)) by {
                    if k < i {
                        assert(self.constants@[base + k] == before.constants@[base + k]);
                    }
                }
            }
            i += 1;
        }
        proof { assert(orig.instructions@ + path_code(path@.len(), base) =~= self.instructions@); }
    }

    /// Emits `subject-part == constant`, and a jump to the next case when
    /// it is false; the jump is added to `jump_next_offsets`.
    fn emit_compare_and_skip(&mut self, subject_sym: &Symbol, path: &Vec<usize>, c: Constant,
        jump_next_offsets: &mut Vec<usize>)
        requires
            old(self).wf(),
            function_lands(c),
            all_jumps(old(self).instructions@, old(self).starts@, old(jump_next_offsets)@),
        ensures
            final(self).grown(old(self)),
            final(self).break_stack == old(self).break_stack,
            final(self).symbol_table == old(self).symbol_table,
            all_jumps(final(self).instructions@, final(self).starts@, final(jump_next_offsets)@),
            old(jump_next_offsets)@.is_prefix_of(final(jump_next_offsets)@),
            final(self).waits_only(old(self), final(jump_next_offsets)@),
            final(self).constants@.len() == old(self).constants@.len() + path@.len() + 1,
            final(self).constants@.last() == c,
            final(self).instructions@ == old(self).instructions@
                + instruction_bytes(get_opcode(subject_sym.scope), seq![subject_sym.index])
                + path_code(path@.len(), old(self).constants@.len())
                + instruction_bytes(Opcode::OpConstant, seq![(old(self).constants@.len() + path@.len()) as usize])
                + instruction_bytes(Opcode::OpEqual, seq![])
                + instruction_bytes(Opcode::OpJumpNotTruthy, seq![9999usize]),
            final(jump_next_offsets)@ == old(jump_next_offsets)@.push(
                (final(self).instructions@.len() - instruction_bytes(Opcode::OpJumpNotTruthy, seq![9999usize]).len()) as usize),
            final(self).ends_in(Opcode::OpJumpNotTruthy),
    {
        self.emit_access_path(subject_sym, path);
        let const_pos = self.add_constant(c);
        self.emit(Opcode::OpConstant, &[const_pos]);
        self.emit(Opcode::OpEqual, &[]);
        let ghost s1 = *self;
        let offset = self.emit(Opcode::OpJumpNotTruthy, &[9999]);
        proof {
            lemma_jumps_kept(old(self), self, jump_next_offsets@);
            lemma_ends_in_emitted(&s1, self, Opcode::OpJumpNotTruthy, seq![9999usize]);
        }
        jump_next_offsets.push(offset);
        proof {
            let v = jump_next_offsets@;
            assert(v[v.len() - 1] as int == offset as int);
            assert forall|p: int| #[trigger] unlanded(self.instructions@, self.starts@).contains(p)
                implies unlanded(old(self).instructions@, old(self).starts@).union(jump_set(v)).contains(p) by {
                if p != offset as int {
                    assert(unlanded(s1.instructions@, s1.starts@).contains(p));
                }
            }
        }
    }

    /// Tests the subject part at `path` against `pattern` and binds its
    /// names; each failing test jumps, and its jump is added to
    /// `jump_next_offsets`.
    fn compile_pattern_elements(&mut self, pattern: &Pattern, subject_sym: &Symbol, path: &Vec<usize>,
        jump_next_offsets: &mut Vec<usize>) -> (r: Result<(), Diagnostic>)
        requires
            old(self).wf(),
            all_jumps(old(self).instructions@, old(self).starts@, old(jump_next_offsets)@),
        ensures
            r matches Err(d) ==> compile_failure(d.message@),
            final(self).grown(old(self)),
            final(self).break_stack == old(self).break_stack,
            all_jumps(final(self).instructions@, final(self).starts@, final(jump_next_offsets)@),
            r is Ok ==> old(jump_next_offsets)@.is_prefix_of(final(jump_next_offsets)@),
            r is Ok ==> final(self).waits_only(old(self), final(jump_next_offsets)@),
            pattern is Wildcard ==> r is Ok && *final(self) == *old(self)
                && final(jump_next_offsets)@ == old(jump_next_offsets)@,
            pattern matches Pattern::Identifier(name) ==> {
                &&& (r is Err <==> old(self).symbol_table.num_definitions == usize::MAX)
                &&& r is Ok ==> final(jump_next_offsets)@ == old(jump_next_offsets)@
                    && final(self).ends_in(Opcode::OpPop)
                    && final(self).symbol_table.resolves(name@) == Some(Symbol {
                        scope: old(self).symbol_table.definition_scope(),
                        index: old(self).symbol_table.num_definitions,
                        is_const: false,
                    })
            },
            pattern is Number || pattern is StringLiteral || pattern is Atom ==> r is Ok
                && final(self).ends_in(Opcode::OpJumpNotTruthy)
                && final(jump_next_offsets)@.len() == old(jump_next_offsets)@.len() + 1,
            pattern matches Pattern::Number(v) ==> number_constant(final(self).constants@.last(), v@),
            pattern matches Pattern::StringLiteral(v) ==> string_constant(final(self).constants@.last(), v@),
            pattern matches Pattern::Atom(v) ==> atom_constant(final(self).constants@.last(), v@),
            r is Ok && tests_subject(*pattern) ==> final(jump_next_offsets)@.len() > old(jump_next_offsets)@.len(),
        decreases pattern, 0nat,
    {
        match pattern {
            Pattern::Wildcard => {},
            Pattern::Identifier(name) => {
                let var_sym = match self.define_name(name.clone(), false) {
                    Ok(s) => s,
                    Err(e) => { return Err(e); },
                };
                self.emit_access_path(subject_sym, path);
                self.emit_set(&var_sym);
                let ghost before_pop = *self;
                self.emit(Opcode::OpPop, &[]);
                proof {
                    lemma_jumps_kept(old(self), self, jump_next_offsets@);
                    lemma_ends_in_emitted(&before_pop, self, Opcode::OpPop, seq![]);
                }
            },
            Pattern::Number(val) => {
                self.emit_compare_and_skip(subject_sym, path, Constant::Number(val.clone()), jump_next_offsets);
            },
            Pattern::StringLiteral(val) => {
                self.emit_compare_and_skip(subject_sym, path, Constant::String(val.clone()), jump_next_offsets);
            },
            Pattern::Atom(name) => {
                self.emit_compare_and_skip(subject_sym, path, Constant::Atom(name.clone()), jump_next_offsets);
            },
            Pattern::Tuple(elements) => {
                self.emit_access_path(subject_sym, path);
                self.emit(Opcode::OpTupleLen, &[]);
                let size_pos = self.add_constant(Constant::Number(decimal_string(elements.len())));
                self.emit(Opcode::OpConstant, &[size_pos]);
                self.emit(Opcode::OpEqual, &[]);
                let ghost s1 = *self;
                let offset = self.emit(Opcode::OpJumpNotTruthy, &[9999]);
                proof { lemma_jumps_kept(old(self), self, jump_next_offsets@); }
                jump_next_offsets.push(offset);
                let ghost mid = *self;
                let ghost v_mid = jump_next_offsets@;
                let res = self.compile_tuple_patterns(elements, subject_sym, path, jump_next_offsets);
                proof {
                    if res is Ok {
                        let v = jump_next_offsets@;
                        lemma_jump_set_prefix(v_mid, v);
                        assert(v_mid[v_mid.len() - 1] as int == offset as int);
                        assert(jump_set(v_mid).contains(offset as int));
                        assert forall|p: int| #[trigger] unlanded(self.instructions@, self.starts@).contains(p)
                            implies unlanded(old(self).instructions@, old(self).starts@).union(jump_set(v)).contains(p) by {
                            if !jump_set(v).contains(p) {
                                assert(unlanded(mid.instructions@, mid.starts@).contains(p));
                                assert(p != offset as int);
                                assert(unlanded(s1.instructions@, s1.starts@).contains(p));
                            }
                        }
                    }
                }
                return res;
            },
        }
        Ok(())
    }

    /// Tests each element of a tuple pattern at `path` followed by its index.
    fn compile_tuple_patterns(&mut self, elements: &Vec<Pattern>, subject_sym: &Symbol, path: &Vec<usize>,
        jump_next_offsets: &mut Vec<usize>) -> (r: Result<(), Diagnostic>)
        requires
            old(self).wf(),
            all_jumps(old(self).instructions@, old(self).starts@, old(jump_next_offsets)@),
        ensures
            r matches Err(d) ==> compile_failure(d.message@),
            final(self).grown(old(self)),
            final(self).break_stack == old(self).break_stack,
            all_jumps(final(self).instructions@, final(self).starts@, final(jump_next_offsets)@),
            r is Ok ==> old(jump_next_offsets)@.is_prefix_of(final(jump_next_offsets)@),
            r is Ok ==> final(self).waits_only(old(self), final(jump_next_offsets)@),
            elements@.len() == 0 ==> r is Ok && *final(self) == *old(self)
                && final(jump_next_offsets)@ == old(jump_next_offsets)@,
            r is Ok ==> final(jump_next_offsets)@.len() >= old(jump_next_offsets)@.len() + count_tests(elements@),
        decreases elements, 1nat,
    {
        let ghost orig = *self;
        let mut i: usize = 0;
        while i < elements.len()
            invariant
                *old(self) == orig,
                self.grown(&orig),
                self.break_stack == orig.break_stack,
                all_jumps(self.instructions@, self.starts@, jump_next_offsets@),
                old(jump_next_offsets)@.is_prefix_of(jump_next_offsets@),
                self.waits_only(&orig, jump_next_offsets@),
                i <= elements@.len(),
                i == 0 ==> *self == orig && jump_next_offsets@ == old(jump_next_offsets)@,
                jump_next_offsets@.len() >= old(jump_next_offsets)@.len() + count_tests(elements@.take(i as int)),
            decreases elements@.len() - i,
        {
            let mut new_path: Vec<usize> = copy_path(path);
            new_path.push(i);
            let ghost before = *self;
            let ghost v0 = jump_next_offsets@;
            let res = self.compile_pattern_elements(&elements[i], subject_sym, &new_path, jump_next_offsets);
            if res.is_err() {
                return res;
            }
            proof {
                assert(elements@.take(i + 1).drop_last() =~= elements@.take(i as int));
                let v = jump_next_offsets@;
                lemma_jump_set_prefix(v0, v);
                assert forall|p: int| #[trigger] unlanded(self.instructions@, self.starts@).contains(p)
                    implies unlanded(orig.instructions@, orig.starts@).union(jump_set(v)).contains(p) by {
                    if !jump_set(v).contains(p) {
                        assert(unlanded(before.instructions@, before.starts@).contains(p));
                    }
                }
            }
            i += 1;
        }
        proof { assert(elements@.take(elements@.len() as int) =~= elements@); }
        Ok(())
    }

    /// `match subject cases end`: the first case whose pattern and guard
    /// hold gives the value; none gives `:null`.
    fn compile_match(&mut self, expr: &Expression) -> (r: Result<(), Diagnostic>)
        requires
            old(self).wf(),
            expr is Match,
        ensures
            r matches Err(d) ==> compile_failure(d.message@),
            final(self).grown(old(self)),
            r is Ok ==> final(self).break_stack@.len() == old(self).break_stack@.len(),
            r is Ok ==> final(self).settled(old(self)),
            r is Ok ==> final(self).ends_in(Opcode::OpConstant),
        decreases expr, 0nat,
    {
        match expr {
            Expression::Match { subject, cases } => {
                let start_pos_id = self.instructions.len();
                let subject_sym = self.define_hidden("_subject_", start_pos_id)?;
                self.compile_expression(subject)?;
                self.emit_set(&subject_sym);
                self.emit(Opcode::OpPop, &[]);
                let mut jump_end_offsets: Vec<usize> = Vec::new();
                self.compile_cases(cases, &subject_sym, &mut jump_end_offsets)?;
                self.emit_atom("null");
                let end_of_match = self.instructions.len();
                proof { lemma_jumps_kept(old(self), self, seq![]); }
                let ghost before_patch = *self;
                proof { assert(all_jumps(self.instructions@, self.starts@, jump_end_offsets@)); }
                self.patch_all(&jump_end_offsets, end_of_match);
                proof { lemma_ends_in_kept(&before_patch, self, Opcode::OpConstant); }
                Ok(())
            },
            _ => Ok(()),
        }
    }

    /// Compiles each case of a `match`; the jump that ends each case is
    /// added to `jump_end_offsets`.
    fn compile_cases(&mut self, cases: &Vec<MatchCase>, subject_sym: &Symbol, jump_end_offsets: &mut Vec<usize>)
        -> (r: Result<(), Diagnostic>)
        requires
            old(self).wf(),
            all_jumps(old(self).instructions@, old(self).starts@, old(jump_end_offsets)@),
        ensures
            r matches Err(d) ==> compile_failure(d.message@),
            final(self).grown(old(self)),
            r is Ok ==> final(self).break_stack@.len() == old(self).break_stack@.len(),
            r is Ok ==> final(self).settled_with(old(self), final(jump_end_offsets)@),
            all_jumps(final(self).instructions@, final(self).starts@, final(jump_end_offsets)@),
            r is Ok ==> old(jump_end_offsets)@.is_prefix_of(final(jump_end_offsets)@)
                && final(jump_end_offsets)@.len() == old(jump_end_offsets)@.len() + cases@.len(),
            r is Ok && cases@.len() > 0 ==> final(self).ends_in(Opcode::OpJump),
            cases@.len() == 0 ==> r is Ok && *final(self) == *old(self)
                && final(jump_end_offsets)@ == old(jump_end_offsets)@,
        decreases cases, 3nat,
    {
        let ghost jeo_start = jump_end_offsets@;
        let ghost orig = *self;
        let mut i: usize = 0;
        while i < cases.len()
            invariant
                *old(self) == orig,
                self.grown(&orig),
                self.break_stack@.len() == orig.break_stack@.len(),
                self.settled_with(&orig, jump_end_offsets@),
                all_jumps(self.instructions@, self.starts@, jump_end_offsets@),
                i <= cases@.len(),
                jeo_start == old(jump_end_offsets)@,
                jeo_start.is_prefix_of(jump_end_offsets@),
                jump_end_offsets@.len() == jeo_start.len() + i,
                i == 0 ==> *self == orig && jump_end_offsets@ == jeo_start,
                i > 0 ==> self.ends_in(Opcode::OpJump),
            decreases cases@.len() - i,
        {
            let ghost case_start = *self;
            let ghost jeo0 = jump_end_offsets@;
            let mut jump_next_offsets: Vec<usize> = Vec::new();
            let empty_path: Vec<usize> = Vec::new();
            let res = self.compile_pattern_elements(&cases[i].pattern, subject_sym, &empty_path, &mut jump_next_offsets);
            if res.is_err() {
                proof { lemma_jumps_kept(&case_start, self, jump_end_offsets@); }
                return res;
            }
            let ghost c1 = *self;
            let ghost jno1 = jump_next_offsets@;
            match &cases[i].guard {
                Some(guard_expr) => {
                    let ghost g0 = *self;
                    let res = self.compile_expression(guard_expr);
                    proof {
                        lemma_jumps_kept(&case_start, self, jump_end_offsets@);
                        lemma_jumps_kept(&g0, self, jump_next_offsets@);
                    }
                    if res.is_err() {
                        return res;
                    }
                    let ghost g1 = *self;
                    let offset = self.emit(Opcode::OpJumpNotTruthy, &[9999]);
                    proof { lemma_jumps_kept(&g1, self, jump_next_offsets@); }
                    jump_next_offsets.push(offset);
                    proof {
                        let v = jump_next_offsets@;
                        assert(v[v.len() - 1] as int == offset as int);
                        lemma_jump_set_prefix(jno1, v);
                        assert forall|p: int| #[trigger] unlanded(self.instructions@, self.starts@).contains(p)
                            implies unlanded(c1.instructions@, c1.starts@).union(pending(self.break_stack@))
                                .union(jump_set(v)).contains(p) by {
                            if p != offset as int {
                                assert(unlanded(g1.instructions@, g1.starts@).contains(p));
                            }
                        }
                    }
                },
                None => {},
            }
            let ghost b0 = *self;
            let ghost jno2 = jump_next_offsets@;
            let res = self.compile_expression(&cases[i].body);
            proof {
                lemma_jumps_kept(&case_start, self, jump_end_offsets@);
                lemma_jumps_kept(&b0, self, jump_next_offsets@);
            }
            if res.is_err() {
                return res;
            }
            let ghost b1 = *self;
            let end_offset = self.emit(Opcode::OpJump, &[9999]);
            proof {
                lemma_ends_in_emitted(&b1, self, Opcode::OpJump, seq![9999usize]);
                lemma_jumps_kept(&b1, self, jump_next_offsets@);
                lemma_jumps_kept(&b1, self, jump_end_offsets@);
            }
            jump_end_offsets.push(end_offset);
            let next_case_start = self.instructions.len();
            let ghost b2 = *self;
            self.patch_all(&jump_next_offsets, next_case_start);
            proof {
                lemma_ends_in_kept(&b2, self, Opcode::OpJump);
                lemma_jumps_kept(&b2, self, jump_end_offsets@);
                let jeo = jump_end_offsets@;
                assert(jeo[jeo.len() - 1] as int == end_offset as int);
                lemma_jump_set_prefix(jeo0, jeo);
                lemma_stack_grows_trans(orig.break_stack@, case_start.break_stack@, b0.break_stack@);
                lemma_stack_grows_trans(orig.break_stack@, b0.break_stack@, b1.break_stack@);
                lemma_pending_grows(case_start.break_stack@, b0.break_stack@);
                lemma_pending_grows(b0.break_stack@, b1.break_stack@);
                lemma_pending_grows(orig.break_stack@, case_start.break_stack@);
                assert forall|p: int| #[trigger] unlanded(self.instructions@, self.starts@).contains(p)
                    implies unlanded(orig.instructions@, orig.starts@).union(pending(self.break_stack@))
                        .union(jump_set(jeo)).contains(p) by {
                    if p != end_offset as int {
                        assert(unlanded(b2.instructions@, b2.starts@).contains(p));
                        assert(!jump_set(jump_next_offsets@).contains(p));
                        assert(unlanded(b1.instructions@, b1.starts@).contains(p));
                        if !pending(b1.break_stack@).contains(p) {
                            assert(unlanded(b0.instructions@, b0.starts@).contains(p));
                            assert(!jump_set(jno2).contains(p));
                            if !pending(b0.break_stack@).contains(p) {
                                assert(unlanded(c1.instructions@, c1.starts@).contains(p));
                                assert(!jump_set(jno1).contains(p));
                                assert(unlanded(case_start.instructions@, case_start.starts@).contains(p));
                            }
                        }
                    } else {
                        assert(jump_set(jeo).contains(p));
                    }
                }
            }
            i += 1;
        }
        Ok(())
    }
}

/// A copy of an access path.
fn copy_path(v: &Vec<usize>) -> (r: Vec<usize>)
    ensures
        r@ == v@,
{
    let mut r: Vec<usize> = Vec::new();
    let mut i: usize = 0;
    while i < v.len()
        invariant
            i <= v@.len(),
            r@ == v@.take(i as int),
        decreases v@.len() - i,
    {
        r.push(v[i]);
        i += 1;
        assert(r@ =~= v@.take(i as int));
    }
    assert(v@.take(v@.len() as int) =~= v@);
    r
}


impl Compiler {
    /// Compiles the top-level expressions in order; the value of each but
    /// the last is popped.
    pub fn compile_program(&mut self, program: &Program) -> (r: Result<(), Diagnostic>)
        requires
            old(self).wf(),
        ensures
            r matches Err(d) ==> compile_failure(d.message@),
            final(self).grown(old(self)),
            r is Ok ==> final(self).break_stack@.len() == old(self).break_stack@.len(),
            r is Ok ==> final(self).settled(old(self)),
            program.expressions@.len() == 0 ==> r is Ok && *final(self) == *old(self),
            r is Ok && old(self).break_stack@.len() == 0 && jumps_land(old(self).instructions@, old(self).starts@)
                ==> jumps_land(final(self).instructions@, final(self).starts@),
            functions_land(final(self).constants@),
            r is Ok && program.expressions@.len() > 0 ==> ends_as_form(final(self).instructions@,
                spec_unwrap_loc(program.expressions@[program.expressions@.len() - 1])),
            all_numbers(program.expressions@) ==> {
                &&& r is Ok
                &&& final(self).instructions@ == old(self).instructions@
                    + number_run(program.expressions@.len(), old(self).constants@.len())
                &&& final(self).constants@.len() == old(self).constants@.len() + program.expressions@.len()
                &&& forall|k: int| 0 <= k < program.expressions@.len() ==> number_constant(
                    #[trigger] final(self).constants@[old(self).constants@.len() + k], program.expressions@[k]->Number_0@)
            },
            program.expressions@.len() > 0 ==> (program.expressions@[0] matches Expression::Identifier(n) ==> (
                old(self).symbol_table.resolves(n@) is None ==> (r matches Err(d)
                    && d.message@ == "Undefined variable: "@ + n@))),
            reassigns_constant(program.expressions@) && old(self).symbol_table.num_definitions < usize::MAX
                ==> (r matches Err(d) && d.message@ == "Cannot reassign constant '"@
                    + program.expressions@[0]->Const_name@ + "'"@),
    {
        proof { lemma_extends_same(old(self), old(self)); }
        if program.expressions.len() == 0 {
            return Ok(());
        }
        let ghost orig = *self;
        let mut i: usize = 0;
        proof { lemma_extends_same(&orig, self); }
        while i < program.expressions.len()
            invariant
                *old(self) == orig,
                self.grown(&orig),
                self.settled(&orig),
                self.break_stack@.len() == orig.break_stack@.len(),
                i <= program.expressions@.len(),
                i == 0 ==> *self == orig,
                i > 0 ==> !(program.expressions@[0] matches Expression::Identifier(n)
                    && orig.symbol_table.resolves(n@) is None),
                reassigns_constant(program.expressions@) && orig.symbol_table.num_definitions < usize::MAX ==> i <= 1
                    && (i == 1 ==> (self.symbol_table.resolves(program.expressions@[0]->Const_name@) matches Some(s)
                        && s.is_const)),
                0 < i && i == program.expressions@.len() ==> ends_as_form(self.instructions@,
                    spec_unwrap_loc(program.expressions@[i - 1])),
                all_numbers(program.expressions@) ==> {
                    &&& self.instructions@ == orig.instructions@ + number_run(i as nat, orig.constants@.len())
                        + if 0 < i && i < program.expressions@.len() { instruction_bytes(Opcode::OpPop, seq![]) } else { seq![] }
                    &&& self.constants@.len() == orig.constants@.len() + i
                    &&& forall|k: int| 0 <= k < i ==> number_constant(
                        #[trigger] self.constants@[orig.constants@.len() + k], program.expressions@[k]->Number_0@)
                },
            decreases program.expressions@.len() - i,
        {
            let ghost before = *self;
            let res = self.compile_expression(&program.expressions[i]);
            proof { lemma_grown_trans(&orig, &before, self); }
            if res.is_err() {
                return res;
            }
            proof {
                lemma_settled_trans(&orig, &before, self);
                if all_numbers(program.expressions@) {
                    let base = orig.constants@.len();
                    assert(program.expressions@[i as int] is Number);
                    assert(self.instructions@ =~= orig.instructions@ + number_run((i + 1) as nat, base));
                    assert forall|k: int| 0 <= k < i + 1 implies number_constant(
                        #[trigger] self.constants@[base + k], program.expressions@[k]->Number_0@) by {
                        if k < i {
                            assert(before.constants@.is_prefix_of(self.constants@));
                            assert(self.constants@[base + k] == before.constants@[base + k]);
                        }
                    }
                }
            }
            if i + 1 != program.expressions.len() {
                let ghost s1 = *self;
                self.emit(Opcode::OpPop, &[]);
                proof {
                    lemma_quiet_settled(&s1, self);
                    lemma_settled_trans(&orig, &s1, self);
                    lemma_grown_trans(&orig, &s1, self);
                }
            }
            i += 1;
        }
        proof {
            assert forall|p: int| #[trigger] jump_at(self.instructions@, self.starts@, p)
                && old(self).break_stack@.len() == 0 && jumps_land(old(self).instructions@, old(self).starts@)
                implies landed(self.instructions@, p) by {
                if !landed(self.instructions@, p) {
                    assert(unlanded(self.instructions@, self.starts@).contains(p));
                    assert(!pending(self.break_stack@).contains(p));
                    assert(unlanded(old(self).instructions@, old(self).starts@).contains(p));
                }
            }
        }
        Ok(())
    }

    /// The instructions and constant pool compiled so far.
    pub fn bytecode(self) -> (b: Bytecode)
        ensures
            b.instructions == self.instructions,
            b.constants == self.constants,
    {
        Bytecode { instructions: self.instructions, constants: self.constants }
    }
}

} // verus!
