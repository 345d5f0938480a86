//! The instruction set of the virtual machine and the byte encoding of one
//! instruction: an opcode byte followed by its operands, big-endian.
use vstd::prelude::*;

verus! {

/// One operation of the virtual machine.
#[derive(Clone, Copy, Debug, PartialEq, Eq, Structural)]
pub enum Opcode {
    OpConstant,
    OpAdd,
    OpSub,
    OpMul,
    OpDiv,
    OpPop,
    OpEqual,
    OpNotEqual,
    OpGreater,
    OpLess,
    OpMinus,
    OpBang,
    OpSetGlobal,
    OpGetGlobal,
    OpJumpNotTruthy,
    OpJump,
    OpCall,
    OpReturnValue,
    OpGetLocal,
    OpSetLocal,
    OpGetFree,
    OpSetFree,
    OpClosure,
    OpArray,
    OpHash,
    OpIndex,
    OpSetIndex,
    OpGetMethod,
    OpArrayLen,
    OpHashKeys,
    OpTuple,
    OpTupleLen,
    OpImport,
}

/// The number of distinct opcodes; every byte below it names one.
pub const OPCODE_COUNT: u8 = 33;

/// The byte that stands for `op` in an instruction stream.
pub open spec fn opcode_byte(op: Opcode) -> u8 {
    match op {
        Opcode::OpConstant => 0,
        Opcode::OpAdd => 1,
        Opcode::OpSub => 2,
        Opcode::OpMul => 3,
        Opcode::OpDiv => 4,
        Opcode::OpPop => 5,
        Opcode::OpEqual => 6,
        Opcode::OpNotEqual => 7,
        Opcode::OpGreater => 8,
        Opcode::OpLess => 9,
        Opcode::OpMinus => 10,
        Opcode::OpBang => 11,
        Opcode::OpSetGlobal => 12,
        Opcode::OpGetGlobal => 13,
        Opcode::OpJumpNotTruthy => 14,
        Opcode::OpJump => 15,
        Opcode::OpCall => 16,
        Opcode::OpReturnValue => 17,
        Opcode::OpGetLocal => 18,
        Opcode::OpSetLocal => 19,
        Opcode::OpGetFree => 20,
        Opcode::OpSetFree => 21,
        Opcode::OpClosure => 22,
        Opcode::OpArray => 23,
        Opcode::OpHash => 24,
        Opcode::OpIndex => 25,
        Opcode::OpSetIndex => 26,
        Opcode::OpGetMethod => 27,
        Opcode::OpArrayLen => 28,
        Opcode::OpHashKeys => 29,
        Opcode::OpTuple => 30,
        Opcode::OpTupleLen => 31,
        Opcode::OpImport => 32,
    }
}

/// The opcode that a byte stands for, if any.
pub open spec fn opcode_of_byte(b: u8) -> Option<Opcode> {
    if b == 0 { Some(Opcode::OpConstant) }
    else if b == 1 { Some(Opcode::OpAdd) }
    else if b == 2 { Some(Opcode::OpSub) }
    else if b == 3 { Some(Opcode::OpMul) }
    else if b == 4 { Some(Opcode::OpDiv) }
    else if b == 5 { Some(Opcode::OpPop) }
    else if b == 6 { Some(Opcode::OpEqual) }
    else if b == 7 { Some(Opcode::OpNotEqual) }
    else if b == 8 { Some(Opcode::OpGreater) }
    else if b == 9 { Some(Opcode::OpLess) }
    else if b == 10 { Some(Opcode::OpMinus) }
    else if b == 11 { Some(Opcode::OpBang) }
    else if b == 12 { Some(Opcode::OpSetGlobal) }
    else if b == 13 { Some(Opcode::OpGetGlobal) }
    else if b == 14 { Some(Opcode::OpJumpNotTruthy) }
    else if b == 15 { Some(Opcode::OpJump) }
    else if b == 16 { Some(Opcode::OpCall) }
    else if b == 17 { Some(Opcode::OpReturnValue) }
    else if b == 18 { Some(Opcode::OpGetLocal) }
    else if b == 19 { Some(Opcode::OpSetLocal) }
    else if b == 20 { Some(Opcode::OpGetFree) }
    else if b == 21 { Some(Opcode::OpSetFree) }
    else if b == 22 { Some(Opcode::OpClosure) }
    else if b == 23 { Some(Opcode::OpArray) }
    else if b == 24 { Some(Opcode::OpHash) }
    else if b == 25 { Some(Opcode::OpIndex) }
    else if b == 26 { Some(Opcode::OpSetIndex) }
    else if b == 27 { Some(Opcode::OpGetMethod) }
    else if b == 28 { Some(Opcode::OpArrayLen) }
    else if b == 29 { Some(Opcode::OpHashKeys) }
    else if b == 30 { Some(Opcode::OpTuple) }
    else if b == 31 { Some(Opcode::OpTupleLen) }
    else if b == 32 { Some(Opcode::OpImport) }
    else { None }
}

/// The widths in bytes of the operands that follow `op`.
pub open spec fn operand_widths(op: Opcode) -> Seq<nat> {
    match op {
        Opcode::OpConstant | Opcode::OpSetGlobal | Opcode::OpGetGlobal
        | Opcode::OpJumpNotTruthy | Opcode::OpJump | Opcode::OpArray | Opcode::OpHash
        | Opcode::OpGetMethod | Opcode::OpTuple => seq![2nat],
        Opcode::OpCall | Opcode::OpGetLocal | Opcode::OpSetLocal | Opcode::OpGetFree
        | Opcode::OpSetFree => seq![1nat],
        Opcode::OpClosure => seq![2nat, 1nat],
        _ => seq![],
    }
}

/// The big-endian bytes of `v` in `width` bytes (1 or 2); higher bits are dropped.
pub open spec fn encode_operand(v: usize, width: nat) -> Seq<u8> {
    if width == 2 {
        seq![((v % 65536) / 256) as u8, (v % 256) as u8]
    } else {
        seq![(v % 256) as u8]
    }
}

/// The bytes of one instruction: the opcode byte, then each operand in its width.
pub open spec fn instruction_bytes(op: Opcode, operands: Seq<usize>) -> Seq<u8> {
    let w = operand_widths(op);
    if w.len() == 0 {
        seq![opcode_byte(op)]
    } else if w.len() == 1 {
        seq![opcode_byte(op)] + encode_operand(operands[0], w[0])
    } else {
        seq![opcode_byte(op)] + encode_operand(operands[0], w[0]) + encode_operand(operands[1], w[1])
    }
}

/// The total length of an instruction for `op`.
pub open spec fn instruction_len(op: Opcode) -> nat {
    let w = operand_widths(op);
    if w.len() == 0 { 1 } else if w.len() == 1 { 1 + w[0] } else { 1 + w[0] + w[1] }
}

/// The value of the two big-endian bytes at `pos`.
pub open spec fn spec_read_u16(bytes: Seq<u8>, pos: int) -> nat {
    (bytes[pos] as nat) * 256 + (bytes[pos + 1] as nat)
}

impl Opcode {
    /// The byte that stands for this opcode.
    pub fn to_byte(self) -> (b: u8)
        ensures
            b == opcode_byte(self),
    {
        match self {
            Opcode::OpConstant => 0,
            Opcode::OpAdd => 1,
            Opcode::OpSub => 2,
            Opcode::OpMul => 3,
            Opcode::OpDiv => 4,
            Opcode::OpPop => 5,
            Opcode::OpEqual => 6,
            Opcode::OpNotEqual => 7,
            Opcode::OpGreater => 8,
            Opcode::OpLess => 9,
            Opcode::OpMinus => 10,
            Opcode::OpBang => 11,
            Opcode::OpSetGlobal => 12,
            Opcode::OpGetGlobal => 13,
            Opcode::OpJumpNotTruthy => 14,
            Opcode::OpJump => 15,
            Opcode::OpCall => 16,
            Opcode::OpReturnValue => 17,
            Opcode::OpGetLocal => 18,
            Opcode::OpSetLocal => 19,
            Opcode::OpGetFree => 20,
            Opcode::OpSetFree => 21,
            Opcode::OpClosure => 22,
            Opcode::OpArray => 23,
            Opcode::OpHash => 24,
            Opcode::OpIndex => 25,
            Opcode::OpSetIndex => 26,
            Opcode::OpGetMethod => 27,
            Opcode::OpArrayLen => 28,
            Opcode::OpHashKeys => 29,
            Opcode::OpTuple => 30,
            Opcode::OpTupleLen => 31,
            Opcode::OpImport => 32,
        }
    }

    /// The opcode that `val` stands for; `None` for a byte that names no opcode.
    pub fn from_byte(val: u8) -> (r: Option<Opcode>)
        ensures
            r == opcode_of_byte(val),
            r is Some <==> val < OPCODE_COUNT,
    {
        match val {
            0 => Some(Opcode::OpConstant),
            1 => Some(Opcode::OpAdd),
            2 => Some(Opcode::OpSub),
            3 => Some(Opcode::OpMul),
            4 => Some(Opcode::OpDiv),
            5 => Some(Opcode::OpPop),
            6 => Some(Opcode::OpEqual),
            7 => Some(Opcode::OpNotEqual),
            8 => Some(Opcode::OpGreater),
            9 => Some(Opcode::OpLess),
            10 => Some(Opcode::OpMinus),
            11 => Some(Opcode::OpBang),
            12 => Some(Opcode::OpSetGlobal),
            13 => Some(Opcode::OpGetGlobal),
            14 => Some(Opcode::OpJumpNotTruthy),
            15 => Some(Opcode::OpJump),
            16 => Some(Opcode::OpCall),
            17 => Some(Opcode::OpReturnValue),
            18 => Some(Opcode::OpGetLocal),
            19 => Some(Opcode::OpSetLocal),
            20 => Some(Opcode::OpGetFree),
            21 => Some(Opcode::OpSetFree),
            22 => Some(Opcode::OpClosure),
            23 => Some(Opcode::OpArray),
            24 => Some(Opcode::OpHash),
            25 => Some(Opcode::OpIndex),
            26 => Some(Opcode::OpSetIndex),
            27 => Some(Opcode::OpGetMethod),
            28 => Some(Opcode::OpArrayLen),
            29 => Some(Opcode::OpHashKeys),
            30 => Some(Opcode::OpTuple),
            31 => Some(Opcode::OpTupleLen),
            32 => Some(Opcode::OpImport),
            _ => None,
        }
    }
}

/// Appends the big-endian bytes of `v` in two bytes.
fn push_u16(instruction: &mut Vec<u8>, v: usize)
    ensures
        final(instruction)@ == old(instruction)@ + encode_operand(v, 2),
{
    let w = (v % 65536) as u16;
    let hi = (w / 256) as u8;
    let lo = (w % 256) as u8;
    instruction.push(hi);
    instruction.push(lo);
    assert(final(instruction)@ =~= old(instruction)@ + encode_operand(v, 2));
}

/// Encodes one instruction: the opcode byte, then its operands big-endian
/// (two bytes for constant, global, jump, array, hash, method and tuple
/// operands; one byte for call, local and free operands; two then one for a
/// closure). Bits of an operand beyond its width are dropped; operands beyond
/// those the opcode takes are ignored.
pub fn make(op: Opcode, operands: &[usize]) -> (instruction: Vec<u8>)
    requires
        operands@.len() >= operand_widths(op).len(),
    ensures
        instruction@ == instruction_bytes(op, operands@),
        instruction@.len() == instruction_len(op),
{
    let mut instruction: Vec<u8> = Vec::new();
    instruction.push(op.to_byte());
    match op {
        Opcode::OpConstant | Opcode::OpSetGlobal | Opcode::OpGetGlobal
        | Opcode::OpJumpNotTruthy | Opcode::OpJump | Opcode::OpArray | Opcode::OpHash
        | Opcode::OpGetMethod | Opcode::OpTuple => {
            push_u16(&mut instruction, operands[0]);
        },
        Opcode::OpCall | Opcode::OpGetLocal | Opcode::OpSetLocal | Opcode::OpGetFree
        | Opcode::OpSetFree => {
            instruction.push((operands[0] % 256) as u8);
        },
        Opcode::OpClosure => {
            push_u16(&mut instruction, operands[0]);
            instruction.push((operands[1] % 256) as u8);
        },
        _ => {},
    }
    assert(instruction@ =~= instruction_bytes(op, operands@));
    instruction
}

/// Reads the two big-endian bytes at `pos` as an unsigned value.
pub fn read_u16(instructions: &[u8], pos: usize) -> (v: usize)
    requires
        pos + 1 < instructions@.len(),
    ensures
        v == spec_read_u16(instructions@, pos as int),
        v < 65536,
{
    (instructions[pos] as usize) * 256 + (instructions[pos + 1] as usize)
}

/// Reads the byte at `pos` as an unsigned value.
pub fn read_u8(instructions: &[u8], pos: usize) -> (v: usize)
    requires
        pos < instructions@.len(),
    ensures
        v == instructions@[pos as int],
{
    instructions[pos] as usize
}

/// Each opcode has its own byte, and that byte decodes back to it.
pub proof fn lemma_opcode_byte_roundtrip(op: Opcode)
    ensures
        opcode_of_byte(opcode_byte(op)) == Some(op),
        opcode_byte(op) < OPCODE_COUNT,
{
}

/// A byte that decodes to an opcode is that opcode's byte.
pub proof fn lemma_byte_opcode_roundtrip(b: u8)
    ensures
        opcode_of_byte(b) matches Some(op) ==> opcode_byte(op) == b,
{
}

/// Reading back the operands of an encoded instruction gives the operands,
/// each reduced to its width.
pub proof fn lemma_make_read_roundtrip(op: Opcode, operands: Seq<usize>)
    requires
        operands.len() >= operand_widths(op).len(),
    ensures
        ({
            let bytes = instruction_bytes(op, operands);
            &&& opcode_of_byte(bytes[0]) == Some(op)
            &&& operand_widths(op).len() >= 1 && operand_widths(op)[0] == 2
                ==> spec_read_u16(bytes, 1) == operands[0] % 65536
            &&& operand_widths(op).len() >= 1 && operand_widths(op)[0] == 1
                ==> bytes[1] == operands[0] % 256
            &&& operand_widths(op).len() == 2 ==> bytes[3] == operands[1] % 256
        }),
{
    let bytes = instruction_bytes(op, operands);
    let v = operands[0];
    assert(((v % 65536) / 256) * 256 + v % 256 == v % 65536) by (nonlinear_arith);
}

} // verus!
