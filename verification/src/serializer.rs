//! The file format of compiled programs: `ANKO`, the instructions and the
//! constant pool, with lengths as little-endian 32-bit numbers. A number
//! constant is stored as the 8 little-endian bytes of its double; a string
//! or an atom as its UTF-8 bytes.
use vstd::prelude::*;
use vstd::slice::{slice_subrange, slice_to_vec};
use vstd::utf8::{encode_utf8, valid_utf8, decode_utf8};
use crate::object::{ConstView, Executable, Object, const_view, const_views};
use crate::text::{decimal_string, join3, owned, spec_decimal};

verus! {

/// The four bytes that open every file: `ANKO`.
pub open spec fn magic() -> Seq<u8> {
    seq![65u8, 78u8, 75u8, 79u8]
}

/// `n` as `as u32` casts it: its low 32 bits.
pub open spec fn low32(n: int) -> u32 {
    (n % 4294967296) as u32
}

/// The little-endian bytes of `x`.
pub open spec fn le32(x: u32) -> Seq<u8> {
    seq![(x & 0xff) as u8, ((x >> 8u32) & 0xff) as u8, ((x >> 16u32) & 0xff) as u8, ((x >> 24u32) & 0xff) as u8]
}

/// The little-endian bytes of `x`.
pub open spec fn le64(x: u64) -> Seq<u8> {
    seq![(x & 0xff) as u8, ((x >> 8u64) & 0xff) as u8, ((x >> 16u64) & 0xff) as u8, ((x >> 24u64) & 0xff) as u8,
        ((x >> 32u64) & 0xff) as u8, ((x >> 40u64) & 0xff) as u8, ((x >> 48u64) & 0xff) as u8,
        ((x >> 56u64) & 0xff) as u8]
}

/// The number whose little-endian bytes start at `off`.
pub open spec fn read_le32(b: Seq<u8>, off: int) -> u32 {
    (b[off] as u32) | ((b[off + 1] as u32) << 8u32) | ((b[off + 2] as u32) << 16u32) | ((b[off + 3] as u32) << 24u32)
}

/// The number whose little-endian bytes start at `off`.
pub open spec fn read_le64(b: Seq<u8>, off: int) -> u64 {
    (b[off] as u64) | ((b[off + 1] as u64) << 8u64) | ((b[off + 2] as u64) << 16u64)
        | ((b[off + 3] as u64) << 24u64) | ((b[off + 4] as u64) << 32u64) | ((b[off + 5] as u64) << 40u64)
        | ((b[off + 6] as u64) << 48u64) | ((b[off + 7] as u64) << 56u64)
}

/// The bytes of a string or an atom: its length in bytes, then its UTF-8
/// bytes.
pub open spec fn text_bytes(s: Seq<char>) -> Seq<u8> {
    le32(low32(encode_utf8(s).len() as int)) + encode_utf8(s)
}

/// The bytes of one constant: a tag, then its contents.
pub open spec fn const_bytes(c: ConstView) -> Seq<u8> {
    match c {
        ConstView::Number(bits) => seq![0u8] + le64(bits),
        ConstView::String(s) => seq![1u8] + text_bytes(s),
        ConstView::Atom(s) => seq![2u8] + text_bytes(s),
        ConstView::Function(ins, num_locals, num_parameters) => seq![3u8] + le32(low32(ins.len() as int)) + ins
            + le32(low32(num_locals as int)) + le32(low32(num_parameters as int)),
    }
}

/// The bytes of the constants, one after the other.
pub open spec fn consts_bytes(cs: Seq<ConstView>) -> Seq<u8>
    decreases cs.len(),
{
    if cs.len() == 0 { seq![] } else { consts_bytes(cs.drop_last()) + const_bytes(cs.last()) }
}

/// The bytes of a file with these instructions and constants.
pub open spec fn file_bytes(instructions: Seq<u8>, cs: Seq<ConstView>) -> Seq<u8> {
    magic() + le32(low32(instructions.len() as int)) + instructions + le32(low32(cs.len() as int)) + consts_bytes(cs)
}

/// What reading a part of a file gives: a value and the offset after it,
/// an error message, or a crash (a read past the end of the bytes).
pub enum Parsed<T> {
    Done(T, int),
    Fail(Seq<char>),
    Crash,
}

/// Reads a length at `off`.
pub open spec fn parse_u32(b: Seq<u8>, off: int) -> Parsed<nat> {
    if off + 4 > b.len() {
        Parsed::Fail("Unexpected end of bytecode"@)
    } else {
        Parsed::Done(read_le32(b, off) as nat, off + 4)
    }
}

/// Reads the text of a string or an atom at `off`.
pub open spec fn parse_text(b: Seq<u8>, off: int) -> Parsed<Seq<char>> {
    match parse_u32(b, off) {
        Parsed::Done(n, o) => if o + n > b.len() {
            Parsed::Crash
        } else if valid_utf8(b.subrange(o, o + n)) {
            Parsed::Done(decode_utf8(b.subrange(o, o + n)), o + n)
        } else {
            Parsed::Fail("Invalid UTF-8 in string/symbol"@)
        },
        Parsed::Fail(m) => Parsed::Fail(m),
        Parsed::Crash => Parsed::Crash,
    }
}

/// Reads a compiled function at `off`: its instructions, then its numbers
/// of locals and of parameters.
pub open spec fn parse_function(b: Seq<u8>, off: int) -> Parsed<ConstView> {
    match parse_u32(b, off) {
        Parsed::Done(n, o) => if o + n > b.len() {
            Parsed::Crash
        } else {
            match parse_u32(b, o + n) {
                Parsed::Done(nl, o2) => match parse_u32(b, o2) {
                    Parsed::Done(np, o3) => Parsed::Done(
                        ConstView::Function(b.subrange(o, o + n), nl as usize, np as usize), o3),
                    Parsed::Fail(m) => Parsed::Fail(m),
                    Parsed::Crash => Parsed::Crash,
                },
                Parsed::Fail(m) => Parsed::Fail(m),
                Parsed::Crash => Parsed::Crash,
            }
        },
        Parsed::Fail(m) => Parsed::Fail(m),
        Parsed::Crash => Parsed::Crash,
    }
}

/// Reads one constant at `off`.
pub open spec fn parse_const(b: Seq<u8>, off: int) -> Parsed<ConstView> {
    if off < 0 || off >= b.len() {
        Parsed::Crash
    } else {
        let tag = b[off];
        if tag == 0 {
            if off + 9 > b.len() { Parsed::Crash } else { Parsed::Done(ConstView::Number(read_le64(b, off + 1)), off + 9) }
        } else if tag == 1 || tag == 2 {
            match parse_text(b, off + 1) {
                Parsed::Done(s, o) => Parsed::Done(if tag == 1 { ConstView::String(s) } else { ConstView::Atom(s) }, o),
                Parsed::Fail(m) => Parsed::Fail(m),
                Parsed::Crash => Parsed::Crash,
            }
        } else if tag == 3 {
            parse_function(b, off + 1)
        } else {
            Parsed::Fail("Unknown object tag "@ + spec_decimal(tag as nat) + " in bytecode"@)
        }
    }
}

/// Reads `count` constants from `off` on.
pub open spec fn parse_consts(b: Seq<u8>, off: int, count: nat) -> Parsed<Seq<ConstView>>
    decreases count,
{
    if count == 0 {
        Parsed::Done(seq![], off)
    } else {
        match parse_consts(b, off, (count - 1) as nat) {
            Parsed::Done(cs, o) => match parse_const(b, o) {
                Parsed::Done(c, o2) => Parsed::Done(cs.push(c), o2),
                Parsed::Fail(m) => Parsed::Fail(m),
                Parsed::Crash => Parsed::Crash,
            },
            Parsed::Fail(m) => Parsed::Fail(m),
            Parsed::Crash => Parsed::Crash,
        }
    }
}

/// Reads a whole file: its instructions and its constants.
pub open spec fn parse_file(b: Seq<u8>) -> Parsed<(Seq<u8>, Seq<ConstView>)> {
    if b.len() < 4 || b.subrange(0, 4) != magic() {
        Parsed::Fail("Invalid or corrupted .anko file format"@)
    } else {
        match parse_u32(b, 4) {
            Parsed::Done(n, o) => if o + n > b.len() {
                Parsed::Crash
            } else {
                match parse_u32(b, o + n) {
                    Parsed::Done(count, o2) => match parse_consts(b, o2, count) {
                        Parsed::Done(cs, o3) => Parsed::Done((b.subrange(o, o + n), cs), o3),
                        Parsed::Fail(m) => Parsed::Fail(m),
                        Parsed::Crash => Parsed::Crash,
                    },
                    Parsed::Fail(m) => Parsed::Fail(m),
                    Parsed::Crash => Parsed::Crash,
                }
            },
            Parsed::Fail(m) => Parsed::Fail(m),
            Parsed::Crash => Parsed::Crash,
        }
    }
}

/// Appends the little-endian bytes of `n as u32`.
fn push_u32_le(bytes: &mut Vec<u8>, n: usize)
    ensures
        final(bytes)@ == old(bytes)@ + le32(low32(n as int)),
{
    let x: u32 = ((n as u64) % 4294967296) as u32;
    bytes.push((x & 0xff) as u8);
    bytes.push(((x >> 8u32) & 0xff) as u8);
    bytes.push(((x >> 16u32) & 0xff) as u8);
    bytes.push(((x >> 24u32) & 0xff) as u8);
    assert(bytes@ =~= old(bytes)@ + le32(low32(n as int)));
}

/// Appends the little-endian bytes of `x`.
fn push_u64_le(bytes: &mut Vec<u8>, x: u64)
    ensures
        final(bytes)@ == old(bytes)@ + le64(x),
{
    bytes.push((x & 0xff) as u8);
    bytes.push(((x >> 8u64) & 0xff) as u8);
    bytes.push(((x >> 16u64) & 0xff) as u8);
    bytes.push(((x >> 24u64) & 0xff) as u8);
    bytes.push(((x >> 32u64) & 0xff) as u8);
    bytes.push(((x >> 40u64) & 0xff) as u8);
    bytes.push(((x >> 48u64) & 0xff) as u8);
    bytes.push(((x >> 56u64) & 0xff) as u8);
    assert(bytes@ =~= old(bytes)@ + le64(x));
}

/// Appends `more`.
fn push_all(bytes: &mut Vec<u8>, more: &[u8])
    ensures
        final(bytes)@ == old(bytes)@ + more@,
{
    let ghost start = bytes@;
    let mut i: usize = 0;
    while i < more.len()
        invariant
            i <= more@.len(),
            bytes@ == start + more@.take(i as int),
        decreases more@.len() - i,
    {
        bytes.push(more[i]);
        i += 1;
        assert(bytes@ =~= start + more@.take(i as int));
    }
    assert(more@.take(more@.len() as int) =~= more@);
}

/// Appends the bytes of a string or an atom.
fn push_text(bytes: &mut Vec<u8>, s: &str)
    ensures
        final(bytes)@ == old(bytes)@ + text_bytes(s@),
{
    let raw = s.as_bytes();
    push_u32_le(bytes, raw.len());
    push_all(bytes, raw);
    assert(bytes@ =~= old(bytes)@ + text_bytes(s@));
}

/// Appends the bytes of one constant.
fn serialize_object(obj: &Object, bytes: &mut Vec<u8>)
    requires
        const_view(*obj) is Some,
    ensures
        final(bytes)@ == old(bytes)@ + const_bytes(const_view(*obj)->0),
{
    match obj {
        Object::Number(bits) => {
            bytes.push(0);
            push_u64_le(bytes, *bits);
        },
        Object::String(s) => {
            bytes.push(1);
            push_text(bytes, s.as_str());
        },
        Object::Atom(s) => {
            bytes.push(2);
            push_text(bytes, s.as_str());
        },
        Object::CompiledFunction { instructions, num_locals, num_parameters } => {
            bytes.push(3);
            push_u32_le(bytes, instructions.len());
            push_all(bytes, instructions.as_slice());
            push_u32_le(bytes, *num_locals);
            push_u32_le(bytes, *num_parameters);
        },
        _ => {},
    }
    assert(bytes@ =~= old(bytes)@ + const_bytes(const_view(*obj)->0));
}

/// The bytes of a file that holds `bytecode`.
pub fn serialize(bytecode: &Executable) -> (bytes: Vec<u8>)
    requires
        forall|i: int| 0 <= i < bytecode.constants@.len() ==> const_view(#[trigger] bytecode.constants@[i]) is Some,
    ensures
        bytes@ == file_bytes(bytecode.instructions@, const_views(bytecode.constants@)),
{
    let mut bytes: Vec<u8> = Vec::new();
    bytes.push(65);
    bytes.push(78);
    bytes.push(75);
    bytes.push(79);
    push_u32_le(&mut bytes, bytecode.instructions.len());
    push_all(&mut bytes, bytecode.instructions.as_slice());
    push_u32_le(&mut bytes, bytecode.constants.len());
    let ghost head = bytes@;
    let ghost views = const_views(bytecode.constants@);
    let mut i: usize = 0;
    while i < bytecode.constants.len()
        invariant
            i <= bytecode.constants@.len(),
            views == const_views(bytecode.constants@),
            forall|k: int| 0 <= k < bytecode.constants@.len() ==> const_view(#[trigger] bytecode.constants@[k]) is Some,
            bytes@ == head + consts_bytes(views.take(i as int)),
        decreases bytecode.constants@.len() - i,
    {
        serialize_object(&bytecode.constants[i], &mut bytes);
        proof {
            assert(views.take(i as int + 1).drop_last() =~= views.take(i as int));
            assert(views.take(i as int + 1).last() == views[i as int]);
        }
        i += 1;
    }
    assert(views.take(views.len() as int) =~= views);
    assert(bytes@ =~= file_bytes(bytecode.instructions@, views));
    bytes
}


/// `String::from_utf8`: the string whose UTF-8 bytes are `bytes`, when they
/// are valid UTF-8. Claimed: it succeeds exactly on valid UTF-8 and then
/// holds the characters those bytes encode.
#[verifier::external_body]
fn string_from_utf8(bytes: Vec<u8>) -> (r: Option<String>)
    ensures
        r is Some <==> valid_utf8(bytes@),
        r matches Some(s) ==> s@ == decode_utf8(bytes@),
{
    String::from_utf8(bytes).ok()
}

/// Reads a little-endian 32-bit length at `offset` and moves past it.
pub fn read_u32(bytes: &[u8], offset: &mut usize) -> (r: Result<usize, String>)
    ensures
        match parse_u32(bytes@, *old(offset) as int) {
            Parsed::Done(n, o) => r == Ok::<usize, String>(n as usize) && *final(offset) == o && n <= u32::MAX,
            Parsed::Fail(m) => (r matches Err(e) && e@ == m) && *final(offset) == *old(offset),
            Parsed::Crash => false,
        },
{
    if *offset > bytes.len() || bytes.len() - *offset < 4 {
        return Err(owned("Unexpected end of bytecode"));
    }
    let o = *offset;
    let x: u32 = (bytes[o] as u32) | ((bytes[o + 1] as u32) << 8u32) | ((bytes[o + 2] as u32) << 16u32)
        | ((bytes[o + 3] as u32) << 24u32);
    *offset = o + 4;
    Ok(x as usize)
}

/// Reads one constant at `offset` and moves past it; `None` where reading
/// would go past the end of the bytes.
fn deserialize_object(bytes: &[u8], offset: &mut usize) -> (r: Option<Result<Object, String>>)
    requires
        *old(offset) <= bytes@.len(),
    ensures
        match parse_const(bytes@, *old(offset) as int) {
            Parsed::Done(c, o) => (r matches Some(Ok(obj)) && const_view(obj) == Some(c)) && *final(offset) == o
                && o <= bytes@.len(),
            Parsed::Fail(m) => r matches Some(Err(e)) && e@ == m,
            Parsed::Crash => r is None,
        },
{
    if *offset >= bytes.len() {
        return None;
    }
    let tag = bytes[*offset];
    *offset = *offset + 1;
    if tag == 0 {
        let o = *offset;
        if bytes.len() - o < 8 {
            return None;
        }
        let x: u64 = (bytes[o] as u64) | ((bytes[o + 1] as u64) << 8u64) | ((bytes[o + 2] as u64) << 16u64)
            | ((bytes[o + 3] as u64) << 24u64) | ((bytes[o + 4] as u64) << 32u64) | ((bytes[o + 5] as u64) << 40u64)
            | ((bytes[o + 6] as u64) << 48u64) | ((bytes[o + 7] as u64) << 56u64);
        *offset = o + 8;
        Some(Ok(Object::Number(x)))
    } else if tag == 1 || tag == 2 {
        let len = match read_u32(bytes, offset) {
            Ok(n) => n,
            Err(e) => { return Some(Err(e)); },
        };
        let o = *offset;
        if bytes.len() - o < len {
            return None;
        }
        let raw = slice_to_vec(slice_subrange(bytes, o, o + len));
        let s = match string_from_utf8(raw) {
            Some(s) => s,
            None => { return Some(Err(owned("Invalid UTF-8 in string/symbol"))); },
        };
        *offset = o + len;
        if tag == 1 { Some(Ok(Object::String(s))) } else { Some(Ok(Object::Atom(s))) }
    } else if tag == 3 {
        let inst_len = match read_u32(bytes, offset) {
            Ok(n) => n,
            Err(e) => { return Some(Err(e)); },
        };
        let o = *offset;
        if bytes.len() - o < inst_len {
            return None;
        }
        let instructions = slice_to_vec(slice_subrange(bytes, o, o + inst_len));
        *offset = o + inst_len;
        let num_locals = match read_u32(bytes, offset) {
            Ok(n) => n,
            Err(e) => { return Some(Err(e)); },
        };
        let num_parameters = match read_u32(bytes, offset) {
            Ok(n) => n,
            Err(e) => { return Some(Err(e)); },
        };
        Some(Ok(Object::CompiledFunction { instructions, num_locals, num_parameters }))
    } else {
        Some(Err(join3("Unknown object tag ", decimal_string(tag as usize).as_str(), " in bytecode")))
    }
}

/// Once reading the constants has crashed or failed, reading more of them
/// ends the same way.
proof fn lemma_consts_stop(b: Seq<u8>, off: int, i: nat, count: nat)
    requires
        i <= count,
        !(parse_consts(b, off, i) is Done),
    ensures
        parse_consts(b, off, count) == parse_consts(b, off, i),
    decreases count,
{
    if count > i {
        lemma_consts_stop(b, off, i, (count - 1) as nat);
    }
}

/// The instructions and constants of a file; `None` where reading would
/// go past the end of the bytes.
pub fn deserialize_checked(bytes: &[u8]) -> (r: Option<Result<Executable, String>>)
    ensures
        match parse_file(bytes@) {
            Parsed::Done((ins, cs), _) => r matches Some(Ok(e)) && e.instructions@ == ins
                && (forall|i: int| 0 <= i < e.constants@.len() ==> const_view(#[trigger] e.constants@[i]) is Some)
                && const_views(e.constants@) == cs,
            Parsed::Fail(m) => r matches Some(Err(e)) && e@ == m,
            Parsed::Crash => r is None,
        },
{
    let magic_ok = bytes.len() >= 4 && bytes[0] == 65 && bytes[1] == 78 && bytes[2] == 75 && bytes[3] == 79;
    if !magic_ok {
        proof {
            if bytes@.len() >= 4 {
                assert(bytes@.subrange(0, 4) != magic()) by {
                    if bytes@.subrange(0, 4) == magic() {
                        assert(bytes@[0] == bytes@.subrange(0, 4)[0]);
                        assert(bytes@[1] == bytes@.subrange(0, 4)[1]);
                        assert(bytes@[2] == bytes@.subrange(0, 4)[2]);
                        assert(bytes@[3] == bytes@.subrange(0, 4)[3]);
                    }
                }
            }
        }
        return Some(Err(owned("Invalid or corrupted .anko file format")));
    }
    assert(bytes@.subrange(0, 4) =~= magic());
    let mut offset: usize = 4;
    let inst_len = match read_u32(bytes, &mut offset) {
        Ok(n) => n,
        Err(e) => { return Some(Err(e)); },
    };
    let o = offset;
    if bytes.len() - o < inst_len {
        return None;
    }
    let instructions = slice_to_vec(slice_subrange(bytes, o, o + inst_len));
    offset = o + inst_len;
    let const_len = match read_u32(bytes, &mut offset) {
        Ok(n) => n,
        Err(e) => { return Some(Err(e)); },
    };
    let ghost start = offset as int;
    let mut constants: Vec<Object> = Vec::new();
    assert(const_views(constants@) =~= Seq::<ConstView>::empty());
    let mut i: usize = 0;
    while i < const_len
        invariant
            i <= const_len,
            offset <= bytes@.len(),
            parse_consts(bytes@, start, const_len as nat) == match parse_file(bytes@) {
                Parsed::Done((_, cs), o3) => Parsed::Done(cs, o3),
                Parsed::Fail(m) => Parsed::Fail(m),
                Parsed::Crash => Parsed::Crash,
            },
            parse_consts(bytes@, start, i as nat) == Parsed::Done(const_views(constants@), offset as int),
            forall|k: int| 0 <= k < constants@.len() ==> const_view(#[trigger] constants@[k]) is Some,
        decreases const_len - i,
    {
        let ghost before = constants@;
        let ghost at = offset as int;
        proof {
            if parse_const(bytes@, at) is Crash || parse_const(bytes@, at) is Fail {
                lemma_consts_stop(bytes@, start, (i + 1) as nat, const_len as nat);
            }
        }
        let obj = match deserialize_object(bytes, &mut offset) {
            Some(Ok(obj)) => obj,
            Some(Err(e)) => { return Some(Err(e)); },
            None => { return None; },
        };
        constants.push(obj);
        proof {
            assert(const_views(constants@) =~= const_views(before).push(const_view(obj)->0));
        }
        i += 1;
    }
    Some(Ok(Executable { instructions, constants }))
}

/// The instructions and constants of a file.
pub fn deserialize(bytes: &[u8]) -> (r: Result<Executable, String>)
    requires
        !(parse_file(bytes@) is Crash),
    ensures
        match parse_file(bytes@) {
            Parsed::Done((ins, cs), _) => r matches Ok(e) && e.instructions@ == ins
                && (forall|i: int| 0 <= i < e.constants@.len() ==> const_view(#[trigger] e.constants@[i]) is Some)
                && const_views(e.constants@) == cs,
            Parsed::Fail(m) => r matches Err(e) && e@ == m,
            Parsed::Crash => false,
        },
{
    match deserialize_checked(bytes) {
        Some(r) => r,
        None => Err(String::new()),
    }
}

/// A constant whose lengths and counts fit the 32-bit fields of the format.
pub open spec fn const_fits(c: ConstView) -> bool {
    match c {
        ConstView::Number(_) => true,
        ConstView::String(s) => encode_utf8(s).len() <= u32::MAX,
        ConstView::Atom(s) => encode_utf8(s).len() <= u32::MAX,
        ConstView::Function(ins, num_locals, num_parameters) =>
            ins.len() <= u32::MAX && num_locals <= u32::MAX && num_parameters <= u32::MAX,
    }
}

/// Four bytes written by `le32` read back as the number.
proof fn lemma_read_le32(b: Seq<u8>, off: int, x: u32)
    requires
        0 <= off,
        off + 4 <= b.len(),
        b.subrange(off, off + 4) == le32(x),
    ensures
        read_le32(b, off) == x,
{
    let b0 = b[off];
    let b1 = b[off + 1];
    let b2 = b[off + 2];
    let b3 = b[off + 3];
    assert(b0 == b.subrange(off, off + 4)[0]);
    assert(b1 == b.subrange(off, off + 4)[1]);
    assert(b2 == b.subrange(off, off + 4)[2]);
    assert(b3 == b.subrange(off, off + 4)[3]);
    assert((b0 as u32) | ((b1 as u32) << 8u32) | ((b2 as u32) << 16u32) | ((b3 as u32) << 24u32) == x) by (bit_vector)
        requires
            b0 == (x & 0xff) as u8,
            b1 == ((x >> 8u32) & 0xff) as u8,
            b2 == ((x >> 16u32) & 0xff) as u8,
            b3 == ((x >> 24u32) & 0xff) as u8;
}

/// Eight bytes written by `le64` read back as the number.
proof fn lemma_read_le64(b: Seq<u8>, off: int, x: u64)
    requires
        0 <= off,
        off + 8 <= b.len(),
        b.subrange(off, off + 8) == le64(x),
    ensures
        read_le64(b, off) == x,
{
    let w = b.subrange(off, off + 8);
    let b0 = b[off];
    let b1 = b[off + 1];
    let b2 = b[off + 2];
    let b3 = b[off + 3];
    let b4 = b[off + 4];
    let b5 = b[off + 5];
    let b6 = b[off + 6];
    let b7 = b[off + 7];
    assert(b0 == w[0] && b1 == w[1] && b2 == w[2] && b3 == w[3]);
    assert(b4 == w[4] && b5 == w[5] && b6 == w[6] && b7 == w[7]);
    assert((b0 as u64) | ((b1 as u64) << 8u64) | ((b2 as u64) << 16u64) | ((b3 as u64) << 24u64)
        | ((b4 as u64) << 32u64) | ((b5 as u64) << 40u64) | ((b6 as u64) << 48u64) | ((b7 as u64) << 56u64) == x)
        by (bit_vector)
        requires
            b0 == (x & 0xff) as u8,
            b1 == ((x >> 8u64) & 0xff) as u8,
            b2 == ((x >> 16u64) & 0xff) as u8,
            b3 == ((x >> 24u64) & 0xff) as u8,
            b4 == ((x >> 32u64) & 0xff) as u8,
            b5 == ((x >> 40u64) & 0xff) as u8,
            b6 == ((x >> 48u64) & 0xff) as u8,
            b7 == ((x >> 56u64) & 0xff) as u8;
}

/// A length that fits in 32 bits is written as itself.
proof fn lemma_low32(n: int)
    requires
        0 <= n <= u32::MAX,
    ensures
        low32(n) == n,
{
}

/// Where the bytes of a string or an atom stand, they read back as it.
proof fn lemma_parse_text(b: Seq<u8>, off: int, s: Seq<char>)
    requires
        0 <= off,
        off + text_bytes(s).len() <= b.len(),
        b.subrange(off, off + text_bytes(s).len()) == text_bytes(s),
        encode_utf8(s).len() <= u32::MAX,
    ensures
        parse_text(b, off) == Parsed::Done(s, off + text_bytes(s).len()),
{
    let e = encode_utf8(s);
    let n = e.len() as int;
    lemma_low32(n);
    let w = b.subrange(off, off + 4 + n);
    assert(b.subrange(off, off + 4) =~= w.subrange(0, 4));
    assert(w.subrange(0, 4) =~= le32(low32(n)));
    lemma_read_le32(b, off, low32(n));
    assert(b.subrange(off + 4, off + 4 + n) =~= w.subrange(4, 4 + n));
    assert(w.subrange(4, 4 + n) =~= e);
    vstd::utf8::encode_utf8_valid_utf8(s);
    vstd::utf8::encode_utf8_decode_utf8(s);
}

/// Where the bytes of a constant stand, they read back as it.
proof fn lemma_parse_const(b: Seq<u8>, off: int, c: ConstView)
    requires
        0 <= off,
        off + const_bytes(c).len() <= b.len(),
        b.subrange(off, off + const_bytes(c).len()) == const_bytes(c),
        const_fits(c),
    ensures
        parse_const(b, off) == Parsed::Done(c, off + const_bytes(c).len()),
{
    let cb = const_bytes(c);
    let w = b.subrange(off, off + cb.len());
    assert(b[off] == w[0]);
    match c {
        ConstView::Number(bits) => {
            assert(b.subrange(off + 1, off + 9) =~= w.subrange(1, 9));
            assert(w.subrange(1, 9) =~= le64(bits));
            lemma_read_le64(b, off + 1, bits);
        },
        ConstView::String(s) => {
            let t = text_bytes(s);
            assert(b.subrange(off + 1, off + 1 + t.len()) =~= w.subrange(1, 1 + t.len() as int));
            assert(w.subrange(1, 1 + t.len() as int) =~= t);
            lemma_parse_text(b, off + 1, s);
        },
        ConstView::Atom(s) => {
            let t = text_bytes(s);
            assert(b.subrange(off + 1, off + 1 + t.len()) =~= w.subrange(1, 1 + t.len() as int));
            assert(w.subrange(1, 1 + t.len() as int) =~= t);
            lemma_parse_text(b, off + 1, s);
        },
        ConstView::Function(ins, nl, np) => {
            let n = ins.len() as int;
            lemma_low32(n);
            lemma_low32(nl as int);
            lemma_low32(np as int);
            assert(b.subrange(off + 1, off + 5) =~= w.subrange(1, 5));
            assert(w.subrange(1, 5) =~= le32(low32(n)));
            lemma_read_le32(b, off + 1, low32(n));
            assert(b.subrange(off + 5, off + 5 + n) =~= w.subrange(5, 5 + n));
            assert(w.subrange(5, 5 + n) =~= ins);
            assert(b.subrange(off + 5 + n, off + 9 + n) =~= w.subrange(5 + n, 9 + n));
            assert(w.subrange(5 + n, 9 + n) =~= le32(low32(nl as int)));
            lemma_read_le32(b, off + 5 + n, low32(nl as int));
            assert(b.subrange(off + 9 + n, off + 13 + n) =~= w.subrange(9 + n, 13 + n));
            assert(w.subrange(9 + n, 13 + n) =~= le32(low32(np as int)));
            lemma_read_le32(b, off + 9 + n, low32(np as int));
        },
    }
}

/// Where the bytes of the constants stand, they read back as them.
proof fn lemma_parse_consts(b: Seq<u8>, off: int, cs: Seq<ConstView>)
    requires
        0 <= off,
        off + consts_bytes(cs).len() <= b.len(),
        b.subrange(off, off + consts_bytes(cs).len()) == consts_bytes(cs),
        forall|i: int| 0 <= i < cs.len() ==> const_fits(#[trigger] cs[i]),
    ensures
        parse_consts(b, off, cs.len()) == Parsed::Done(cs, off + consts_bytes(cs).len()),
    decreases cs.len(),
{
    if cs.len() > 0 {
        let init = cs.drop_last();
        let ib = consts_bytes(init);
        let lb = const_bytes(cs.last());
        let w = b.subrange(off, off + ib.len() + lb.len());
        assert(b.subrange(off, off + ib.len()) =~= w.subrange(0, ib.len() as int));
        assert(w.subrange(0, ib.len() as int) =~= ib);
        assert forall|i: int| 0 <= i < init.len() implies const_fits(#[trigger] init[i]) by {
            assert(init[i] == cs[i]);
        }
        lemma_parse_consts(b, off, init);
        assert(b.subrange(off + ib.len(), off + ib.len() + lb.len()) =~= w.subrange(ib.len() as int, (ib.len() + lb.len()) as int));
        assert(w.subrange(ib.len() as int, (ib.len() + lb.len()) as int) =~= lb);
        assert(const_fits(cs[cs.len() - 1]));
        lemma_parse_const(b, off + ib.len(), cs.last());
        assert(init.push(cs.last()) =~= cs);
    } else {
        assert(cs =~= Seq::<ConstView>::empty());
    }
}

/// Reading back a file gives the instructions and constants it was written
/// from, whenever every length and count fits in 32 bits.
#[verifier::rlimit(40)]
pub proof fn law_read_back_written(instructions: Seq<u8>, cs: Seq<ConstView>)
    requires
        instructions.len() <= u32::MAX,
        cs.len() <= u32::MAX,
        forall|i: int| 0 <= i < cs.len() ==> const_fits(#[trigger] cs[i]),
    ensures
        parse_file(file_bytes(instructions, cs))
            == Parsed::Done((instructions, cs), file_bytes(instructions, cs).len() as int),
{
    let b = file_bytes(instructions, cs);
    let n = instructions.len() as int;
    lemma_low32(n);
    lemma_low32(cs.len() as int);
    assert(b.subrange(0, 4) =~= magic());
    assert(b.subrange(4, 8) =~= le32(low32(n)));
    lemma_read_le32(b, 4, low32(n));
    assert(b.subrange(8, 8 + n) =~= instructions);
    assert(b.subrange(8 + n, 12 + n) =~= le32(low32(cs.len() as int)));
    lemma_read_le32(b, 8 + n, low32(cs.len() as int));
    assert(b.subrange(12 + n, 12 + n + consts_bytes(cs).len()) =~= consts_bytes(cs));
    lemma_parse_consts(b, 12 + n, cs);
}

} // verus!
