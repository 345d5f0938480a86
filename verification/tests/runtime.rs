use mochi::compiler::{Bytecode, Compiler, Constant};
use mochi::code::{make, Opcode};
use mochi::lexer::Lexer;
use mochi::object::{Executable, Object};
use mochi::parser::Parser;
use mochi::vm::{NumQuery, NumReply, Outcome, VM};
use mochi::serializer::{deserialize, deserialize_checked, read_u32, serialize};
use mochi::symbol_table::{SymbolScope, SymbolTable};
use std::cell::RefCell;

fn answer(q: NumQuery) -> NumReply {
    match q {
        NumQuery::Arith(op, a, b) => {
            let (x, y) = (f64::from_bits(a), f64::from_bits(b));
            let r = match op {
                Opcode::OpAdd => x + y,
                Opcode::OpSub => x - y,
                Opcode::OpMul => x * y,
                _ => x / y,
            };
            NumReply::Number(r.to_bits())
        }
        NumQuery::Compare(op, a, b) => {
            let (x, y) = (f64::from_bits(a), f64::from_bits(b));
            NumReply::Truth(match op {
                Opcode::OpEqual => x == y,
                Opcode::OpNotEqual => x != y,
                Opcode::OpGreater => x > y,
                _ => x < y,
            })
        }
        NumQuery::FromCount(n) => NumReply::Number((n as f64).to_bits()),
        NumQuery::Slot(b) => {
            let x = f64::from_bits(b);
            NumReply::Slot { at_least_zero: x >= 0.0, below_zero: x < 0.0, integral: x.fract() == 0.0, index: x as usize }
        }
        NumQuery::Display(b) => NumReply::Text(format!("{}", f64::from_bits(b))),
        NumQuery::Round(b) => NumReply::Number(f64::from_bits(b).round().to_bits()),
        NumQuery::Floor(b) => NumReply::Number(f64::from_bits(b).floor().to_bits()),
        NumQuery::Ceil(b) => NumReply::Number(f64::from_bits(b).ceil().to_bits()),
    }
}

fn load(bc: Bytecode) -> Executable {
    let constants = bc
        .constants
        .into_iter()
        .map(|c| match c {
            Constant::Number(t) => Object::Number(t.parse::<f64>().unwrap_or(0.0).to_bits()),
            Constant::String(s) => Object::String(s),
            Constant::Atom(s) => Object::Atom(s),
            Constant::CompiledFunction { instructions, num_locals, num_parameters } => {
                Object::CompiledFunction { instructions, num_locals, num_parameters }
            }
        })
        .collect();
    Executable { instructions: bc.instructions, constants }
}

fn compile(input: &str) -> Executable {
    let lexer = Lexer::new(input);
    let mut parser = Parser::new(lexer);
    let program = parser.parse_program();
    assert!(parser.errors.is_empty(), "{:?}", parser.errors);
    let mut compiler = Compiler::new();
    compiler.compile_program(&program).unwrap();
    load(compiler.bytecode())
}

/// Runs a program with `print` defined; gives the printed lines and the
/// description of the last value.
fn run_printing(input: &str) -> (Vec<String>, String) {
    let out: RefCell<Vec<String>> = RefCell::new(Vec::new());
    let mut vm = VM::new(compile(input));
    vm.set_global(0, Object::Native(mochi::object::NativeFn::Print));
    let result = vm.run(&answer, &|line: String| out.borrow_mut().push(line));
    assert!(matches!(result, Ok(Outcome::Finished)), "{:?}", result);
    let last = vm.last_popped_stack_elem.take().unwrap_or(Object::Atom("null".to_string()));
    let text = vm.describe(&last, &answer);
    (out.into_inner(), text)
}

#[test]
fn print_writes_strings_raw_and_other_values_described() {
    let (lines, _) = run_printing("print(\"a\", 1, :b, [1, 2], { x: \"s\" })");
    assert_eq!(lines, vec!["a1:b[1, 2]{ x: \"s\" }".to_string()]);
}

#[test]
fn string_methods_work() {
    assert_eq!(run_printing("\"hello\":to_upper()").1, "\"HELLO\"");
    assert_eq!(run_printing("\"  hi \":trim()").1, "\"hi\"");
    assert_eq!(run_printing("\"a,b,c\":split(\",\")").1, "[\"a\", \"b\", \"c\"]");
    assert_eq!(run_printing("\"héllo\":len()").1, "6");
}

#[test]
fn array_methods_work() {
    assert_eq!(run_printing("let a = [1, 2] a:push(3) a").1, "[1, 2, 3]");
    assert_eq!(run_printing("let a = [1, 2] a:pop()").1, "2");
    assert_eq!(run_printing("[1, 2, 3]:len()").1, "3");
    assert_eq!(run_printing("[1, \"b\", :c]:join(\"-\")").1, "\"1-b-c\"");
}

#[test]
fn number_methods_work() {
    assert_eq!(run_printing("(0 - 2.5):abs()").1, "2.5");
    assert_eq!(run_printing("2.5:floor()").1, "2");
    assert_eq!(run_printing("2.1:ceil()").1, "3");
    assert_eq!(run_printing("7:to_string()").1, "\"7\"");
}

#[test]
fn tuples_and_records_are_described() {
    let vm = VM::new(Executable { instructions: vec![], constants: vec![] });
    let one = Object::Tuple(vec![Object::Number(1.0f64.to_bits())]);
    assert_eq!(vm.describe(&one, &answer), "(1,)");
    let two = Object::Tuple(vec![Object::Atom("a".to_string()), Object::String("b".to_string())]);
    assert_eq!(vm.describe(&two, &answer), "(:a, \"b\")");
    assert_eq!(run_printing("{}").1, "{  }");
}

#[test]
fn hash_keys_keep_insertion_order() {
    let (lines, _) = run_printing("let o = { b: 1, a: 2 } o.c = 3 o.b = 4 for k, v in o do print(k, v) end");
    assert_eq!(lines, vec!["b4".to_string(), "a2".to_string(), "c3".to_string()]);
}

#[test]
fn writes_are_read_back() {
    assert_eq!(run_printing("let a = [1, 2] a[0] = 5 a[0]").1, "5");
    assert_eq!(run_printing("let a = [1, 2] a[2] = 7 a[2]").1, "7");
    assert_eq!(run_printing("let a = [1, 2] a[9]").1, ":null");
    assert_eq!(run_printing("let o = { x: 1 } o.y = \"v\" o.y").1, "\"v\"");
    assert_eq!(run_printing("let o = { x: 1 } o.x = 3 o.x").1, "3");
    assert_eq!(run_printing("let o = { x: 1 } o.z").1, ":null");
}

#[test]
fn writes_leave_other_fields_alone() {
    assert_eq!(run_printing("let o = { x: 1, y: 2 } o.x = 3 o.y").1, "2");
    assert_eq!(run_printing("let o = { x: 1 } let p = { x: 4 } o.x = 3 p.x").1, "4");
    assert_eq!(run_printing("let o = { x: 1 } o.y = 9 o.x").1, "1");
}

#[test]
fn runtime_errors_are_reported() {
    let mut vm = VM::new(compile("let a = [1] a[5] = 2"));
    let r = vm.run(&answer, &|_l: String| {});
    assert_eq!(r.unwrap_err(), "Array index out of bounds");
    let mut vm = VM::new(compile("1 + \"a\""));
    let r = vm.run(&answer, &|_l: String| {});
    assert_eq!(r.unwrap_err(), "Unsupported types for binary operation");
    let mut vm = VM::new(compile("5:nothing()"));
    let r = vm.run(&answer, &|_l: String| {});
    assert_eq!(r.unwrap_err(), "Method 'nothing' not found on object");
}

#[test]
fn imports_are_handed_back() {
    let mut instructions = make(Opcode::OpConstant, &[0]);
    instructions.extend(make(Opcode::OpImport, &[]));
    let exe = Executable { instructions, constants: vec![Object::String("lib.moc".to_string())] };
    let mut vm = VM::new(exe);
    match vm.run(&answer, &|_l: String| {}) {
        Ok(Outcome::Import(p)) => assert_eq!(p, "lib.moc"),
        other => panic!("{:?}", other),
    }
    assert!(vm.cached_module("lib.moc").is_none());
    vm.finish_import("lib.moc".to_string(), Object::Atom("module".to_string())).unwrap();
    assert!(vm.cached_module("lib.moc").is_some());
    assert!(matches!(vm.run(&answer, &|_l: String| {}), Ok(Outcome::Finished)));
    match vm.last_popped_stack_elem.take() {
        Some(Object::Atom(a)) => assert_eq!(a, "module"),
        other => panic!("{:?}", other),
    }
}

#[test]
fn written_programs_read_back() {
    let exe = compile("let x = \"héllo\" fn f(a) a + 1 f(2)");
    let bytes = serialize(&exe);
    assert_eq!(&bytes[0..4], b"ANKO");
    let back = deserialize(&bytes).unwrap();
    assert_eq!(back.instructions, exe.instructions);
    assert_eq!(back.constants.len(), exe.constants.len());
    assert_eq!(format!("{:?}", back.constants), format!("{:?}", exe.constants));
}

#[test]
fn bad_files_are_rejected() {
    assert_eq!(deserialize(b"NOPE").unwrap_err(), "Invalid or corrupted .anko file format");
    assert_eq!(deserialize(b"ANKO\x00\x00").unwrap_err(), "Unexpected end of bytecode");
    let bytes = [b'A', b'N', b'K', b'O', 0, 0, 0, 0, 1, 0, 0, 0, 9];
    assert_eq!(deserialize(&bytes).unwrap_err(), "Unknown object tag 9 in bytecode");
    let bytes = [b'A', b'N', b'K', b'O', 0, 0, 0, 0, 1, 0, 0, 0, 1, 2, 0, 0, 0, 0xff, 0xfe];
    assert_eq!(deserialize(&bytes).unwrap_err(), "Invalid UTF-8 in string/symbol");
    let truncated = [b'A', b'N', b'K', b'O', 9, 0, 0, 0, 1];
    assert!(deserialize_checked(&truncated).is_none());
}

#[test]
fn number_constants_are_stored_as_little_endian_doubles() {
    let exe = Executable { instructions: vec![], constants: vec![Object::Number(1.5f64.to_bits())] };
    let bytes = serialize(&exe);
    let mut expected = b"ANKO".to_vec();
    expected.extend_from_slice(&[0, 0, 0, 0, 1, 0, 0, 0, 0]);
    expected.extend_from_slice(&1.5f64.to_le_bytes());
    assert_eq!(bytes, expected);
}

#[test]
fn symbol_table_defines_and_resolves() {
    let mut global = SymbolTable::new();
    let print = global.resolve("print").unwrap();
    assert_eq!((print.scope, print.index, print.is_const), (SymbolScope::Global, 0, true));
    let a = global.define("a".to_string(), false);
    assert_eq!((a.scope, a.index), (SymbolScope::Global, 1));
    let mut local = SymbolTable::new_enclosed(global);
    let b = local.define("b".to_string(), false);
    assert_eq!((b.scope, b.index), (SymbolScope::Local, 0));
    assert_eq!(local.resolve("a").unwrap().index, 1);
    assert!(local.resolve("zzz").is_none());
    let f1 = local.define_free(&b);
    let f2 = local.define_free(&b);
    assert_eq!((f1.scope, f1.index), (SymbolScope::Free, 0));
    assert_eq!(f2.index, 0);
    assert_eq!(local.free_symbols.len(), 1);
}

#[test]
fn adopted_values_keep_their_contents() {
    let mut module = VM::new(compile("let r = { k: [1, 2] } r"));
    assert!(matches!(module.run(&answer, &|_l: String| {}), Ok(Outcome::Finished)));
    let value = module.last_popped_stack_elem.take().unwrap();
    let mut main = VM::new(compile("[7] { a: 1 }"));
    assert!(matches!(main.run(&answer, &|_l: String| {}), Ok(Outcome::Finished)));
    let before = main.last_popped_stack_elem.take().unwrap();
    let adopted = main.adopt(module, &value);
    assert!(matches!(adopted, Object::Hash(1)));
    assert_eq!(main.describe(&adopted, &answer), "{ k: [1, 2] }");
    assert_eq!(main.describe(&before, &answer), "{ a: 1 }");
}

#[test]
fn lengths_are_read_little_endian_or_refused_past_the_end() {
    let bytes = [1u8, 1, 0, 0, 9];
    let mut offset = 0usize;
    assert_eq!(read_u32(&bytes, &mut offset), Ok(257));
    assert_eq!(offset, 4);
    assert_eq!(read_u32(&bytes, &mut offset), Err("Unexpected end of bytecode".to_string()));
    assert_eq!(offset, 4);
    let mut far = 40usize;
    assert_eq!(read_u32(&bytes, &mut far), Err("Unexpected end of bytecode".to_string()));
    assert_eq!(far, 40);
}

#[test]
fn imported_modules_are_cached_by_path() {
    let mut vm = VM::new(Executable { instructions: vec![], constants: vec![] });
    assert!(vm.cached_module("a.moc").is_none());
    vm.finish_import("a.moc".to_string(), Object::Atom("first".to_string())).unwrap();
    vm.finish_import("b.moc".to_string(), Object::Atom("second".to_string())).unwrap();
    assert!(matches!(vm.cached_module("a.moc"), Some(Object::Atom(a)) if a == "first"));
    assert!(matches!(vm.cached_module("b.moc"), Some(Object::Atom(a)) if a == "second"));
    vm.finish_import("a.moc".to_string(), Object::Atom("again".to_string())).unwrap();
    assert!(matches!(vm.cached_module("a.moc"), Some(Object::Atom(a)) if a == "again"));
}

#[test]
fn number_programs_finish_with_their_last_literal() {
    let mut vm = VM::new(compile("4 5 6"));
    assert!(matches!(vm.run(&answer, &|_l: String| {}), Ok(Outcome::Finished)));
    match vm.last_popped_stack_elem.take() {
        Some(Object::Number(b)) => assert_eq!(f64::from_bits(b), 6.0),
        other => panic!("{:?}", other),
    }
}

#[test]
fn trim_drops_white_space_at_both_ends_only() {
    assert_eq!(mochi::text::trim_text(" \t a b \n\r"), "a b");
    assert_eq!(mochi::text::trim_text("   "), "");
    assert_eq!(mochi::text::trim_text(""), "");
    assert_eq!(mochi::text::trim_text("x"), "x");
    assert_eq!(mochi::text::trim_text("\u{2003}y\u{2003}"), "y");
}
