use mochi::ast::{Expression, Program, TypeAnn};
use mochi::compiler::{Compiler, Constant};
use mochi::error_reporter::{report_errors, source_lines, Diagnostic};
use mochi::code::{make, read_u16, Opcode};
use mochi::lexer::{Lexer, Token};
use mochi::parser::Parser;
use mochi::type_checker::{Type, TypeChecker, TypeIdx};

fn parse(src: &str) -> (Program, usize) {
    let lexer = Lexer::new(src);
    let mut parser = Parser::new(lexer);
    let program = parser.parse_program();
    let n = parser.errors.len();
    (program, n)
}

fn first_type_error(src: &str) -> Option<String> {
    let (program, errors) = parse(src);
    assert_eq!(errors, 0, "parse errors in {}", src);
    let mut checker = TypeChecker::new();
    let env = checker.new_env();
    for expr in &program.expressions {
        if let Err(e) = checker.check(expr, env) {
            return Some(e.message);
        }
    }
    None
}

fn tokens(src: &str) -> Vec<Token> {
    let mut lexer = Lexer::new(src);
    let mut out = Vec::new();
    loop {
        let (t, _, _) = lexer.next_token();
        let end = t.is_eof();
        out.push(t);
        if end {
            break;
        }
    }
    out
}

#[test]
fn lexer_reads_keywords_numbers_and_strings() {
    let ts = tokens("let x = 3.5 -- note\n\"hi\" == :a");
    let kinds: Vec<String> = ts.iter().map(|t| t.debug_text()).collect();
    assert_eq!(
        kinds,
        vec!["Let", "Ident(\"x\")", "Assign", "Number(3.5)", "StringLiteral(\"hi\")", "Eq", "Colon", "Ident(\"a\")", "EOF"]
    );
}

#[test]
fn lexer_reports_places() {
    let mut lexer = Lexer::new("a\n  b");
    let (_, l1, c1) = lexer.next_token();
    let (_, l2, c2) = lexer.next_token();
    assert_eq!((l1, c1), (1, 1));
    assert_eq!((l2, c2), (2, 3));
}

#[test]
fn lexer_marks_illegal_characters() {
    let ts = tokens("@");
    assert!(matches!(ts[0], Token::Illegal('@')));
    assert_eq!(ts[0].debug_text(), "Illegal('@')");
}

#[test]
fn parser_accepts_a_program() {
    let (program, errors) = parse("fn add(a, b) do return a + b end add(3, 4)");
    assert_eq!(errors, 0);
    assert_eq!(program.expressions.len(), 2);
}

#[test]
fn parser_reports_unexpected_tokens() {
    let lexer = Lexer::new(")");
    let mut parser = Parser::new(lexer);
    let program = parser.parse_program();
    assert_eq!(program.expressions.len(), 0);
    assert_eq!(parser.errors.len(), 1);
    assert_eq!(parser.errors[0].message, "Unexpected token RParen");
    assert_eq!((parser.errors[0].line, parser.errors[0].col), (1, 1));
}

#[test]
fn parser_reports_missing_else() {
    let (_, errors) = parse("if 1 2");
    assert!(errors >= 1);
    let lexer = Lexer::new("if 1 2");
    let mut parser = Parser::new(lexer);
    parser.parse_program();
    assert_eq!(parser.errors[0].message, "Inline 'if' expression is missing an 'else' branch");
}

#[test]
fn named_function_becomes_a_constant() {
    let (program, _) = parse("fn f() 1");
    match mochi::ast::unwrap_loc(&program.expressions[0]) {
        Expression::Const { name, .. } => assert_eq!(name, "f"),
        other => panic!("unexpected {:?}", other),
    }
}

#[test]
fn type_errors_are_reported() {
    assert_eq!(first_type_error(":ok == \"ok\"").unwrap(), "Type mismatch: cannot unify 'Atom' with 'String'");
    assert_eq!(first_type_error("1 + \"hello\"").unwrap(), "Type mismatch: cannot unify 'Number' with 'String'");
    assert!(first_type_error("const limit = 100 \n limit = 200").unwrap().contains("Cannot reassign constant 'limit'"));
    assert!(first_type_error("let x: String = 42").unwrap().contains("Type mismatch: cannot unify 'Number' with 'String'"));
    assert!(first_type_error("let primitive = :atom \n primitive[0]").unwrap()
        .contains("Index operator not supported on type 'Atom'"));
    assert!(first_type_error("undefined_name").unwrap().contains("Undefined variable"));
}

#[test]
fn well_typed_programs_pass() {
    assert_eq!(first_type_error("let x: Number = 5 x"), None);
    assert_eq!(first_type_error("fn add(a: Number, b: Number): Number do return a + b end add(10, 20)"), None);
    assert_eq!(first_type_error("const user = { name: \"Hugo\", age: 26 } user.age"), None);
}

#[test]
fn arity_mismatch_is_reported() {
    let msg = first_type_error("fn add(a, b) do return a + b end add(1, 2, 3)").unwrap();
    assert!(msg.contains("Function arity mismatch: expected 2 arguments, got 3"), "{}", msg);
}

#[test]
fn compiler_emits_constants_and_arithmetic() {
    let (program, _) = parse("1 + 2");
    let mut compiler = Compiler::new();
    compiler.compile_program(&program).unwrap();
    let bc = compiler.bytecode();
    let mut expected = make(Opcode::OpConstant, &[0]);
    expected.extend(make(Opcode::OpConstant, &[1]));
    expected.extend(make(Opcode::OpAdd, &[]));
    assert_eq!(bc.instructions, expected);
    assert_eq!(bc.constants.len(), 2);
    match &bc.constants[1] {
        Constant::Number(t) => assert_eq!(t, "2"),
        other => panic!("unexpected {:?}", other),
    }
}

#[test]
fn compiler_rejects_reassigning_constants() {
    let (program, _) = parse("const x = 1 x = 2");
    let mut compiler = Compiler::new();
    let err = compiler.compile_program(&program).unwrap_err();
    assert_eq!(err.message, "Cannot reassign constant 'x'");
}

#[test]
fn compiler_rejects_undefined_names() {
    let (program, _) = parse("y");
    let mut compiler = Compiler::new();
    let err = compiler.compile_program(&program).unwrap_err();
    assert_eq!(err.message, "Undefined variable: y");
}

#[test]
fn make_encodes_operands_big_endian() {
    assert_eq!(make(Opcode::OpConstant, &[65534]), vec![0, 255, 254]);
    assert_eq!(make(Opcode::OpGetLocal, &[255]), vec![18, 255]);
    assert_eq!(make(Opcode::OpClosure, &[65535, 1]), vec![22, 255, 255, 1]);
    assert_eq!(make(Opcode::OpAdd, &[]), vec![1]);
    assert_eq!(make(Opcode::OpConstant, &[65536 + 7]), vec![0, 0, 7]);
}

#[test]
fn errors_are_shown_under_their_source_line() {
    let d = Diagnostic { line: 2, col: 3, message: "bad".to_string(), hint: None };
    let lines = report_errors("let x = 1\r\n\ty y\n", &[d]);
    assert_eq!(
        lines,
        vec![
            "\x1b[31;1merror\x1b[0m: bad".to_string(),
            "\x1b[34;1m -->\x1b[0m line 2:3".to_string(),
            "\x1b[34;1m  |\x1b[0m".to_string(),
            "\x1b[34;1m2 |\x1b[0m \ty y".to_string(),
            "\x1b[34;1m  |\x1b[0m      \x1b[31;1m^\x1b[0m".to_string(),
            String::new(),
        ]
    );
}

#[test]
fn errors_past_the_last_line_show_no_source() {
    let d = Diagnostic { line: 9, col: 1, message: "m".to_string(), hint: None };
    let lines = report_errors("a", &[d]);
    assert_eq!(lines.len(), 3);
    assert_eq!(lines[2], "");
}

#[test]
fn source_lines_follow_str_lines() {
    let text = "foo\r\nbar\n\nbaz\r";
    let ours: Vec<String> = source_lines(text).into_iter().map(|l| l.into_iter().collect()).collect();
    let std_lines: Vec<String> = text.lines().map(|l| l.to_string()).collect();
    assert_eq!(ours, std_lines);
}

/// The operands of the jump instructions in `code`, walking it one
/// instruction at a time.
fn jump_targets(code: &[u8]) -> Vec<usize> {
    let mut targets = Vec::new();
    let mut i = 0;
    while i < code.len() {
        let op = Opcode::from_byte(code[i]).expect("an opcode");
        if matches!(op, Opcode::OpJump | Opcode::OpJumpNotTruthy) {
            targets.push(read_u16(code, i + 1));
        }
        i += make(op, &[0, 0]).len();
    }
    targets
}

#[test]
fn compiled_jumps_land_inside_their_code() {
    let src = "fn pick(x) do if x do 1 else 2 end end \
               let i = 0 \
               while i < 3 do if i == 1 do i = i + 2 else i = i + 1 end end \
               loop do i end \
               pick(:true)";
    let mut parser = Parser::new(Lexer::new(src));
    let program = parser.parse_program();
    assert!(parser.errors.is_empty(), "{:?}", parser.errors);
    let mut compiler = Compiler::new();
    compiler.compile_program(&program).unwrap();
    let bc = compiler.bytecode();
    let targets = jump_targets(&bc.instructions);
    assert!(targets.len() >= 4);
    for t in targets {
        assert!(t <= bc.instructions.len());
    }
    let mut functions = 0;
    for c in &bc.constants {
        if let Constant::CompiledFunction { instructions, .. } = c {
            functions += 1;
            let targets = jump_targets(instructions);
            assert!(targets.len() >= 2);
            for t in targets {
                assert!(t <= instructions.len());
            }
        }
    }
    assert_eq!(functions, 1);
}

/// The variant of the type that checking gives the single expression of `src`.
fn checked_type(src: &str) -> Result<String, String> {
    let (program, errors) = parse(src);
    assert_eq!(errors, 0, "parse errors in {}", src);
    let mut checker = TypeChecker::new();
    let env = checker.new_env();
    let mut last = Err(String::from("no expression"));
    for expr in &program.expressions {
        last = match checker.check(expr, env) {
            Ok(t) => Ok(format!("{:?}", checker.get_type(t)).split(|c: char| c == '(' || c == ' ').next().unwrap().to_string()),
            Err(e) => Err(e.message),
        };
    }
    last
}

#[test]
fn checked_forms_have_their_types() {
    assert_eq!(checked_type("[1, 2]"), Ok(String::from("Array")));
    assert_eq!(checked_type("{ a: 1 }"), Ok(String::from("Hash")));
    assert_eq!(checked_type("-3"), Ok(String::from("Number")));
    assert_eq!(checked_type("!:true"), Ok(String::from("Atom")));
    assert_eq!(checked_type("4 * 5"), Ok(String::from("Number")));
    assert_eq!(checked_type("4 < 5"), Ok(String::from("Atom")));
    assert_eq!(checked_type("if :true do 1 end"), Ok(String::from("Any")));
    assert_eq!(checked_type("while :false do 1 end"), Ok(String::from("Atom")));
    assert_eq!(checked_type("return 1"), Err(String::from("Return statement outside function context")));
}

#[test]
fn results_take_the_type_of_their_value() {
    assert_eq!(checked_type("let a = [1]"), Ok(String::from("Array")));
    assert_eq!(checked_type("let a = 1 a = 2"), Ok(String::from("Number")));
    assert_eq!(checked_type("if :true do \"x\" else \"y\" end"), Ok(String::from("String")));
    assert_eq!(checked_type("fn f(a, b) do return a end"), Ok(String::from("Function")));
    assert_eq!(checked_type("let h = { a: 1 } h.a = :ok"), Ok(String::from("Atom")));
}

/// The expression inside any location wrappers.
fn bare(e: &Expression) -> &Expression {
    match e {
        Expression::Loc { expr, .. } => bare(expr),
        other => other,
    }
}

#[test]
fn parser_builds_the_forms_it_reads() {
    let (program, errors) = parse("");
    assert_eq!((program.expressions.len(), errors), (0, 0));

    let (program, errors) = parse("answer");
    assert_eq!(errors, 0);
    assert_eq!(program.expressions.len(), 1);
    assert!(matches!(bare(&program.expressions[0]), Expression::Identifier(n) if n == "answer"));

    let (program, errors) = parse("{}");
    assert_eq!(errors, 0);
    assert!(matches!(bare(&program.expressions[0]), Expression::Hash(p) if p.is_empty()));

    let (program, errors) = parse("point.x");
    assert_eq!(errors, 0);
    match bare(&program.expressions[0]) {
        Expression::Index { left, index } => {
            assert!(matches!(bare(left), Expression::Identifier(n) if n == "point"));
            assert!(matches!(bare(index), Expression::Atom(a) if a == "x"));
        },
        other => panic!("unexpected {:?}", other),
    }

    let (program, errors) = parse("1 + 2 * 3");
    assert_eq!(errors, 0);
    match bare(&program.expressions[0]) {
        Expression::Infix { left, operator, right } => {
            assert_eq!(operator, "+");
            assert!(matches!(bare(left), Expression::Number(t) if t == "1"));
            assert!(matches!(bare(right), Expression::Infix { operator, .. } if operator == "*"));
        },
        other => panic!("unexpected {:?}", other),
    }

    let (program, errors) = parse("for 1 in xs do 1 end");
    assert!(errors >= 1);
    assert!(program.expressions.iter().all(|e| !matches!(bare(e), Expression::For { .. })));
}

#[test]
fn compiled_forms_end_with_their_instruction() {
    let cases: Vec<(&str, Vec<u8>)> = vec![
        ("[1, 2, 3]", make(Opcode::OpArray, &[3])),
        ("4 < 5", make(Opcode::OpLess, &[])),
        ("!:true", make(Opcode::OpBang, &[])),
        ("{ a: 1, b: 2 }", make(Opcode::OpHash, &[2])),
        ("[1][0]", make(Opcode::OpIndex, &[])),
    ];
    for (src, tail) in cases {
        let (program, errors) = parse(src);
        assert_eq!(errors, 0, "{}", src);
        let mut compiler = Compiler::new();
        compiler.compile_program(&program).unwrap();
        let bc = compiler.bytecode();
        assert!(bc.instructions.ends_with(&tail), "{}: {:?}", src, bc.instructions);
    }
}

#[test]
fn annotated_bindings_report_exact_mismatches() {
    assert_eq!(
        first_type_error("const user: { name: String, age: Number } = { name: \"Hugo\" }"),
        Some(String::from("Record type mismatch: missing required fields [\"age\"]"))
    );
    assert_eq!(
        first_type_error("const p: { a: Number, b: Number, c: Number } = { b: 1 }"),
        Some(String::from("Record type mismatch: missing required fields [\"a\", \"c\"]"))
    );
}

#[test]
fn unify_reports_structured_mismatches() {
    let mut c = TypeChecker::new();
    let n = c.alloc_type(Type::Number);
    let s = c.alloc_type(Type::String);
    let f1 = c.alloc_type(Type::Function { params: vec![n], ret: n });
    let f2 = c.alloc_type(Type::Function { params: vec![n, s], ret: n });
    assert_eq!(c.unify(f1, f2).unwrap_err(), "Function arity mismatch: expected 1 arguments, got 2");
    let t1 = c.alloc_type(Type::Tuple(vec![n]));
    let t2 = c.alloc_type(Type::Tuple(vec![n, s]));
    assert_eq!(c.unify(t1, t2).unwrap_err(), "Tuple size mismatch: expected size 1, got 2");
    let t3 = c.alloc_type(Type::Tuple(vec![s, n]));
    assert!(c.unify(t2, t3).is_ok());
    let h1 = c.alloc_type(Type::Hash(vec![("a".to_string(), n)]));
    let h2 = c.alloc_type(Type::Hash(vec![("b".to_string(), n)]));
    assert_eq!(
        c.unify(h1, h2).unwrap_err(),
        "Record type mismatch: incompatible fields. Got {\"a\"}, expected {\"b\"}"
    );
}

#[test]
fn unify_puts_a_fresh_any_where_tuple_elements_clash() {
    let mut c = TypeChecker::new();
    let n = c.alloc_type(Type::Number);
    let s = c.alloc_type(Type::String);
    let t1 = c.alloc_type(Type::Tuple(vec![n, n]));
    let t2 = c.alloc_type(Type::Tuple(vec![n, s]));
    let t3 = c.alloc_type(Type::Tuple(vec![n]));
    assert_eq!(c.unify(t1, t3).unwrap_err(), "Tuple size mismatch: expected size 2, got 1");
    let k = t3.0 + 1;
    assert!(c.unify(t1, t2).is_ok());
    assert!(matches!(c.get_type(TypeIdx(k)), Type::Any));
    assert!(matches!(c.get_type(t1), Type::Tuple(e) if *e == vec![n, TypeIdx(k)]));
    assert!(matches!(c.get_type(t2), Type::Tuple(e) if *e == vec![n, TypeIdx(k)]));
    assert_eq!(c.alloc_type(Type::Number), TypeIdx(k + 1));
}

#[test]
fn parser_reads_if_and_for_with_simple_parts() {
    let (program, errors) = parse("if ready do yes else no end");
    assert_eq!(errors, 0);
    match bare(&program.expressions[0]) {
        Expression::If { condition, consequence, alternative } => {
            assert!(matches!(bare(condition), Expression::Identifier(n) if n == "ready"));
            match bare(consequence) {
                Expression::Block(es, false) => {
                    assert_eq!(es.len(), 1);
                    assert!(matches!(bare(&es[0]), Expression::Identifier(n) if n == "yes"));
                },
                other => panic!("unexpected {:?}", other),
            }
            match alternative.as_deref().map(bare) {
                Some(Expression::Block(es, false)) => {
                    assert!(matches!(bare(&es[0]), Expression::Identifier(n) if n == "no"));
                },
                other => panic!("unexpected {:?}", other),
            }
        },
        other => panic!("unexpected {:?}", other),
    }

    let (program, errors) = parse("for x in xs do 7 end");
    assert_eq!(errors, 0);
    match bare(&program.expressions[0]) {
        Expression::For { element, iterable, body } => {
            assert_eq!(element, "x");
            assert!(matches!(bare(iterable), Expression::Identifier(n) if n == "xs"));
            assert!(matches!(bare(body), Expression::Block(es, false) if es.len() == 1));
        },
        other => panic!("unexpected {:?}", other),
    }
}

#[test]
fn array_annotations_name_their_element_type() {
    let (program, errors) = parse("let xs: [Number] = [1]");
    assert_eq!(errors, 0);
    match bare(&program.expressions[0]) {
        Expression::Let { type_ann, .. } => {
            assert_eq!(type_ann, &Some(TypeAnn::Array(Box::new(TypeAnn::Number))));
        },
        other => panic!("unexpected {:?}", other),
    }
}

#[test]
fn infix_operands_compile_left_first() {
    let (program, _) = parse("9 - 4");
    let mut compiler = Compiler::new();
    compiler.compile_program(&program).unwrap();
    let bc = compiler.bytecode();
    let mut expected = make(Opcode::OpConstant, &[0]);
    expected.extend(make(Opcode::OpConstant, &[1]));
    expected.extend(make(Opcode::OpSub, &[]));
    assert_eq!(bc.instructions, expected);
    assert!(matches!(&bc.constants[0], Constant::Number(t) if t == "9"));
    assert!(matches!(&bc.constants[1], Constant::Number(t) if t == "4"));
}

#[test]
fn array_elements_are_checked_against_the_annotation() {
    assert_eq!(first_type_error("let xs: [String] = [1, 2]").unwrap(),
        "Type mismatch: cannot unify 'Number' with 'String'");
    assert_eq!(first_type_error("let ys: [Number] = [1, 2]"), None);
}

#[test]
fn record_fields_give_their_types_when_indexed() {
    assert_eq!(checked_type("const user: {name: String, age: Number} = {name: \"Hugo\", age: 26} user.age"),
        Ok("Number".to_string()));
}

#[test]
fn operators_group_by_precedence_then_from_the_left() {
    let (program, errors) = parse("1 * 2 + 3");
    assert_eq!(errors, 0);
    match bare(&program.expressions[0]) {
        Expression::Infix { left, operator, right } => {
            assert_eq!(operator, "+");
            assert!(matches!(bare(left), Expression::Infix { operator, .. } if operator == "*"));
            assert!(matches!(bare(right), Expression::Number(t) if t == "3"));
        },
        other => panic!("unexpected {:?}", other),
    }
    let (program, errors) = parse("8 - 4 - 2");
    assert_eq!(errors, 0);
    match bare(&program.expressions[0]) {
        Expression::Infix { left, operator, right } => {
            assert_eq!(operator, "-");
            assert!(matches!(bare(left), Expression::Infix { left: l, .. } if matches!(bare(l), Expression::Number(t) if t == "8")));
            assert!(matches!(bare(right), Expression::Number(t) if t == "2"));
        },
        other => panic!("unexpected {:?}", other),
    }
}

#[test]
fn operators_check_the_types_of_named_operands() {
    assert_eq!(first_type_error("let s = \"a\" s - 1").unwrap(),
        "Type mismatch: cannot unify 'String' with 'Number'");
    assert_eq!(first_type_error("let n = 2 let m = :ok n == m").unwrap(),
        "Type mismatch: cannot unify 'Number' with 'Atom'");
    assert_eq!(first_type_error("let n = 2 let m = 3 n * m"), None);
}

#[test]
fn record_annotations_keep_their_fields_in_order() {
    let (program, errors) = parse("let u: {name: String, age: Number} = {name: \"a\", age: 1}");
    assert_eq!(errors, 0);
    match bare(&program.expressions[0]) {
        Expression::Let { type_ann, .. } => {
            assert_eq!(type_ann, &Some(TypeAnn::Hash(vec![
                ("name".to_string(), TypeAnn::String),
                ("age".to_string(), TypeAnn::Number),
            ])));
        },
        other => panic!("unexpected {:?}", other),
    }
}

#[test]
fn function_annotations_keep_their_parameter_types_in_order() {
    let (program, errors) = parse("let f: fn(Number, String): Atom = g\nlet h: fn(): Number = k");
    assert_eq!(errors, 0);
    match bare(&program.expressions[0]) {
        Expression::Let { type_ann, .. } => {
            assert_eq!(type_ann, &Some(TypeAnn::Function {
                params: vec![TypeAnn::Number, TypeAnn::String],
                ret: Box::new(TypeAnn::Atom),
            }));
        },
        other => panic!("unexpected {:?}", other),
    }
    match bare(&program.expressions[1]) {
        Expression::Let { type_ann, .. } => {
            assert_eq!(type_ann, &Some(TypeAnn::Function { params: vec![], ret: Box::new(TypeAnn::Number) }));
        },
        other => panic!("unexpected {:?}", other),
    }
}
