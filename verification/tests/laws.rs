use sane::ast::{BinOp, Expr, Stmt};
use sane::bf;
use sane::cli::{parse_sanec_args, parse_sanei_args, Backend, SanecCommand, SaneiCommand};
use sane::compile_source;
use sane::debug::{run_debug, DebugProgram};
use sane::diagnostic::{Diagnostic, Span};
use sane::interpreter::{run_source, Event, Op, Program, Runtime};
use sane::{lexer, parser, sema};

fn resolve(src: &str) -> sema::ResolvedProgram {
    let tokens = lexer::lex(src).unwrap();
    let mut parser = parser::Parser::new(tokens);
    let program = parser.parse_program().unwrap();
    sema::resolve(&program).unwrap()
}

fn balanced(code: &str) -> bool {
    let mut depth: i64 = 0;
    for c in code.chars() {
        match c {
            '[' => depth += 1,
            ']' => {
                depth -= 1;
                if depth < 0 {
                    return false;
                }
            }
            _ => {}
        }
    }
    depth == 0
}

fn run(code: &str, input: &[u8]) -> Vec<u8> {
    let mut output = Vec::new();
    run_source(code, input, &mut output).unwrap();
    output
}

const PROGRAMS: [&str; 4] = [
    "let x = 3; while x { put '0' + x; x -= 1; }",
    "let a: byte[4] = [1, 2, 3, 4]; let i = 2; put '0' + a[i]; a[i] = 9; println a[i];",
    "for let i = 0; i < 5; i += 1 { if i == 2 { continue; } print i; }",
    "let x: byte; read x; println x * 3 / 2 % 7 << 1;",
];

#[test]
fn compiled_code_is_valid_brainfuck_without_adjacent_clears() {
    for src in PROGRAMS {
        let code = compile_source(src).unwrap();
        assert!(code.chars().all(|c| "+-<>.,[]".contains(c)), "{code}");
        assert!(balanced(&code));
        assert!(!code.contains("[-][-]"));
        assert!(Program::parse(&code).is_ok());
        let pc = bf::compile_pc(&resolve(src)).unwrap();
        assert!(balanced(&pc));
        assert!(!pc.contains("[-][-]"));
        assert!(Program::parse(&pc).is_ok());
    }
}

#[test]
fn both_backends_agree_on_programs_without_functions() {
    for src in PROGRAMS {
        let structured = compile_source(src).unwrap();
        let pc = bf::compile_pc(&resolve(src)).unwrap();
        assert_eq!(run(&structured, b"\x09"), run(&pc, b"\x09"), "{src}");
    }
}

#[test]
fn structured_backend_error_names_the_pc_backend() {
    let program = resolve("fn f() { puts \"x\"; } f();");
    assert_eq!(
        bf::compile(&program),
        Err("functions require the pc backend (`-b pc`)".to_string())
    );
}

#[test]
fn constant_folding_follows_byte_semantics() {
    let src = "put 200 + 100; put 3 - 5; put 16 * 17; put 7 / 0; put 7 % 0; put 1 << 9; put 200 >> 8; put 5 < 7; put !0; put ~1;";
    let code = compile_source(src).unwrap();
    assert_eq!(run(&code, &[]), [44, 254, 16, 0, 7, 0, 0, 1, 1, 254]);
}

#[test]
fn interpreter_reports_each_bracket_error() {
    assert_eq!(
        Program::parse("+]").unwrap_err(),
        "unmatched `]` at instruction 1"
    );
    assert_eq!(Program::parse("comment [ ] ] x").unwrap_err(), "unmatched `]` at instruction 2");
    assert_eq!(Program::parse("[[]").unwrap_err(), "unmatched `[`");
    assert!(Program::parse("text without code").unwrap().ops().is_empty());
}

#[test]
fn interpreter_optimizes_runs_and_cancellations() {
    assert_eq!(Program::parse("+-").unwrap().ops(), &[]);
    assert_eq!(Program::parse("><>").unwrap().ops(), &[Op::Move(1)]);
    assert_eq!(Program::parse("[+]").unwrap().ops(), &[Op::Clear]);
    assert_eq!(
        Program::parse("[>+<-]").unwrap().ops(),
        &[Op::AddMul(vec![(1, 1)])]
    );
    assert_eq!(
        Program::parse("[>+<]").unwrap().ops(),
        &[Op::Loop(vec![Op::Move(1), Op::Add(1), Op::Move(-1)])]
    );
}

#[test]
fn interpreter_reads_zero_at_end_of_input_and_wraps() {
    assert_eq!(run(",.", &[]), [0]);
    assert_eq!(run("-.", &[]), [255]);
    assert_eq!(run(",+.", &[255]), [0]);
}

#[test]
fn interpreter_reports_leaving_the_tape() {
    let mut output = Vec::new();
    assert_eq!(
        run_source("<", &[], &mut output),
        Err("data pointer moved before cell 0".to_string())
    );
    let mut output = Vec::new();
    assert_eq!(
        run_source("+[>+]", &[], &mut output),
        Err("data pointer moved past cell 29999".to_string())
    );
}

#[test]
fn runtime_stops_for_input_and_output() {
    let program = Program::parse(",+.").unwrap();
    let mut runtime = Runtime::new(&program);
    let mut fuel = 100;
    assert_eq!(runtime.resume(&mut fuel), Ok(Event::NeedInput));
    assert!(runtime.waiting_for_input());
    runtime.provide_input(Some(b'a'));
    assert_eq!(runtime.resume(&mut fuel), Ok(Event::Output(b'b')));
    assert_eq!(runtime.resume(&mut fuel), Ok(Event::Halted));
    let mut none = 0;
    let mut looping = Runtime::new(&Program::parse("+[]").unwrap());
    assert_eq!(looping.resume(&mut none), Ok(Event::OutOfSteps));
}

#[test]
fn debugger_program_reports_bracket_errors() {
    assert_eq!(
        DebugProgram::parse("]").unwrap_err(),
        "unmatched `]` at instruction 0"
    );
    assert_eq!(
        DebugProgram::parse("[[]").unwrap_err(),
        "unmatched `[` at instruction 0"
    );
}

fn session(program: &str, commands: &str) -> Result<String, String> {
    let mut output = Vec::new();
    run_debug(program, commands.as_bytes(), &mut output)?;
    Ok(String::from_utf8(output).unwrap())
}

#[test]
fn debugger_breakpoints_can_be_deleted() {
    let out = session("+++", "b 1\nb 1\ndelete 1\ndelete 1\nbreakpoints\nq\n").unwrap();
    assert!(out.contains("breakpoint set at 1"));
    assert!(out.contains("breakpoint deleted at 1"));
    assert!(out.contains("no breakpoint at 1"));
    assert!(out.contains("no breakpoints"));
}

#[test]
fn debugger_reads_program_input_from_the_session() {
    let out = session(",.", "c\nA").unwrap();
    assert!(out.contains("halted pc=2"));
    assert!(out.contains('A'));
}

#[test]
fn debugger_reports_command_errors() {
    assert_eq!(
        session("+", "b\n"),
        Err("break requires an instruction index".to_string())
    );
    assert_eq!(
        session("+", "s x\n"),
        Err("expected unsigned integer, found `x`".to_string())
    );
    assert_eq!(
        session("+", "set 0 300\n"),
        Err("expected byte value, found `300`".to_string())
    );
    assert_eq!(
        session("+", "next ab\n"),
        Err("expected one BF instruction, found `ab`".to_string())
    );
    assert_eq!(
        session("+", "x/q 0\n"),
        Err("invalid x format character `q`".to_string())
    );
    assert_eq!(
        session("+", "x/d1 0\n"),
        Err("invalid x format `d1`".to_string())
    );
    assert_eq!(
        session("+", "watch nowhere\n"),
        Err("unknown cell or symbol `nowhere`".to_string())
    );
    assert_eq!(
        session("+", "x/d 30000\n"),
        Err("cell 30000 is out of bounds".to_string())
    );
    let out = session("+", "frobnicate\nq\n").unwrap();
    assert!(out.contains("unknown command `frobnicate`"));
}

#[test]
fn debugger_shows_characters_and_code() {
    let out = session("+++[-]", "set 0 65\nx/c 0\nset 1 7\nx/c 1\ncode 1\nq\n").unwrap();
    assert!(out.contains("0 'A'"));
    assert!(out.contains("1 '\\x07'"));
    assert!(out.contains("=>        0 +"));
    assert!(out.contains("          1 +"));
}

#[test]
fn diagnostic_render_points_at_line_and_column() {
    let d = Diagnostic::new("bad".to_string(), Span::new(7, 8));
    let text = d.render("f.sn", "let x;\nput é;");
    assert!(text.starts_with("bad\n  --> f.sn:2:1\n"), "{text}");
    let d = Diagnostic::new("bad".to_string(), Span::new(13, 14));
    let text = d.render("f.sn", "let x;\nput é;");
    assert!(text.starts_with("bad\n  --> f.sn:2:6\n"), "{text}");
    assert_eq!(Diagnostic::bare("plain".to_string()).render("f.sn", ""), "plain");
}

#[test]
fn sanec_arguments_select_backend_and_outputs() {
    let args: Vec<String> = ["in.sn", "-o", "out.bf", "-s", "-b", "pc"]
        .iter()
        .map(|a| a.to_string())
        .collect();
    match parse_sanec_args(&args).unwrap() {
        SanecCommand::Compile(options) => {
            assert_eq!(options.input.as_deref(), Some("in.sn"));
            assert_eq!(options.output.as_deref(), Some("out.bf"));
            assert!(options.annotate_symbols);
            assert_eq!(options.backend, Backend::Pc);
        }
        _ => panic!("expected a compile command"),
    }
    let bad: Vec<String> = vec!["-b".to_string(), "fast".to_string()];
    assert_eq!(
        parse_sanec_args(&bad).err(),
        Some("unknown backend `fast`; expected `auto`, `structured`, or `pc`".to_string())
    );
    let missing: Vec<String> = vec!["-o".to_string()];
    assert!(parse_sanec_args(&missing)
        .err()
        .unwrap()
        .starts_with("missing output path after `-o`\n\nUsage: sanec"));
}

#[test]
fn sanei_arguments_select_run_or_debug() {
    let debug: Vec<String> = vec!["-d".to_string(), "p.bf".to_string()];
    assert!(matches!(parse_sanei_args(&debug), Ok(SaneiCommand::Debug(p)) if p == "p.bf"));
    let run: Vec<String> = vec!["p.bf".to_string()];
    assert!(matches!(parse_sanei_args(&run), Ok(SaneiCommand::Run(p)) if p == "p.bf"));
    let none: Vec<String> = Vec::new();
    assert!(parse_sanei_args(&none).is_err());
}

#[test]
fn mutual_recursion_through_three_functions_is_rejected() {
    let src = "fn a() -> byte { return b(); } fn b() -> byte { return c(); } fn c() -> byte { return a(); } put a();";
    let tokens = lexer::lex(src).unwrap();
    let mut parser = parser::Parser::new(tokens);
    let program = parser.parse_program().unwrap();
    let err = sema::resolve(&program).unwrap_err();
    assert!(err.message.contains("recursive function calls are not supported"));
}

#[test]
fn transfer_and_clear_loops_run_as_the_loops_they_replace() {
    assert_eq!(run("++[->+++<]>.", &[]), [6]);
    assert_eq!(run("-[->+<]>.", &[]), [255]);
    assert_eq!(run("+++[+].", &[]), [0]);
    assert_eq!(run("++[->--<]>.", &[]), [252]);
    assert_eq!(Program::parse("+><+").unwrap().ops(), &[Op::Add(2)]);
}

#[test]
fn lexer_takes_the_longest_operator_and_skips_comments() {
    let tokens = lexer::lex("a<<=b // c\n0x1F '\\n' \"hi\"").unwrap();
    let kinds: Vec<String> = tokens.iter().map(|t| lexer::describe_kind(&t.kind)).collect();
    assert_eq!(
        kinds,
        vec!["Ident(\"a\")", "ShlEq", "Ident(\"b\")", "Number(31)", "Number(10)", "StringLit([104, 105])", "Eof"]
    );
    assert_eq!(tokens[1].span, Span { start: 1, end: 4 });
    assert_eq!(tokens[3].span, Span { start: 11, end: 15 });
    let keyword = lexer::lex("const").unwrap();
    assert_eq!(lexer::describe_kind(&keyword[0].kind), "Const");
}

#[test]
fn sanei_arguments_reject_extra_paths() {
    let two: Vec<String> = vec!["a.bf".to_string(), "b.bf".to_string()];
    assert!(parse_sanei_args(&two).is_err());
    let only_flag: Vec<String> = vec!["-d".to_string()];
    assert!(parse_sanei_args(&only_flag).is_err());
    let help: Vec<String> = vec!["--help".to_string()];
    assert!(matches!(parse_sanei_args(&help), Ok(SaneiCommand::Help)));
}

#[test]
fn operators_bind_by_level_and_lean_left() {
    let tokens = sane::lexer::lex("x = 1 - 2 - 3 * 4;").unwrap();
    let mut parser = sane::parser::Parser::new(tokens);
    let program = parser.parse_program().unwrap();
    assert_eq!(program.functions.len(), 0);
    assert_eq!(program.stmts.len(), 1);
    let expr = match &program.stmts[0] {
        Stmt::Assign { name, expr, .. } => {
            assert_eq!(name, "x");
            expr
        }
        other => panic!("unexpected statement {:?}", other),
    };
    match expr {
        Expr::Binary { left, op: BinOp::Sub, right, .. } => {
            assert!(matches!(**left, Expr::Binary { op: BinOp::Sub, .. }));
            assert!(matches!(**right, Expr::Binary { op: BinOp::Mul, .. }));
        }
        other => panic!("unexpected expression {:?}", other),
    }
}

#[test]
fn compound_array_assignment_reads_the_same_element() {
    let tokens = sane::lexer::lex("a[i] += 2;").unwrap();
    let mut parser = sane::parser::Parser::new(tokens);
    let program = parser.parse_program().unwrap();
    match &program.stmts[0] {
        Stmt::ArrayAssign { name, index, expr, .. } => {
            assert_eq!(name, "a");
            assert!(matches!(index, Expr::Var(v, _) if v == "i"));
            match expr {
                Expr::Binary { left, op: BinOp::Add, right, .. } => {
                    assert!(matches!(&**left, Expr::ArrayGet { name, index, .. }
                        if name == "a" && matches!(&**index, Expr::Var(v, _) if v == "i")));
                    assert!(matches!(**right, Expr::Byte(2, _)));
                }
                other => panic!("unexpected expression {:?}", other),
            }
        }
        other => panic!("unexpected statement {:?}", other),
    }
}

#[test]
fn top_level_symbols_and_parameters_get_their_own_cells() {
    let rp = resolve("let a: byte; let b: byte[3]; let c: byte; { let d: byte; } let e: byte; fn f(x: byte, y: byte) { put x + y; }");
    let s = &rp.symbols;
    assert_eq!(s.cell("a"), Some(8));
    assert_eq!(s.cell("b"), Some(9));
    assert_eq!(s.cell("c"), Some(16));
    assert_eq!(s.cell("e"), Some(17));
    let mut cells: Vec<usize> = Vec::new();
    for info in s.entries() {
        match info {
            sema::SymbolInfo::Scalar { cell, .. } => cells.push(*cell),
            sema::SymbolInfo::Array { base, len, .. } => {
                for c in *base..*base + 4 + *len {
                    cells.push(c);
                }
            }
        }
    }
    let total = cells.len();
    cells.sort();
    cells.dedup();
    assert_eq!(cells.len(), total);
    let p = &rp.functions[0].params;
    assert_eq!(p.len(), 2);
    assert_ne!(p[0], p[1]);
}
