use sane::cli::{compile_with_backend, resolve_symbols, Backend};
use sane::compile_source;
use sane::debug::{run_debug, DebugProgram, Debugger, Reply};
use sane::diagnostic::{str_range, Span};

#[test]
fn empty_source_compiles_to_empty_program() {
    assert_eq!(compile_source(""), Ok(String::new()));
}

#[test]
fn empty_source_with_structured_and_auto_backends() {
    assert_eq!(compile_with_backend("", "<stdin>", Backend::Structured), Ok(String::new()));
    assert_eq!(compile_with_backend("", "<stdin>", Backend::Auto), Ok(String::new()));
}

#[test]
fn empty_source_has_a_symbol_table() {
    assert!(resolve_symbols("", "<stdin>").is_ok());
}

#[test]
fn break_outside_loop_is_rejected() {
    let err = compile_source("break;").unwrap_err();
    assert!(err.contains("`break` outside loop"));
    let err = compile_source("continue;").unwrap_err();
    assert!(err.contains("`continue` outside loop"));
    assert!(compile_source("while true { break; }").is_ok());
}

#[test]
fn debugger_session_without_input_shows_banner_and_prompt() {
    let mut out: Vec<u8> = Vec::new();
    assert_eq!(run_debug("+[-]", b"", &mut out), Ok(()));
    assert_eq!(
        String::from_utf8(out).unwrap(),
        "sanei debug mode. Type `help` for commands. Ctrl-C pauses continue.\nsane-db> "
    );
}

#[test]
fn debugger_rejects_unbalanced_program_without_output() {
    let mut out: Vec<u8> = Vec::new();
    assert!(run_debug("[+", b"q\n", &mut out).is_err());
    assert!(out.is_empty());
}

#[test]
fn idle_debugger_callbacks_change_nothing() {
    let mut debugger = Debugger::new(DebugProgram::parse("+.").unwrap());
    let mut out: Vec<u8> = Vec::new();
    let mut fuel: u64 = 7;
    assert_eq!(debugger.resume(&mut out, &mut fuel), Ok(Reply::Ready));
    assert_eq!(debugger.provide_input(Some(b'x'), &mut out, &mut fuel), Ok(Reply::Ready));
    assert!(out.is_empty());
    assert_eq!(fuel, 7);
}

#[test]
fn str_range_takes_whole_characters() {
    let text = "h\u{e9}llo";
    assert_eq!(str_range(text, 0, 1), Some("h".to_string()));
    assert_eq!(str_range(text, 1, 3), Some("\u{e9}".to_string()));
    assert_eq!(str_range(text, 0, 2), None);
    assert_eq!(str_range(text, 2, 3), None);
    assert_eq!(str_range(text, 3, 2), None);
    assert_eq!(str_range(text, 0, 7), None);
    assert_eq!(str_range(text, 3, 6), Some("llo".to_string()));
}

#[test]
fn examine_shows_each_value_of_its_size() {
    let mut out: Vec<u8> = Vec::new();
    run_debug("+++>++<", b"s 6\nx/2xh 0\nx/c 0\nq\n", &mut out).unwrap();
    let text = String::from_utf8(out).unwrap();
    assert!(text.contains("0 0x0203\n2 0x0000\n"));
    assert!(text.contains("0 '\\x03'\n"));
}

#[test]
fn examine_past_the_tape_stops_with_an_error() {
    let mut out: Vec<u8> = Vec::new();
    let result = run_debug("+", b"x/3d 29999\n", &mut out);
    assert_eq!(result, Err("cell 30000 is out of bounds".to_string()));
    let text = String::from_utf8(out).unwrap();
    assert!(text.contains("29999 0\n"));
}

#[test]
fn transfer_loop_on_a_zero_cell_is_skipped() {
    let mut out: Vec<u8> = Vec::new();
    assert_eq!(sane::interpreter::run_source("[<+>-]", &[][..], &mut out), Ok(()));
    assert!(out.is_empty());
    let mut out: Vec<u8> = Vec::new();
    assert_eq!(sane::interpreter::run_source("[<+>-]+.", &[][..], &mut out), Ok(()));
    assert_eq!(out, vec![1u8]);
}

#[test]
fn assignment_whose_right_side_reads_the_target() {
    let code = compile_source("let x: byte = 1; let y: byte = 2; x = y + x; put x + 48;").unwrap();
    let mut out: Vec<u8> = Vec::new();
    sane::interpreter::run_source(&code, &[][..], &mut out).unwrap();
    assert_eq!(out, b"3".to_vec());
    let code = compile_source("let x: byte = 5; x = 9 - x * 1; put x + 48;").unwrap();
    let mut out: Vec<u8> = Vec::new();
    sane::interpreter::run_source(&code, &[][..], &mut out).unwrap();
    assert_eq!(out, b"4".to_vec());
}

#[test]
fn diagnostics_mark_the_column_with_one_caret() {
    let err = sane::compile_source_with_path("let x: byte = 1\nput x;", "bad.sn").unwrap_err();
    assert_eq!(err, "expected Semi, found Put\n  --> bad.sn:2:1\n   |\n 2 | put x;\n   | ^");
}

fn parse(src: &str) -> Result<sane::ast::Program, sane::diagnostic::Diagnostic> {
    let tokens = sane::lexer::lex(src).unwrap();
    sane::parser::Parser::new(tokens).parse_program()
}

#[test]
fn parser_reports_literal_and_declaration_errors() {
    let e = parse("put 0x100;").unwrap_err();
    assert_eq!(e.message, "byte literal out of range");
    assert_eq!(e.span, Some(Span::new(4, 9)));
    let e = parse("let x;").unwrap_err();
    assert_eq!(e.message, "inferred byte declaration requires an initializer");
    assert_eq!(e.span, Some(Span::new(4, 5)));
    let e = parse("let values = [];").unwrap_err();
    assert_eq!(e.message, "cannot infer the element type of an empty array");
    assert!(parse("let e = \"\";").is_ok());
    assert!(parse("x += 1;").is_ok());
    assert!(parse("a[i] ^= k;").is_ok());
}

#[test]
fn resolver_reports_undeclared_and_misused_names() {
    let err = compile_source("{ let y: byte = 1; } put y;").unwrap_err();
    assert!(err.starts_with("use of undeclared variable `y`"));
    let err = compile_source("x = 1;").unwrap_err();
    assert!(err.starts_with("assignment to undeclared variable `x`"));
    let err = compile_source("const VALUE = 1; VALUE = 2;").unwrap_err();
    assert!(err.starts_with("`VALUE` is a constant"));
    let err = compile_source("let a: byte[2]; read a;").unwrap_err();
    assert!(err.starts_with("`a` is an array"));
}

#[test]
fn number_literal_errors() {
    let e = sane::lexer::lex("0b2").unwrap_err();
    assert_eq!(e.message, "expected digits after numeric literal prefix");
    assert_eq!(e.span, Some(Span::new(0, 2)));
    let e = sane::lexer::lex("0b1010_1010").unwrap_err();
    assert_eq!(e.message, "invalid digit '_' for base 2 literal");
    assert_eq!(e.span, Some(Span::point(6)));
    let e = sane::lexer::lex("70000").unwrap_err();
    assert_eq!(e.message, "numeric literal is too large");
    assert_eq!(e.span, Some(Span::new(0, 5)));
}

#[test]
fn debugger_simple_commands_print_their_lines() {
    let mut out: Vec<u8> = Vec::new();
    run_debug("+", b"pc\nfoo\ns\ns\nc\nq\n", &mut out).unwrap();
    let text = String::from_utf8(out).unwrap();
    assert!(text.contains("sane-db> pc=0\n"));
    assert!(text.contains("unknown command `foo`\n"));
    assert!(text.contains("halted pc=1\n"));
}

#[test]
fn debugger_single_step_runs_one_instruction() {
    let mut out: Vec<u8> = Vec::new();
    run_debug("++>", b"s\nq\n", &mut out).unwrap();
    let text = String::from_utf8(out).unwrap();
    assert!(text.contains("pc=1 inst='+' ptr=0 cell[0]=1"));
}

#[test]
fn first_variable_takes_the_first_cell_after_temporaries() {
    let tokens = sane::lexer::lex("let x: byte; { let y: byte = 1; } put x;").unwrap();
    let program = sane::parser::Parser::new(tokens).parse_program().unwrap();
    let resolved = sane::sema::resolve(&program).unwrap();
    match &resolved.stmts[0] {
        sane::sema::ResolvedStmt::Let { cell, .. } => assert_eq!(*cell, sane::sema::TEMP_COUNT),
        other => panic!("expected a let, got {other:?}"),
    }
    assert_eq!(sane::sema::TEMP_COUNT, 8);
}

#[test]
fn single_inferred_byte_declaration_parses() {
    let tokens = sane::lexer::lex("let x = 1;").unwrap();
    let program = sane::parser::Parser::new(tokens).parse_program().unwrap();
    assert_eq!(program.functions.len(), 0);
    assert_eq!(program.stmts.len(), 1);
    assert!(matches!(program.stmts[0], sane::ast::Stmt::Let { .. }));
}

#[test]
fn debug_program_reports_unmatched_brackets() {
    assert_eq!(DebugProgram::parse("+]").err(), Some("unmatched `]` at instruction 1".to_string()));
    assert_eq!(DebugProgram::parse("[[]+[").err(), Some("unmatched `[` at instruction 4".to_string()));
    assert_eq!(DebugProgram::parse("[[]").err(), Some("unmatched `[` at instruction 0".to_string()));
}

fn resolve_text(src: &str) -> Result<sane::sema::ResolvedProgram, sane::diagnostic::Diagnostic> {
    let tokens = sane::lexer::lex(src).unwrap();
    let program = sane::parser::Parser::new(tokens).parse_program().unwrap();
    sane::sema::resolve(&program)
}

#[test]
fn resolver_reports_repeated_functions_and_stray_jumps() {
    let e = resolve_text("fn f() -> byte { return 1; } fn f() -> byte { return 2; }").err().unwrap();
    assert_eq!(e.message, "function `f` already declared");
    let e = resolve_text("break;").err().unwrap();
    assert_eq!(e.message, "`break` outside loop");
    assert_eq!(e.span, Some(Span::new(0, 6)));
    let e = resolve_text("continue;").err().unwrap();
    assert_eq!(e.message, "`continue` outside loop");
    let e = resolve_text("return 1;").err().unwrap();
    assert_eq!(e.message, "`return` outside function");
    assert!(resolve_text("let x: byte;").is_ok());
    assert!(resolve_text("put 65;").is_ok());
}

#[test]
fn comments_do_not_change_a_run() {
    let mut a: Vec<u8> = Vec::new();
    let mut b: Vec<u8> = Vec::new();
    let plain = "++++++++[>++++++++<-]>+.";
    let commented = "eight ++++++++ [loop: >++++++++<-] then >+ and print .";
    sane::interpreter::run_source(plain, &[][..], &mut a).unwrap();
    sane::interpreter::run_source(commented, &[][..], &mut b).unwrap();
    assert_eq!(a, b"A".to_vec());
    assert_eq!(a, b);
}

#[test]
fn runs_of_plain_statements_parse() {
    let tokens = sane::lexer::lex("put 1; put 2; let x = 3; let y: byte; break;").unwrap();
    let program = sane::parser::Parser::new(tokens).parse_program().unwrap();
    assert_eq!(program.stmts.len(), 5);
}

#[test]
fn rendered_diagnostic_quotes_its_source_line() {
    let d = sane::diagnostic::Diagnostic::new("oops".to_string(), Span::new(9, 10));
    let text = d.render("a.sn", "put 1;\nput x;\n");
    assert_eq!(text, "oops\n  --> a.sn:2:3\n   |\n 2 | put x;\n   |   ^");
}
