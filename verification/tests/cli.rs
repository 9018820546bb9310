use sane::lexer::lex;
use sane::parser::Parser;
use sane::sema::resolve;
use sane::cli::{
    compile_resolved, compile_with_backend, Backend, format_symbol_annotation, parse_sanec_args, resolve_symbols, SanecCommand,
};

/// What `sanec` prints for `args` with `source` on standard input.
fn run_sanec(args: &[&str], source: &str) -> Result<String, String> {
    let args: Vec<String> = args.iter().map(|a| a.to_string()).collect();
    let options = match parse_sanec_args(&args)? {
        SanecCommand::Compile(options) => options,
        _ => panic!("expected a compile command"),
    };
    let mut bf = compile_with_backend(source, "<stdin>", options.backend)?;
    if options.annotate_symbols {
        let symbols = resolve_symbols(source, "<stdin>")?;
        bf = format!("{}\n{bf}", format_symbol_annotation(&symbols));
    }
    Ok(bf)
}

#[test]
fn sanec_can_compile_with_pc_backend() {
    let output = run_sanec(&["-b", "pc"], "let x = 3; while x { put '0' + x; x -= 1; }").unwrap();
    assert_eq!(run_bf(&output, &[]), b"321");
}

#[test]
fn sanec_automatically_selects_pc_for_functions() {
    let output = run_sanec(&[], "fn value() -> byte { return 42; } println value();").unwrap();
    assert_eq!(run_bf(&output, &[]), b"42\n");
}

#[test]
fn sanec_automatically_selects_pc_for_void_functions() {
    let output = run_sanec(&[], "fn show() { puts \"ok\\n\"; } show();").unwrap();
    assert_eq!(run_bf(&output, &[]), b"ok\n");
}

#[test]
fn sanec_can_explicitly_select_auto_backend() {
    let output = run_sanec(&["-b", "auto"], "put 'A';").unwrap();
    assert_eq!(run_bf(&output, &[]), b"A");
}

#[test]
fn sanec_can_annotate_symbols_in_brainfuck_output() {
    let bf = run_sanec(&["-s"], "let x = 'A'; let msg: byte[2] = \"hi\"; put x;").unwrap();
    assert!(bf.starts_with("SANE SYMBOLS\n"));
    assert!(bf.contains("x CELL 8\n"));
    assert!(bf.contains("msg ARRAY BASE 9 LEN 2 DATA CELLS 13 TO 14\n"));
    assert!(bf.contains("END SANE SYMBOLS\n"));

    let annotation = bf.split("END SANE SYMBOLS\n").next().unwrap();
    assert!(
        !annotation
            .bytes()
            .any(|byte| matches!(byte, b'+' | b'-' | b'<' | b'>' | b'[' | b']' | b'.' | b',')),
        "{annotation}"
    );
    assert_eq!(run_bf(&bf, &[]), b"A");
}

#[test]
fn sanec_can_annotate_empty_inferred_string_arrays() {
    let bf = run_sanec(&["-s"], "let empty = \"\"; puts \"ok\";").unwrap();
    assert!(bf.contains("empty ARRAY BASE 8 LEN 0 DATA CELLS 12 TO 11\n"));
    assert_eq!(run_bf(&bf, &[]), b"ok");
}

fn run_bf(code: &str, input: &[u8]) -> Vec<u8> {
    let mut tape = vec![0u8; 30_000];
    let mut ptr = 0usize;
    let mut pc = 0usize;
    let bytes = code.as_bytes();
    let mut input_pos = 0usize;
    let mut output = Vec::new();

    while pc < bytes.len() {
        match bytes[pc] {
            b'>' => ptr += 1,
            b'<' => ptr -= 1,
            b'+' => tape[ptr] = tape[ptr].wrapping_add(1),
            b'-' => tape[ptr] = tape[ptr].wrapping_sub(1),
            b'.' => output.push(tape[ptr]),
            b',' => {
                tape[ptr] = input.get(input_pos).copied().unwrap_or(0);
                input_pos += 1;
            }
            b'[' if tape[ptr] == 0 => {
                let mut depth = 1usize;
                while depth != 0 {
                    pc += 1;
                    match bytes[pc] {
                        b'[' => depth += 1,
                        b']' => depth -= 1,
                        _ => {}
                    }
                }
            }
            b']' if tape[ptr] != 0 => {
                let mut depth = 1usize;
                while depth != 0 {
                    pc -= 1;
                    match bytes[pc] {
                        b']' => depth += 1,
                        b'[' => depth -= 1,
                        _ => {}
                    }
                }
            }
            _ => {}
        }
        pc += 1;
    }

    output
}

#[test]
fn resolved_program_dispatch_follows_backend() {
    let src = "fn value() -> byte { return 42; } println value();";
    let program = resolve(&Parser::new(lex(src).unwrap()).parse_program().unwrap()).unwrap();
    let auto = compile_resolved(&program, Backend::Auto).unwrap();
    let pc = compile_resolved(&program, Backend::Pc).unwrap();
    assert_eq!(auto, pc);
    assert_eq!(
        compile_resolved(&program, Backend::Structured),
        Err("functions require the pc backend (`-b pc`)".to_string())
    );
    let plain = resolve(&Parser::new(lex("put 65;").unwrap()).parse_program().unwrap()).unwrap();
    assert_eq!(
        compile_resolved(&plain, Backend::Auto).unwrap(),
        compile_resolved(&plain, Backend::Structured).unwrap()
    );
}
