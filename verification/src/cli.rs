use vstd::prelude::*;
use crate::bf::{
    compile, compile_pc, functions_need_pc_msg, has_double_clear, is_bf_char, is_internal_error,
    too_many_blocks_msg, valid_bf,
};
use crate::lexer::lex;
use crate::parser::Parser;
use crate::sema::{resolve, ResolvedProgram, Symbols, SymbolInfo, TEMP_COUNT, WORK_CELL_COUNT, info_in_range};
use crate::text::{chars_of, decimal_chars, push_decimal, push_str, same_text};

verus! {

/// The backend a `-b` argument names.
pub open spec fn backend_named(name: Seq<char>) -> Option<Backend> {
    if name == "auto"@ {
        Some(Backend::Auto)
    } else if name == "structured"@ {
        Some(Backend::Structured)
    } else if name == "pc"@ {
        Some(Backend::Pc)
    } else {
        None
    }
}

pub open spec fn unknown_backend_msg(name: Seq<char>) -> Seq<char> {
    "unknown backend `"@ + name + "`; expected `auto`, `structured`, or `pc`"@
}

/// Which code generator `sanec` uses.
#[derive(Debug, Clone, Copy, PartialEq, Eq, Structural)]
pub enum Backend {
    /// Structured for programs without functions, program counter otherwise.
    Auto,
    Structured,
    Pc,
}

impl Backend {
    /// Reads a backend name given to `-b`.
    pub fn parse(name: &str) -> (r: Result<Self, String>)
        ensures
            name@ == "auto"@ ==> r == Ok::<Backend, String>(Backend::Auto),
            name@ == "structured"@ ==> r == Ok::<Backend, String>(Backend::Structured),
            name@ == "pc"@ ==> r == Ok::<Backend, String>(Backend::Pc),
            name@ != "auto"@ && name@ != "structured"@ && name@ != "pc"@ ==> (r matches Err(e) && e@
                == unknown_backend_msg(name@)),
    {
        proof {
            reveal_strlit("auto");
            reveal_strlit("structured");
            reveal_strlit("pc");
            assert("auto"@.len() != "structured"@.len());
            assert("auto"@.len() != "pc"@.len());
            assert("pc"@.len() != "structured"@.len());
        }
        let cs = chars_of(name);
        if same_text(cs.as_slice(), "auto") {
            Ok(Backend::Auto)
        } else if same_text(cs.as_slice(), "structured") {
            Ok(Backend::Structured)
        } else if same_text(cs.as_slice(), "pc") {
            Ok(Backend::Pc)
        } else {
            let mut m = "unknown backend `".to_string();
            push_str(&mut m, name);
            push_str(&mut m, "`; expected `auto`, `structured`, or `pc`");
            Err(m)
        }
    }
}

/// Compiles Sane source with the chosen backend; failures of the front end are rendered
/// against `path`.
pub fn compile_with_backend(src: &str, path: &str, backend: Backend) -> (r: Result<String, String>)
    ensures
        r matches Ok(code) ==> valid_bf(code@) && !has_double_clear(code@),
        src@.len() == 0 && !(backend is Pc) ==> (r matches Ok(code) && code@.len() == 0),
{
    let tokens = match lex(src) {
        Ok(t) => t,
        Err(e) => {
            return Err(e.render(path, src));
        },
    };
    let mut parser = Parser::new(tokens);
    let program = match parser.parse_program() {
        Ok(p) => p,
        Err(e) => {
            return Err(e.render(path, src));
        },
    };
    let program = match resolve(&program) {
        Ok(p) => p,
        Err(e) => {
            return Err(e.render(path, src));
        },
    };
    compile_resolved(&program, backend)
}

/// Compiles a resolved program with the chosen backend. `Auto` takes the program-counter
/// backend exactly when the program has functions: it then fails only as that backend
/// fails, and otherwise only as the structured backend fails on a program without
/// functions, that is with an internal error.
pub fn compile_resolved(program: &ResolvedProgram, backend: Backend) -> (r: Result<String, String>)
    requires
        program.symbols.wf(),
    ensures
        r matches Ok(code) ==> valid_bf(code@) && !has_double_clear(code@),
        backend is Structured ==> (program.functions@.len() > 0 <==> (r matches Err(e) && e@
            == functions_need_pc_msg())),
        backend is Pc || (backend is Auto && program.functions@.len() > 0) ==> (r matches Err(e)
            ==> e@ == too_many_blocks_msg() || is_internal_error(e@)),
        backend is Auto && program.functions@.len() == 0 ==> (r matches Err(e) ==> is_internal_error(
            e@,
        )),
        backend is Auto ==> !(r matches Err(e) && e@ == functions_need_pc_msg()),
        !(backend is Pc) && program.functions@.len() == 0 && program.stmts@.len() == 0 ==> (r matches Ok(
            code,
        ) && code@.len() == 0),
{
    proof {
        reveal_strlit("functions require the pc backend (`-b pc`)");
        reveal_strlit("pc backend supports at most 256 basic blocks");
        reveal_strlit("internal error: ");
        assert(functions_need_pc_msg()[0] != too_many_blocks_msg()[0]);
        if is_internal_error(functions_need_pc_msg()) {
            assert(functions_need_pc_msg().take(16)[0] == "internal error: "@[0]);
        }
    }
    let use_pc = match backend {
        Backend::Auto => program.functions.len() > 0,
        Backend::Structured => false,
        Backend::Pc => true,
    };
    if use_pc {
        compile_pc(program)
    } else {
        compile(program)
    }
}

/// The public symbol table of Sane source.
pub fn resolve_symbols(src: &str, path: &str) -> (r: Result<Symbols, String>)
    ensures
        r matches Ok(s) ==> s.wf(),
        src@.len() == 0 ==> r is Ok,
{
    let tokens = match lex(src) {
        Ok(t) => t,
        Err(e) => {
            return Err(e.render(path, src));
        },
    };
    let mut parser = Parser::new(tokens);
    let program = match parser.parse_program() {
        Ok(p) => p,
        Err(e) => {
            return Err(e.render(path, src));
        },
    };
    match resolve(&program) {
        Ok(p) => Ok(p.symbols),
        Err(e) => Err(e.render(path, src)),
    }
}

/// No Brainfuck instruction among the characters.
pub open spec fn bf_free(s: Seq<char>) -> bool {
    forall|i: int| 0 <= i < s.len() ==> !is_bf_char(#[trigger] s[i])
}

proof fn lemma_bf_free_concat(a: Seq<char>, b: Seq<char>)
    requires
        bf_free(a),
        bf_free(b),
    ensures
        bf_free(a + b),
{
    assert forall|i: int| 0 <= i < (a + b).len() implies !is_bf_char(#[trigger] (a + b)[i]) by {
        if i < a.len() {
            assert((a + b)[i] == a[i]);
        } else {
            assert((a + b)[i] == b[i - a.len()]);
        }
    }
}

proof fn lemma_decimal_bf_free(n: nat)
    ensures
        bf_free(decimal_chars(n)),
    decreases n,
{
    if n >= 10 {
        lemma_decimal_bf_free(n / 10);
        let d = crate::text::digit_char(n % 10);
        assert(decimal_chars(n) == decimal_chars(n / 10).push(d));
        assert forall|i: int| 0 <= i < decimal_chars(n).len() implies !is_bf_char(#[trigger] decimal_chars(n)[i]) by {
            if i < decimal_chars(n / 10).len() {
                assert(decimal_chars(n)[i] == decimal_chars(n / 10)[i]);
            }
        }
    }
}

/// Appends a text without Brainfuck instructions.
fn push_plain(s: &mut String, t: &str)
    requires
        bf_free(old(s)@),
        bf_free(t@),
    ensures
        bf_free(final(s)@),
        final(s)@ == old(s)@ + t@,
{
    push_str(s, t);
    proof {
        lemma_bf_free_concat(old(s)@, t@);
    }
}

fn push_number(s: &mut String, n: usize)
    requires
        bf_free(old(s)@),
    ensures
        bf_free(final(s)@),
        final(s)@ == old(s)@ + decimal_chars(n as nat),
{
    push_decimal(s, n as u64);
    proof {
        lemma_decimal_bf_free(n as nat);
        lemma_bf_free_concat(old(s)@, decimal_chars(n as nat));
    }
}

/// The fixed texts of the annotation hold no Brainfuck instruction.
proof fn lemma_annotation_texts()
    ensures
        bf_free("SANE SYMBOLS\nTEMP CELLS 0 TO "@),
        bf_free("\nSCRATCH BASE "@),
        bf_free("\nCONTROL BASE "@),
        bf_free("\n"@),
        bf_free(" CELL "@),
        bf_free(" ARRAY BASE "@),
        bf_free(" LEN "@),
        bf_free(" DATA CELLS "@),
        bf_free(" TO "@),
        bf_free("\nEND SANE SYMBOLS"@),
{
    reveal_strlit("SANE SYMBOLS\nTEMP CELLS 0 TO ");
    reveal_strlit("\nSCRATCH BASE ");
    reveal_strlit("\nCONTROL BASE ");
    reveal_strlit("\n");
    reveal_strlit(" CELL ");
    reveal_strlit(" ARRAY BASE ");
    reveal_strlit(" LEN ");
    reveal_strlit(" DATA CELLS ");
    reveal_strlit(" TO ");
    reveal_strlit("\nEND SANE SYMBOLS");
}

/// Every symbol name is free of Brainfuck instructions (as identifiers are).
pub open spec fn names_bf_free(entries: Seq<SymbolInfo>) -> bool {
    forall|k: int| 0 <= k < entries.len() ==> bf_free(crate::sema::info_name(#[trigger] entries[k]))
}

/// The annotation line of one symbol.
pub open spec fn symbol_line(info: SymbolInfo) -> Seq<char> {
    match info {
        SymbolInfo::Scalar { name, cell } => "\n"@ + name@ + " CELL "@ + decimal_chars(cell as nat),
        SymbolInfo::Array { name, base, len } => "\n"@ + name@ + " ARRAY BASE "@ + decimal_chars(
            base as nat,
        ) + " LEN "@ + decimal_chars(len as nat) + " DATA CELLS "@ + decimal_chars((base + 4) as nat)
            + " TO "@ + decimal_chars((base + 3 + len) as nat),
    }
}

/// The annotation lines of the symbols, in order.
pub open spec fn symbol_lines(entries: Seq<SymbolInfo>) -> Seq<char>
    decreases entries.len(),
{
    if entries.len() == 0 {
        Seq::empty()
    } else {
        symbol_lines(entries.drop_last()) + symbol_line(entries.last())
    }
}

/// The whole annotation of a symbol table.
pub open spec fn annotation_text(symbols: Symbols) -> Seq<char> {
    "SANE SYMBOLS\nTEMP CELLS 0 TO "@ + decimal_chars((TEMP_COUNT - 1) as nat) + "\nSCRATCH BASE "@
        + decimal_chars(symbols.spec_scratch_base() as nat) + "\nCONTROL BASE "@ + decimal_chars(
        (symbols.spec_scratch_base() + WORK_CELL_COUNT) as nat,
    ) + symbol_lines(symbols.spec_entries()) + "\nEND SANE SYMBOLS"@
}

/// The symbol annotation that `sanec -s` puts before the code: the temporary cells, the
/// scratch and control bases, and a line for each symbol, between `SANE SYMBOLS` and
/// `END SANE SYMBOLS`. When no name holds a Brainfuck instruction, neither does the
/// annotation, so an interpreter reads it as a comment.
pub fn format_symbol_annotation(symbols: &Symbols) -> (s: String)
    requires
        symbols.wf(),
    ensures
        s@ == annotation_text(*symbols),
        names_bf_free(symbols.spec_entries()) ==> bf_free(s@),
{
    proof {
        symbols.lemma_wf_ranges();
        lemma_annotation_texts();
    }
    let ghost free = names_bf_free(symbols.spec_entries());
    let mut s = String::new();
    push_plain(&mut s, "SANE SYMBOLS\nTEMP CELLS 0 TO ");
    push_number(&mut s, TEMP_COUNT - 1);
    push_plain(&mut s, "\nSCRATCH BASE ");
    push_number(&mut s, symbols.scratch_base());
    push_plain(&mut s, "\nCONTROL BASE ");
    push_number(&mut s, symbols.control_base());
    let entries = symbols.entries();
    let ghost head = s@;
    let mut i: usize = 0;
    proof {
        assert(entries@.take(0) =~= Seq::<SymbolInfo>::empty());
        assert(head + symbol_lines(Seq::<SymbolInfo>::empty()) =~= head);
    }
    while i < entries.len()
        invariant
            entries@ == symbols.spec_entries(),
            i <= entries@.len(),
            s@ == head + symbol_lines(entries@.take(i as int)),
            forall|k: int|
                0 <= k < entries@.len() ==> info_in_range(
                    #[trigger] entries@[k],
                    symbols.spec_scratch_base() as nat,
                ),
            symbols.spec_scratch_base() <= crate::sema::MAX_LAYOUT_CELLS,
            free == names_bf_free(symbols.spec_entries()),
            free ==> bf_free(s@),
        decreases entries@.len() - i,
    {
        proof {
            lemma_annotation_texts();
            assert(entries@.take(i + 1).drop_last() =~= entries@.take(i as int));
        }
        proof {
            if free {
                assert(bf_free(crate::sema::info_name(entries@[i as int])));
            }
        }
        push_symbol_line(&mut s, &entries[i], Ghost(symbols.spec_scratch_base() as nat), Ghost(free));
        i = i + 1;
        proof {
            assert(s@ =~= head + symbol_lines(entries@.take(i as int)));
        }
    }
    proof {
        assert(entries@.take(entries@.len() as int) =~= entries@);
    }
    proof {
        lemma_annotation_texts();
    }
    push_plain_if(&mut s, "\nEND SANE SYMBOLS", Ghost(free));
    s
}

/// Appends the annotation line of one symbol.
fn push_symbol_line(s: &mut String, info: &SymbolInfo, Ghost(limit): Ghost<nat>, Ghost(free): Ghost<bool>)
    requires
        free ==> bf_free(old(s)@),
        free ==> bf_free(crate::sema::info_name(*info)),
        info_in_range(*info, limit),
        limit <= crate::sema::MAX_LAYOUT_CELLS,
    ensures
        free ==> bf_free(final(s)@),
        final(s)@ == old(s)@ + symbol_line(*info),
{
    proof {
        lemma_annotation_texts();
    }
    push_plain_if(s, "\n", Ghost(free));
    match info {
        SymbolInfo::Scalar { name, cell } => {
            push_name(s, name, Ghost(free));
            push_plain_if(s, " CELL ", Ghost(free));
            push_number_if(s, *cell, Ghost(free));
            assert(s@ =~= old(s)@ + symbol_line(*info));
        },
        SymbolInfo::Array { name, base, len } => {
            let first = *base + 4;
            push_name(s, name, Ghost(free));
            push_plain_if(s, " ARRAY BASE ", Ghost(free));
            push_number_if(s, *base, Ghost(free));
            push_plain_if(s, " LEN ", Ghost(free));
            push_number_if(s, *len, Ghost(free));
            push_plain_if(s, " DATA CELLS ", Ghost(free));
            push_number_if(s, first, Ghost(free));
            push_plain_if(s, " TO ", Ghost(free));
            if *len > 0 {
                push_number_if(s, first + *len - 1, Ghost(free));
            } else {
                push_number_if(s, first - 1, Ghost(free));
            }
            assert(s@ =~= old(s)@ + symbol_line(*info));
        },
    }
}

fn push_plain_if(s: &mut String, t: &str, Ghost(free): Ghost<bool>)
    requires
        free ==> bf_free(old(s)@),
        bf_free(t@),
    ensures
        free ==> bf_free(final(s)@),
        final(s)@ == old(s)@ + t@,
{
    push_str(s, t);
    proof {
        if free {
            lemma_bf_free_concat(old(s)@, t@);
        }
    }
}

fn push_number_if(s: &mut String, n: usize, Ghost(free): Ghost<bool>)
    requires
        free ==> bf_free(old(s)@),
    ensures
        free ==> bf_free(final(s)@),
        final(s)@ == old(s)@ + decimal_chars(n as nat),
{
    push_decimal(s, n as u64);
    proof {
        lemma_decimal_bf_free(n as nat);
        if free {
            lemma_bf_free_concat(old(s)@, decimal_chars(n as nat));
        }
    }
}

fn push_name(s: &mut String, name: &String, Ghost(free): Ghost<bool>)
    requires
        free ==> bf_free(old(s)@),
        free ==> bf_free(name@),
    ensures
        free ==> bf_free(final(s)@),
        final(s)@ == old(s)@ + name@,
{
    push_str(s, name.as_str());
    proof {
        if free {
            lemma_bf_free_concat(old(s)@, name@);
        }
    }
}

/// What `sanec` was asked to do, with its paths as text.
pub struct SanecOptionsView {
    pub input: Option<Seq<char>>,
    pub output: Option<Seq<char>>,
    pub annotate_symbols: bool,
    pub backend: Backend,
}

pub enum SanecCommandView {
    Help,
    Version,
    Compile(SanecOptionsView),
}

/// The text of each argument.
pub open spec fn arg_texts(args: Seq<String>) -> Seq<Seq<char>> {
    args.map_values(|a: String| a@)
}

pub open spec fn opt_text(s: Option<String>) -> Option<Seq<char>> {
    match s {
        Some(t) => Some(t@),
        None => None,
    }
}

/// `message`, a blank line, then `sanec`'s usage text.
pub open spec fn with_usage_text(message: Seq<char>) -> Seq<char> {
    message + "\n\n"@ + sanec_usage_text()
}

/// Reads `sanec`'s options from argument `i` on, with `acc` the options read before it: `-o`
/// and `-b` take the next argument, `-s` asks for symbol comments, and one argument that does
/// not start with `-` names the source.
pub open spec fn sanec_options(args: Seq<Seq<char>>, i: int, acc: SanecOptionsView) -> Result<
    SanecOptionsView,
    Seq<char>,
>
    decreases args.len() - i,
{
    if i >= args.len() || i < 0 {
        Ok(acc)
    } else {
        let a = args[i];
        if a == "-o"@ {
            if i + 1 >= args.len() {
                Err(with_usage_text("missing output path after `-o`"@))
            } else {
                sanec_options(
                    args,
                    i + 2,
                    SanecOptionsView {
                        input: acc.input,
                        output: Some(args[i + 1]),
                        annotate_symbols: acc.annotate_symbols,
                        backend: acc.backend,
                    },
                )
            }
        } else if a == "-s"@ {
            sanec_options(
                args,
                i + 1,
                SanecOptionsView {
                    input: acc.input,
                    output: acc.output,
                    annotate_symbols: true,
                    backend: acc.backend,
                },
            )
        } else if a == "-b"@ {
            if i + 1 >= args.len() {
                Err(with_usage_text("missing backend after `-b`"@))
            } else {
                match backend_named(args[i + 1]) {
                    Some(b) => sanec_options(
                        args,
                        i + 2,
                        SanecOptionsView {
                            input: acc.input,
                            output: acc.output,
                            annotate_symbols: acc.annotate_symbols,
                            backend: b,
                        },
                    ),
                    None => Err(unknown_backend_msg(args[i + 1])),
                }
            }
        } else if (a.len() > 0 && a[0] == '-') || acc.input is Some {
            Err(with_usage_text("unexpected argument `"@ + a + "`"@))
        } else {
            sanec_options(
                args,
                i + 1,
                SanecOptionsView {
                    input: Some(a),
                    output: acc.output,
                    annotate_symbols: acc.annotate_symbols,
                    backend: acc.backend,
                },
            )
        }
    }
}

/// What `sanec`'s arguments ask for: help or the version when the first argument asks for it,
/// else a compilation with the options read from all of them (no paths, no symbol comments and
/// the automatic backend unless they say otherwise).
pub open spec fn sanec_command(args: Seq<Seq<char>>) -> Result<SanecCommandView, Seq<char>> {
    if args.len() > 0 && (args[0] == "-h"@ || args[0] == "--help"@) {
        Ok(SanecCommandView::Help)
    } else if args.len() > 0 && (args[0] == "-V"@ || args[0] == "--version"@) {
        Ok(SanecCommandView::Version)
    } else {
        match sanec_options(
            args,
            0,
            SanecOptionsView { input: None, output: None, annotate_symbols: false, backend: Backend::Auto },
        ) {
            Ok(o) => Ok(SanecCommandView::Compile(o)),
            Err(e) => Err(e),
        }
    }
}

/// What `sanec` was asked to do.
pub struct SanecOptions {
    /// The source path; standard input when absent.
    pub input: Option<String>,
    /// The output path; standard output when absent.
    pub output: Option<String>,
    pub annotate_symbols: bool,
    pub backend: Backend,
}

pub enum SanecCommand {
    Help,
    Version,
    Compile(SanecOptions),
}

impl View for SanecOptions {
    type V = SanecOptionsView;

    open spec fn view(&self) -> SanecOptionsView {
        SanecOptionsView {
            input: opt_text(self.input),
            output: opt_text(self.output),
            annotate_symbols: self.annotate_symbols,
            backend: self.backend,
        }
    }
}

impl View for SanecCommand {
    type V = SanecCommandView;

    open spec fn view(&self) -> SanecCommandView {
        match self {
            SanecCommand::Help => SanecCommandView::Help,
            SanecCommand::Version => SanecCommandView::Version,
            SanecCommand::Compile(o) => SanecCommandView::Compile(o@),
        }
    }
}

/// The usage text of `sanec`.
pub open spec fn sanec_usage_text() -> Seq<char> {
    "Usage: sanec [source.sn] [-o out.bf] [-s] [-b backend]\n\nOptions:\n  source.sn       Read Sane source from file, or stdin if omitted\n  -o <file>       Write Brainfuck output to <file>\n  -s              Add BF-safe symbol table comments\n  -b <backend>    Select backend: auto, structured, or pc (default: auto)\n  -h, --help      Show this help text\n  -V, --version   Show compiler version\n"@
}

pub fn sanec_usage() -> (u: String)
    ensures
        u@ == sanec_usage_text(),
{
    "Usage: sanec [source.sn] [-o out.bf] [-s] [-b backend]\n\nOptions:\n  source.sn       Read Sane source from file, or stdin if omitted\n  -o <file>       Write Brainfuck output to <file>\n  -s              Add BF-safe symbol table comments\n  -b <backend>    Select backend: auto, structured, or pc (default: auto)\n  -h, --help      Show this help text\n  -V, --version   Show compiler version\n".to_string()
}

fn arg_is(arg: &String, text: &str) -> (b: bool)
    ensures
        b == (arg@ == text@),
{
    let cs = chars_of(arg.as_str());
    same_text(cs.as_slice(), text)
}

fn starts_with_dash(arg: &String) -> (b: bool)
    ensures
        b == (arg@.len() > 0 && arg@[0] == '-'),
{
    let cs = chars_of(arg.as_str());
    cs.len() > 0 && cs[0] == '-'
}

/// `message`, a blank line, then the usage text.
fn with_usage(message: String) -> (r: String)
    ensures
        r@ == with_usage_text(message@),
{
    let mut m = message;
    push_str(&mut m, "\n\n");
    let u = sanec_usage();
    push_str(&mut m, u.as_str());
    m
}

/// Reads `sanec`'s arguments (without the program name).
pub fn parse_sanec_args(args: &Vec<String>) -> (r: Result<SanecCommand, String>)
    ensures
        r matches Ok(c) ==> sanec_command(arg_texts(args@)) == Ok::<SanecCommandView, Seq<char>>(c@),
        r matches Err(e) ==> sanec_command(arg_texts(args@)) == Err::<SanecCommandView, Seq<char>>(e@),
{
    let ghost v = arg_texts(args@);
    if args.len() > 0 && (arg_is(&args[0], "-h") || arg_is(&args[0], "--help")) {
        return Ok(SanecCommand::Help);
    }
    if args.len() > 0 && (arg_is(&args[0], "-V") || arg_is(&args[0], "--version")) {
        return Ok(SanecCommand::Version);
    }
    proof {
        if v.len() > 0 {
            assert(v[0] == args@[0]@);
        }
    }
    let mut input: Option<String> = None;
    let mut output: Option<String> = None;
    let mut annotate_symbols = false;
    let mut backend = Backend::Auto;
    let ghost start = SanecOptionsView {
        input: None,
        output: None,
        annotate_symbols: false,
        backend: Backend::Auto,
    };
    let mut i: usize = 0;
    while i < args.len()
        invariant
            v == arg_texts(args@),
            start == (SanecOptionsView {
                input: None,
                output: None,
                annotate_symbols: false,
                backend: Backend::Auto,
            }),
            i <= args@.len(),
            !(v.len() > 0 && (v[0] == "-h"@ || v[0] == "--help"@ || v[0] == "-V"@ || v[0] == "--version"@)),
            sanec_options(v, 0, start) == sanec_options(
                v,
                i as int,
                SanecOptionsView { input: opt_text(input), output: opt_text(output), annotate_symbols, backend },
            ),
        decreases args@.len() - i,
    {
        let arg = &args[i];
        assert(v[i as int] == arg@);
        i = i + 1;
        if arg_is(arg, "-o") {
            if i >= args.len() {
                return Err(with_usage("missing output path after `-o`".to_string()));
            }
            assert(v[i as int] == args@[i as int]@);
            output = Some(args[i].clone());
            i = i + 1;
        } else if arg_is(arg, "-s") {
            annotate_symbols = true;
        } else if arg_is(arg, "-b") {
            if i >= args.len() {
                return Err(with_usage("missing backend after `-b`".to_string()));
            }
            assert(v[i as int] == args@[i as int]@);
            backend = Backend::parse(args[i].as_str())?;
            i = i + 1;
        } else if starts_with_dash(arg) || input.is_some() {
            let mut m = "unexpected argument `".to_string();
            push_str(&mut m, arg.as_str());
            push_str(&mut m, "`");
            return Err(with_usage(m));
        } else {
            input = Some(arg.clone());
        }
    }
    Ok(SanecCommand::Compile(SanecOptions { input, output, annotate_symbols, backend }))
}

/// What `sanei` was asked to do.
pub enum SaneiCommand {
    Help,
    Version,
    /// Run the program at this path.
    Run(String),
    /// Debug the program at this path.
    Debug(String),
}

/// What `sanei` was asked to do, with its path as text.
pub enum SaneiCommandView {
    Help,
    Version,
    Run(Seq<char>),
    Debug(Seq<char>),
}

impl View for SaneiCommand {
    type V = SaneiCommandView;

    open spec fn view(&self) -> SaneiCommandView {
        match self {
            SaneiCommand::Help => SaneiCommandView::Help,
            SaneiCommand::Version => SaneiCommandView::Version,
            SaneiCommand::Run(p) => SaneiCommandView::Run(p@),
            SaneiCommand::Debug(p) => SaneiCommandView::Debug(p@),
        }
    }
}

/// Reads `sanei`'s arguments from `i` on: `-d` asks for the debugger, and exactly one
/// argument that does not start with `-` names the program; anything else is answered with
/// the usage text.
pub open spec fn sanei_from(args: Seq<Seq<char>>, i: int, debug: bool, path: Option<Seq<char>>) -> Result<
    SaneiCommandView,
    Seq<char>,
>
    decreases args.len() - i,
{
    if i >= args.len() || i < 0 {
        match path {
            None => Err(sanei_usage_text()),
            Some(p) => if debug {
                Ok(SaneiCommandView::Debug(p))
            } else {
                Ok(SaneiCommandView::Run(p))
            },
        }
    } else if args[i] == "-d"@ {
        sanei_from(args, i + 1, true, path)
    } else if (args[i].len() > 0 && args[i][0] == '-') || path is Some {
        Err(sanei_usage_text())
    } else {
        sanei_from(args, i + 1, debug, Some(args[i]))
    }
}

/// What `sanei`'s arguments ask for: help or the version when that is the only argument,
/// else a program to run or debug.
pub open spec fn sanei_command(args: Seq<Seq<char>>) -> Result<SaneiCommandView, Seq<char>> {
    if args.len() == 1 && (args[0] == "-h"@ || args[0] == "--help"@) {
        Ok(SaneiCommandView::Help)
    } else if args.len() == 1 && (args[0] == "-V"@ || args[0] == "--version"@) {
        Ok(SaneiCommandView::Version)
    } else {
        sanei_from(args, 0, false, None)
    }
}

/// The usage text of `sanei`.
pub open spec fn sanei_usage_text() -> Seq<char> {
    "Usage: sanei [-d] <program.bf>\n\nOptions:\n  program.bf      Run Brainfuck program from <program.bf>\n  -d              Run program in interactive debug mode\n  -h, --help      Show this help text\n  -V, --version   Show interpreter version\n\nNotes:\n  Non-Brainfuck characters are ignored\n  Program input is read from stdin\n"@
}

pub fn sanei_usage() -> (u: String)
    ensures
        u@ == sanei_usage_text(),
{
    "Usage: sanei [-d] <program.bf>\n\nOptions:\n  program.bf      Run Brainfuck program from <program.bf>\n  -d              Run program in interactive debug mode\n  -h, --help      Show this help text\n  -V, --version   Show interpreter version\n\nNotes:\n  Non-Brainfuck characters are ignored\n  Program input is read from stdin\n".to_string()
}

/// Reads `sanei`'s arguments (without the program name).
pub fn parse_sanei_args(args: &Vec<String>) -> (r: Result<SaneiCommand, String>)
    ensures
        r matches Ok(c) ==> sanei_command(arg_texts(args@)) == Ok::<SaneiCommandView, Seq<char>>(c@),
        r matches Err(e) ==> sanei_command(arg_texts(args@)) == Err::<SaneiCommandView, Seq<char>>(e@),
{
    let ghost v = arg_texts(args@);
    if args.len() == 1 && (arg_is(&args[0], "-h") || arg_is(&args[0], "--help")) {
        return Ok(SaneiCommand::Help);
    }
    if args.len() == 1 && (arg_is(&args[0], "-V") || arg_is(&args[0], "--version")) {
        return Ok(SaneiCommand::Version);
    }
    proof {
        if v.len() > 0 {
            assert(v[0] == args@[0]@);
        }
    }
    let mut debug = false;
    let mut path: Option<String> = None;
    let mut i: usize = 0;
    while i < args.len()
        invariant
            v == arg_texts(args@),
            i <= args@.len(),
            !(v.len() == 1 && (v[0] == "-h"@ || v[0] == "--help"@ || v[0] == "-V"@ || v[0] == "--version"@)),
            sanei_from(v, 0, false, None) == sanei_from(v, i as int, debug, opt_text(path)),
        decreases args@.len() - i,
    {
        let arg = &args[i];
        assert(v[i as int] == arg@);
        if arg_is(arg, "-d") {
            debug = true;
        } else if starts_with_dash(arg) || path.is_some() {
            return Err(sanei_usage());
        } else {
            path = Some(arg.clone());
        }
        i = i + 1;
    }
    match path {
        None => Err(sanei_usage()),
        Some(p) => {
            if debug {
                Ok(SaneiCommand::Debug(p))
            } else {
                Ok(SaneiCommand::Run(p))
            }
        },
    }
}

} // verus!
