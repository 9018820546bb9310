use vstd::prelude::*;
use crate::interpreter::{balanced, bf_chars, TAPE_SIZE};
use crate::bf::{depth, is_bf_char};
use crate::text::{
    push_char, string_from_bytes, chars_of, parsed_unsigned, parse_unsigned, push_decimal, push_str, same_text,
    split_whitespace, string_of, trim, word_views, words_of, lemma_words_trimmed, lemma_words_nonempty, is_space,
    decimal_chars, digit_char, trimmed,
};
use vstd::utf8::encode_utf8;

verus! {

/// A raw Brainfuck instruction.
#[derive(Debug, Clone, Copy, PartialEq, Eq, Structural)]
pub enum Inst {
    Add,
    Sub,
    Left,
    Right,
    Input,
    Output,
    LoopStart,
    LoopEnd,
}

pub open spec fn inst_of(c: char) -> Option<Inst> {
    if c == '+' {
        Some(Inst::Add)
    } else if c == '-' {
        Some(Inst::Sub)
    } else if c == '<' {
        Some(Inst::Left)
    } else if c == '>' {
        Some(Inst::Right)
    } else if c == ',' {
        Some(Inst::Input)
    } else if c == '.' {
        Some(Inst::Output)
    } else if c == '[' {
        Some(Inst::LoopStart)
    } else if c == ']' {
        Some(Inst::LoopEnd)
    } else {
        None
    }
}

pub open spec fn char_of(i: Inst) -> char {
    match i {
        Inst::Add => '+',
        Inst::Sub => '-',
        Inst::Left => '<',
        Inst::Right => '>',
        Inst::Input => ',',
        Inst::Output => '.',
        Inst::LoopStart => '[',
        Inst::LoopEnd => ']',
    }
}

impl Inst {
    pub fn from_char(ch: char) -> (r: Option<Self>)
        ensures
            r == inst_of(ch),
    {
        if ch == '+' {
            Some(Inst::Add)
        } else if ch == '-' {
            Some(Inst::Sub)
        } else if ch == '<' {
            Some(Inst::Left)
        } else if ch == '>' {
            Some(Inst::Right)
        } else if ch == ',' {
            Some(Inst::Input)
        } else if ch == '.' {
            Some(Inst::Output)
        } else if ch == '[' {
            Some(Inst::LoopStart)
        } else if ch == ']' {
            Some(Inst::LoopEnd)
        } else {
            None
        }
    }

    pub fn as_char(self) -> (c: char)
        ensures
            c == char_of(self),
    {
        match self {
            Inst::Add => '+',
            Inst::Sub => '-',
            Inst::Left => '<',
            Inst::Right => '>',
            Inst::Input => ',',
            Inst::Output => '.',
            Inst::LoopStart => '[',
            Inst::LoopEnd => ']',
        }
    }
}

/// A named tape location that the compiler listed in its symbol annotation.
#[derive(Debug, Clone, PartialEq, Eq)]
pub enum DebugSymbol {
    Cell { name: String, cell: usize },
    Array { name: String, base: usize, len: usize, first: usize, last: usize },
}

/// A run of cells.
#[derive(Debug, Clone, Copy, PartialEq, Eq)]
struct Address {
    start: usize,
    len: usize,
}

/// The name of a symbol.
pub open spec fn symbol_name(s: DebugSymbol) -> String {
    match s {
        DebugSymbol::Cell { name, .. } => name,
        DebugSymbol::Array { name, .. } => name,
    }
}

/// The first symbol with this name.
spec fn first_symbol(symbols: Seq<DebugSymbol>, name: Seq<char>) -> Option<int>
    decreases symbols.len(),
{
    if symbols.len() == 0 {
        None
    } else {
        match first_symbol(symbols.drop_last(), name) {
            Some(i) => Some(i),
            None => if symbol_name(symbols.last())@ == name {
                Some(symbols.len() - 1)
            } else {
                None
            },
        }
    }
}

/// The cells of a symbol: a scalar's cell, or an array's data cells.
spec fn symbol_address(s: DebugSymbol) -> Address {
    match s {
        DebugSymbol::Cell { cell, .. } => Address { start: cell, len: 1 },
        DebugSymbol::Array { len, first, .. } => Address { start: first, len },
    }
}

/// A line of output: the text's UTF-8 bytes and a newline.
spec fn line_bytes(t: Seq<char>) -> Seq<u8> {
    encode_utf8(t) + seq![10u8]
}

/// How `symbol` and `symbols` show a symbol.
spec fn symbol_text(s: DebugSymbol) -> Seq<char> {
    match s {
        DebugSymbol::Cell { name, cell } => name@ + " cell "@ + decimal_chars(cell as nat),
        DebugSymbol::Array { name, base, len, first, last } => name@ + " array base "@
            + decimal_chars(base as nat) + " len "@ + decimal_chars(len as nat) + " data "@
            + decimal_chars(first as nat) + " to "@ + decimal_chars(last as nat),
    }
}

/// One line per symbol, in order.
spec fn symbol_lines(ss: Seq<DebugSymbol>) -> Seq<u8>
    decreases ss.len(),
{
    if ss.len() == 0 {
        Seq::empty()
    } else {
        symbol_lines(ss.drop_last()) + line_bytes(symbol_text(ss.last()))
    }
}

/// One line per breakpoint, in order.
spec fn breakpoint_lines(bs: Seq<usize>) -> Seq<u8>
    decreases bs.len(),
{
    if bs.len() == 0 {
        Seq::empty()
    } else {
        breakpoint_lines(bs.drop_last()) + line_bytes("breakpoint pc="@ + decimal_chars(bs.last() as nat))
    }
}

/// One line per watchpoint, in order.
spec fn watchpoint_lines(ws: Seq<(usize, u8)>) -> Seq<u8>
    decreases ws.len(),
{
    if ws.len() == 0 {
        Seq::empty()
    } else {
        watchpoint_lines(ws.drop_last()) + line_bytes(
            "watchpoint cell="@ + decimal_chars(ws.last().0 as nat) + " value="@ + decimal_chars(
                ws.last().1 as nat,
            ),
        )
    }
}

impl DebugSymbol {
    fn name(&self) -> (r: &String)
        ensures
            *r == symbol_name(*self),
    {
        match self {
            DebugSymbol::Cell { name, .. } => name,
            DebugSymbol::Array { name, .. } => name,
        }
    }

    /// A scalar's cell, or an array's data cells.
    fn address(&self) -> (a: Address)
        ensures
            a == symbol_address(*self),
    {
        match self {
            DebugSymbol::Cell { cell, .. } => Address { start: *cell, len: 1 },
            DebugSymbol::Array { len, first, .. } => Address { start: *first, len: *len },
        }
    }
}

/// A Brainfuck program for the debugger: its raw instructions, the matching bracket of every
/// bracket, and the symbols of its annotation.
#[derive(Debug, Clone, PartialEq, Eq)]
pub struct DebugProgram {
    insts: Vec<Inst>,
    jumps: Vec<Option<usize>>,
    symbols: Vec<DebugSymbol>,
}

pub open spec fn insts_of(f: Seq<char>) -> Seq<Inst> {
    f.map_values(|c: char| inst_of(c)->0)
}

spec fn jumps_in_range(jumps: Seq<Option<usize>>, n: nat) -> bool {
    forall|i: int| 0 <= i < jumps.len() ==> (#[trigger] jumps[i] matches Some(t) ==> t < n)
}

impl DebugProgram {
    pub closed spec fn wf(&self) -> bool {
        &&& self.insts@.len() == self.jumps@.len()
        &&& jumps_in_range(self.jumps@, self.insts@.len())
        &&& jumps_match(self.insts@, self.jumps@)
    }

    /// The raw instructions, in order.
    pub closed spec fn inst_seq(&self) -> Seq<Inst> {
        self.insts@
    }

    /// For each instruction, the index of its matching bracket (none for other instructions).
    pub closed spec fn jump_seq(&self) -> Seq<Option<usize>> {
        self.jumps@
    }

    /// Reads the symbol annotation and the instructions of a Brainfuck text; fails exactly
    /// when the brackets do not match.
    pub fn parse(src: &str) -> (r: Result<Self, String>)
        ensures
            r is Ok <==> balanced(bf_chars(src@)),
            r matches Ok(p) ==> p.wf() && p.inst_seq() == insts_of(bf_chars(src@))
                && jumps_match(p.inst_seq(), p.jump_seq()),
            forall|i: int| first_stray_close(insts_of(bf_chars(src@)), i) ==> (r matches Err(e) && e@
                == stray_close_msg(i as nat)),
            r matches Err(e) ==> (exists|i: int| first_stray_close(insts_of(bf_chars(src@)), i) && e@
                == stray_close_msg(i as nat)) || (exists|p: int| last_unclosed(insts_of(bf_chars(src@)), p)
                && e@ == unclosed_open_msg(p as nat)),
    {
        let chars = chars_of(src);
        let symbols = parse_symbols(&chars);
        let insts = filter_insts(&chars);
        let ghost f = bf_chars(src@);
        proof {
            lemma_bf_chars_all_bf(src@);
            assert forall|k: int| 0 <= k <= f.len() implies insts_depth(#[trigger] insts@.take(k))
                == depth(f.take(k)) by {
                lemma_insts_depth(f, k);
            }
            assert(insts@.take(insts@.len() as int) =~= insts@);
            assert(f.take(f.len() as int) =~= f);
            assert(insts@.len() == f.len());
            let p = (forall|k: int| 0 <= k <= insts@.len() ==> insts_depth(#[trigger] insts@.take(k)) >= 0)
                && insts_depth(insts@) == 0;
            if balanced(f) {
                assert forall|k: int| 0 <= k <= insts@.len() implies insts_depth(#[trigger] insts@.take(k)) >= 0 by {
                    assert(depth(f.take(k)) >= 0);
                }
            }
            if p {
                assert forall|k: int| 0 <= k <= f.len() implies #[trigger] depth(f.take(k)) >= 0 by {
                    assert(insts_depth(insts@.take(k)) >= 0);
                }
            }
            assert(p <==> balanced(f));
        }
        let jumps = build_jumps(&insts)?;
        Ok(Self { insts, jumps, symbols })
    }
}

fn filter_insts(chars: &Vec<char>) -> (insts: Vec<Inst>)
    ensures
        insts@ == insts_of(bf_chars(chars@)),
        forall|i: int| 0 <= i < insts@.len() ==> insts@[i] == inst_of(bf_chars(chars@)[i])->0,
{
    let mut insts: Vec<Inst> = Vec::new();
    let mut i: usize = 0;
    while i < chars.len()
        invariant
            i <= chars@.len(),
            insts@ == insts_of(bf_chars(chars@.take(i as int))),
        decreases chars@.len() - i,
    {
        let c = chars[i];
        proof {
            assert(chars@.take(i + 1).drop_last() =~= chars@.take(i as int));
        }
        match Inst::from_char(c) {
            Some(inst) => {
                proof {
                    assert(insts_of(bf_chars(chars@.take(i as int)).push(c)) =~= insts_of(
                        bf_chars(chars@.take(i as int)),
                    ).push(inst));
                }
                insts.push(inst);
            },
            None => {},
        }
        i = i + 1;
    }
    proof {
        assert(chars@.take(chars@.len() as int) =~= chars@);
    }
    insts
}

pub open spec fn insts_depth(s: Seq<Inst>) -> int
    decreases s.len(),
{
    if s.len() == 0 {
        0
    } else {
        insts_depth(s.drop_last()) + (if s.last() == Inst::LoopStart {
            1int
        } else if s.last() == Inst::LoopEnd {
            -1int
        } else {
            0int
        })
    }
}

proof fn lemma_insts_depth(f: Seq<char>, k: int)
    requires
        forall|i: int| 0 <= i < f.len() ==> is_bf_char(#[trigger] f[i]),
        0 <= k <= f.len(),
    ensures
        insts_depth(insts_of(f).take(k)) == depth(f.take(k)),
    decreases k,
{
    if k > 0 {
        lemma_insts_depth(f, k - 1);
        assert(insts_of(f).take(k).drop_last() =~= insts_of(f).take(k - 1));
        assert(f.take(k).drop_last() =~= f.take(k - 1));
    }
}

proof fn lemma_bf_chars_all_bf(s: Seq<char>)
    ensures
        forall|i: int| 0 <= i < bf_chars(s).len() ==> is_bf_char(#[trigger] bf_chars(s)[i]),
    decreases s.len(),
{
    if s.len() > 0 {
        lemma_bf_chars_all_bf(s.drop_last());
        let p = bf_chars(s.drop_last());
        if is_bf_char(s.last()) {
            assert forall|i: int| 0 <= i < bf_chars(s).len() implies is_bf_char(#[trigger] bf_chars(s)[i]) by {
                if i < p.len() {
                    assert(bf_chars(s)[i] == p[i]);
                }
            }
        }
    }
}

/// Net bracket depth of the instructions `a..b`.
pub open spec fn span_depth(f: Seq<Inst>, a: int, b: int) -> int {
    insts_depth(f.subrange(a, b))
}

pub open spec fn inst_delta(x: Inst) -> int {
    if x == Inst::LoopStart {
        1
    } else if x == Inst::LoopEnd {
        -1
    } else {
        0
    }
}

/// The `[` at `i` and the `]` at `j` match: the stretch between them is balanced and never
/// closes the `[` early.
pub open spec fn brackets_match(f: Seq<Inst>, i: int, j: int) -> bool {
    &&& 0 <= i < j < f.len()
    &&& f[i] == Inst::LoopStart
    &&& f[j] == Inst::LoopEnd
    &&& span_depth(f, i, j + 1) == 0
    &&& forall|k: int| i < k <= j ==> #[trigger] span_depth(f, i, k) >= 1
}

/// Instruction `i` is the first `]` that closes no `[`.
pub open spec fn first_stray_close(f: Seq<Inst>, i: int) -> bool {
    &&& 0 <= i < f.len()
    &&& forall|k: int| 0 <= k <= i ==> insts_depth(#[trigger] f.take(k)) >= 0
    &&& insts_depth(f.take(i + 1)) < 0
}

/// The `[` at `p` is never closed.
pub open spec fn unclosed(f: Seq<Inst>, p: int) -> bool {
    &&& 0 <= p < f.len()
    &&& f[p] == Inst::LoopStart
    &&& forall|k: int| p < k <= f.len() ==> #[trigger] span_depth(f, p, k) >= 1
}

/// The `[` at `p` is the last one that is never closed.
pub open spec fn last_unclosed(f: Seq<Inst>, p: int) -> bool {
    &&& unclosed(f, p)
    &&& forall|q: int| p < q < f.len() ==> !#[trigger] unclosed(f, q)
}

pub open spec fn stray_close_msg(i: nat) -> Seq<char> {
    "unmatched `]` at instruction "@ + decimal_chars(i)
}

pub open spec fn unclosed_open_msg(p: nat) -> Seq<char> {
    "unmatched `[` at instruction "@ + decimal_chars(p)
}

/// Every bracket jumps to the bracket it matches, and no other instruction jumps.
pub open spec fn jumps_match(f: Seq<Inst>, jumps: Seq<Option<usize>>) -> bool {
    &&& jumps.len() == f.len()
    &&& forall|p: int|
        0 <= p < f.len() ==> match #[trigger] jumps[p] {
            Some(q) => brackets_match(f, p, q as int) || brackets_match(f, q as int, p),
            None => f[p] != Inst::LoopStart && f[p] != Inst::LoopEnd,
        }
}

proof fn lemma_span_step(f: Seq<Inst>, a: int, b: int)
    requires
        0 <= a <= b < f.len(),
    ensures
        span_depth(f, a, b + 1) == span_depth(f, a, b) + inst_delta(f[b]),
{
    assert(f.subrange(a, b + 1).drop_last() =~= f.subrange(a, b));
}

proof fn lemma_span_empty(f: Seq<Inst>, a: int)
    requires
        0 <= a <= f.len(),
    ensures
        span_depth(f, a, a) == 0,
{
    assert(f.subrange(a, a) =~= Seq::<Inst>::empty());
}

/// Pairs every `[` with its `]`.
fn build_jumps(insts: &Vec<Inst>) -> (r: Result<Vec<Option<usize>>, String>)
    ensures
        r matches Ok(j) ==> j@.len() == insts@.len() && jumps_in_range(j@, insts@.len())
            && jumps_match(insts@, j@),
        (forall|k: int| 0 <= k <= insts@.len() ==> insts_depth(#[trigger] insts@.take(k)) >= 0)
            && insts_depth(insts@) == 0 <==> r is Ok,
        forall|i: int| first_stray_close(insts@, i) ==> (r matches Err(e) && e@ == stray_close_msg(i as nat)),
        r matches Err(e) ==> (exists|i: int| first_stray_close(insts@, i) && e@ == stray_close_msg(i as nat))
            || (exists|p: int| last_unclosed(insts@, p) && e@ == unclosed_open_msg(p as nat)),
{
    proof {
        broadcast use vstd::string::to_string_from_display_ensures_for_str;
    }
    let ghost f = insts@;
    let mut jumps: Vec<Option<usize>> = Vec::new();
    let mut k: usize = 0;
    while k < insts.len()
        invariant
            k <= insts@.len(),
            jumps@.len() == k,
            forall|i: int| 0 <= i < k ==> jumps@[i] is None,
        decreases insts@.len() - k,
    {
        jumps.push(None);
        k = k + 1;
    }
    let mut stack: Vec<usize> = Vec::new();
    let mut pc: usize = 0;
    while pc < insts.len()
        invariant
            f == insts@,
            pc <= insts@.len(),
            jumps@.len() == insts@.len(),
            jumps_in_range(jumps@, insts@.len()),
            forall|i: int| 0 <= i < stack@.len() ==> stack@[i] < pc,
            forall|i: int, j: int| 0 <= i < j < stack@.len() ==> stack@[i] < stack@[j],
            forall|i: int| 0 <= i < stack@.len() ==> f[#[trigger] stack@[i] as int] == Inst::LoopStart,
            forall|i: int|
                0 <= i < stack@.len() ==> span_depth(f, #[trigger] stack@[i] as int, pc as int)
                    == stack@.len() - i,
            forall|i: int, k: int|
                0 <= i < stack@.len() && stack@[i] < k <= pc ==> #[trigger] span_depth(
                    f,
                    stack@[i] as int,
                    k,
                ) >= 1,
            forall|p: int|
                0 <= p < pc ==> match #[trigger] jumps@[p] {
                    Some(q) => brackets_match(f, p, q as int) || brackets_match(f, q as int, p),
                    None => (f[p] != Inst::LoopStart && f[p] != Inst::LoopEnd) || exists|i: int|
                        0 <= i < stack@.len() && stack@[i] == p,
                },
            forall|p: int| pc <= p < jumps@.len() ==> #[trigger] jumps@[p] is None,
            stack@.len() == insts_depth(insts@.take(pc as int)),
            forall|k: int| 0 <= k <= pc ==> insts_depth(#[trigger] insts@.take(k)) >= 0,
        decreases insts@.len() - pc,
    {
        proof {
            assert(insts@.take(pc + 1).drop_last() =~= insts@.take(pc as int));
            assert forall|i: int| 0 <= i < stack@.len() implies span_depth(f, #[trigger] stack@[i] as int, pc + 1)
                == span_depth(f, stack@[i] as int, pc as int) + inst_delta(f[pc as int]) by {
                lemma_span_step(f, stack@[i] as int, pc as int);
            }
        }
        let ghost old_stack = stack@;
        let ghost old_jumps = jumps@;
        match insts[pc] {
            Inst::LoopStart => {
                stack.push(pc);
                proof {
                    lemma_span_empty(f, pc as int);
                    lemma_span_step(f, pc as int, pc as int);
                    assert forall|i: int| 0 <= i < stack@.len() implies span_depth(f, #[trigger] stack@[i] as int, pc + 1)
                        == stack@.len() - i by {
                        if i < old_stack.len() {
                            assert(stack@[i] == old_stack[i]);
                        }
                    }
                    assert forall|i: int, k: int|
                        0 <= i < stack@.len() && stack@[i] < k <= pc + 1 implies #[trigger] span_depth(
                        f,
                        stack@[i] as int,
                        k,
                    ) >= 1 by {
                        if i < old_stack.len() {
                            assert(stack@[i] == old_stack[i]);
                        }
                    }
                    assert forall|p: int| 0 <= p < pc + 1 implies match #[trigger] jumps@[p] {
                        Some(q) => brackets_match(f, p, q as int) || brackets_match(f, q as int, p),
                        None => (f[p] != Inst::LoopStart && f[p] != Inst::LoopEnd) || exists|i: int|
                            0 <= i < stack@.len() && stack@[i] == p,
                    } by {
                        if p < pc {
                            if jumps@[p] is None && !(f[p] != Inst::LoopStart && f[p] != Inst::LoopEnd) {
                                let i = choose|i: int| 0 <= i < old_stack.len() && old_stack[i] == p;
                                assert(stack@[i] == p);
                            }
                        } else {
                            assert(stack@[old_stack.len() as int] == p);
                        }
                    }
                }
            },
            Inst::LoopEnd => {
                if stack.len() == 0 {
                    let mut msg = "unmatched `]` at instruction ".to_string();
                    push_decimal(&mut msg, pc as u64);
                    proof {
                        assert(insts_depth(insts@.take(pc + 1)) < 0);
                        assert(first_stray_close(insts@, pc as int));
                        assert forall|i: int| first_stray_close(insts@, i) implies i == pc by {
                            if i < pc {
                                assert(insts_depth(insts@.take(i + 1)) >= 0);
                            }
                            if i > pc {
                                assert(insts_depth(insts@.take(pc + 1)) >= 0);
                            }
                        }
                    }
                    return Err(msg);
                }
                let start = stack.pop().unwrap();
                proof {
                    let m = old_stack.len() as int;
                    assert(start == old_stack[m - 1]);
                    assert(span_depth(f, start as int, pc as int) == 1);
                    lemma_span_step(f, start as int, pc as int);
                    assert(brackets_match(f, start as int, pc as int));
                }
                jumps.set(start, Some(pc));
                jumps.set(pc, Some(start));
                proof {
                    let m = old_stack.len() as int;
                    assert forall|i: int| 0 <= i < stack@.len() implies span_depth(f, #[trigger] stack@[i] as int, pc + 1)
                        == stack@.len() - i by {
                        assert(stack@[i] == old_stack[i]);
                    }
                    assert forall|i: int, k: int|
                        0 <= i < stack@.len() && stack@[i] < k <= pc + 1 implies #[trigger] span_depth(
                        f,
                        stack@[i] as int,
                        k,
                    ) >= 1 by {
                        assert(stack@[i] == old_stack[i]);
                    }
                    assert forall|p: int| 0 <= p < pc + 1 implies match #[trigger] jumps@[p] {
                        Some(q) => brackets_match(f, p, q as int) || brackets_match(f, q as int, p),
                        None => (f[p] != Inst::LoopStart && f[p] != Inst::LoopEnd) || exists|i: int|
                            0 <= i < stack@.len() && stack@[i] == p,
                    } by {
                        if p == pc || p == start {
                        } else {
                            assert(jumps@[p] == old_jumps[p]);
                            if jumps@[p] is None && !(f[p] != Inst::LoopStart && f[p] != Inst::LoopEnd) {
                                let i = choose|i: int| 0 <= i < old_stack.len() && old_stack[i] == p;
                                assert(i != m - 1);
                                assert(stack@[i] == p);
                            }
                        }
                    }
                    assert forall|p: int| pc + 1 <= p < jumps@.len() implies #[trigger] jumps@[p] is None by {
                        assert(jumps@[p] == old_jumps[p]);
                    }
                }
            },
            _ => {
                proof {
                    assert forall|p: int| 0 <= p < pc + 1 implies match #[trigger] jumps@[p] {
                        Some(q) => brackets_match(f, p, q as int) || brackets_match(f, q as int, p),
                        None => (f[p] != Inst::LoopStart && f[p] != Inst::LoopEnd) || exists|i: int|
                            0 <= i < stack@.len() && stack@[i] == p,
                    } by {
                    }
                }
            },
        }
        pc = pc + 1;
    }
    proof {
        assert(insts@.take(insts@.len() as int) =~= insts@);
    }
    proof {
        assert forall|i: int| !first_stray_close(insts@, i) by {
            if first_stray_close(insts@, i) {
                assert(insts_depth(insts@.take(i + 1)) >= 0);
            }
        }
    }
    if stack.len() > 0 {
        let ghost st = stack@;
        let top = stack.pop().unwrap();
        proof {
            let m = st.len() - 1;
            assert(st[m] == top);
            assert(unclosed(f, top as int));
            assert forall|q: int| top < q < f.len() implies !#[trigger] unclosed(f, q) by {
                if unclosed(f, q) {
                    match jumps@[q] {
                        Some(j) => {
                            if brackets_match(f, q, j as int) {
                                assert(span_depth(f, q, j + 1) == 0);
                            }
                        },
                        None => {
                            let i = choose|i: int| 0 <= i < st.len() && st[i] == q;
                            assert(st[i] <= st[m]);
                        },
                    }
                }
            }
        }
        let mut msg = "unmatched `[` at instruction ".to_string();
        push_decimal(&mut msg, top as u64);
        proof {
            assert(last_unclosed(insts@, top as int));
            assert(msg@ == unclosed_open_msg(top as nat));
        }
        return Err(msg);
    }
    Ok(jumps)
}

/// Whether a trimmed annotation line spells the given text.
fn line_is(line: &Vec<char>, text: &str) -> (b: bool)
    ensures
        b == (line@ == text@),
{
    same_text(line.as_slice(), text)
}

fn word_is(words: &Vec<Vec<char>>, i: usize, text: &str) -> (b: bool)
    requires
        i < words@.len(),
    ensures
        b == (words@[i as int]@ == text@),
{
    same_text(words[i].as_slice(), text)
}

fn parse_number(word: &Vec<char>) -> (r: Option<usize>)
    ensures
        r matches Some(v) ==> parsed_unsigned(word@, usize::MAX as nat) == Some(v as nat),
        r is None ==> parsed_unsigned(word@, usize::MAX as nat) is None,
{
    parse_unsigned(word.as_slice(), usize::MAX)
}

/// Where the line that starts at `i` ends: the next newline, or the end of the text.
spec fn line_end_from(s: Seq<char>, i: int) -> int
    decreases s.len() - i,
{
    if 0 <= i < s.len() && s[i] != '\n' {
        line_end_from(s, i + 1)
    } else {
        i
    }
}

proof fn lemma_line_end(s: Seq<char>, i: int)
    requires
        0 <= i <= s.len(),
    ensures
        i <= line_end_from(s, i) <= s.len(),
        line_end_from(s, i) < s.len() ==> s[line_end_from(s, i)] == '\n',
        forall|k: int| i <= k < line_end_from(s, i) ==> s[k] != '\n',
    decreases s.len() - i,
{
    if i < s.len() && s[i] != '\n' {
        lemma_line_end(s, i + 1);
    }
}

/// The lines of `s` from offset `i` on, without their newlines (no empty line after a final
/// newline).
spec fn lines_from(s: Seq<char>, i: int) -> Seq<Seq<char>>
    decreases s.len() - i,
{
    if i < 0 || i >= s.len() {
        Seq::empty()
    } else {
        let e = line_end_from(s, i);
        proof {
            lemma_line_end(s, i);
        }
        seq![s.subrange(i, e)] + lines_from(s, if e < s.len() { e + 1 } else { e })
    }
}

/// A symbol line's words: `name CELL n`, or `name ARRAY BASE b LEN n DATA CELLS f TO l`, with
/// every number reading as one.
spec fn is_symbol_line(w: Seq<Seq<char>>) -> bool {
    ||| w.len() == 3 && w[1] == "CELL"@ && parsed_unsigned(w[2], usize::MAX as nat) is Some
    ||| w.len() == 11 && w[1] == "ARRAY"@ && w[2] == "BASE"@ && w[4] == "LEN"@ && w[6] == "DATA"@
        && w[7] == "CELLS"@ && w[9] == "TO"@ && parsed_unsigned(w[3], usize::MAX as nat) is Some
        && parsed_unsigned(w[5], usize::MAX as nat) is Some && parsed_unsigned(w[8], usize::MAX as nat)
        is Some && parsed_unsigned(w[10], usize::MAX as nat) is Some
}

/// `sym` is the symbol the words of a symbol line describe.
spec fn symbol_of_words(sym: DebugSymbol, w: Seq<Seq<char>>) -> bool {
    match sym {
        DebugSymbol::Cell { name, cell } => w.len() == 3 && name@ == w[0] && parsed_unsigned(
            w[2],
            usize::MAX as nat,
        ) == Some(cell as nat),
        DebugSymbol::Array { name, base, len, first, last } => w.len() == 11 && name@ == w[0]
            && parsed_unsigned(w[3], usize::MAX as nat) == Some(base as nat) && parsed_unsigned(
            w[5],
            usize::MAX as nat,
        ) == Some(len as nat) && parsed_unsigned(w[8], usize::MAX as nat) == Some(first as nat)
            && parsed_unsigned(w[10], usize::MAX as nat) == Some(last as nat),
    }
}

/// The words of the symbol lines among `lines`, read after a line `SANE SYMBOLS` (once
/// `in_symbols`) and up to a line `END SANE SYMBOLS`, lines compared without their outer
/// white space; other lines are skipped.
spec fn symbol_word_lists(lines: Seq<Seq<char>>, in_symbols: bool) -> Seq<Seq<Seq<char>>>
    decreases lines.len(),
{
    if lines.len() == 0 {
        Seq::empty()
    } else {
        let line = trimmed(lines[0]);
        let rest = lines.drop_first();
        if line == "SANE SYMBOLS"@ {
            symbol_word_lists(rest, true)
        } else if line == "END SANE SYMBOLS"@ {
            Seq::empty()
        } else if in_symbols && is_symbol_line(words_of(line)) {
            seq![words_of(line)] + symbol_word_lists(rest, in_symbols)
        } else {
            symbol_word_lists(rest, in_symbols)
        }
    }
}

/// The symbols listed between the lines `SANE SYMBOLS` and `END SANE SYMBOLS`: lines
/// `name CELL n` and `name ARRAY BASE b LEN n DATA CELLS first TO last`; other lines, and lines
/// whose numbers do not read, are skipped.
fn parse_symbols(src: &Vec<char>) -> (symbols: Vec<DebugSymbol>)
    ensures
        ({
            let ws = symbol_word_lists(lines_from(src@, 0), false);
            &&& symbols@.len() == ws.len()
            &&& forall|k: int| 0 <= k < ws.len() ==> symbol_of_words(#[trigger] symbols@[k], ws[k])
        }),
{
    let ghost all = symbol_word_lists(lines_from(src@, 0), false);
    let ghost mut done: Seq<Seq<Seq<char>>> = Seq::empty();
    let mut symbols: Vec<DebugSymbol> = Vec::new();
    let mut in_symbols = false;
    let mut start: usize = 0;
    while start < src.len()
        invariant_except_break
            all == done + symbol_word_lists(lines_from(src@, start as int), in_symbols),
        invariant
            start <= src@.len(),
            all == symbol_word_lists(lines_from(src@, 0), false),
            symbols@.len() == done.len(),
            forall|k: int| 0 <= k < done.len() ==> symbol_of_words(#[trigger] symbols@[k], done[k]),
        ensures
            all == done,
            symbols@.len() == done.len(),
            forall|k: int| 0 <= k < done.len() ==> symbol_of_words(#[trigger] symbols@[k], done[k]),
        decreases src@.len() - start,
    {
        let mut end = start;
        while end < src.len() && src[end] != '\n'
            invariant
                start <= end <= src@.len(),
                line_end_from(src@, start as int) == line_end_from(src@, end as int),
            decreases src@.len() - end,
        {
            end = end + 1;
        }
        let mut raw: Vec<char> = Vec::new();
        let mut k = start;
        while k < end
            invariant
                start <= k <= end,
                end <= src@.len(),
                raw@ == src@.subrange(start as int, k as int),
            decreases end - k,
        {
            raw.push(src[k]);
            k = k + 1;
        }
        let line = trim(raw.as_slice());
        let ghost old_start = start as int;
        start = if end < src.len() { end + 1 } else { end };
        proof {
            assert(lines_from(src@, old_start) == seq![raw@] + lines_from(src@, start as int));
            assert((seq![raw@] + lines_from(src@, start as int)).drop_first() =~= lines_from(src@, start as int));
        }
        if line_is(&line, "SANE SYMBOLS") {
            in_symbols = true;
            continue;
        }
        if line_is(&line, "END SANE SYMBOLS") {
            proof {
                assert(symbol_word_lists(lines_from(src@, old_start), in_symbols) =~= Seq::<Seq<Seq<char>>>::empty());
                assert(done + Seq::<Seq<Seq<char>>>::empty() =~= done);
            }
            break;
        }
        if !in_symbols {
            continue;
        }
        let words = split_whitespace(line.as_slice());
        let ghost w = words_of(line@);
        proof {
            assert(w.len() == words@.len());
            assert forall|x: int| 0 <= x < words@.len() implies (#[trigger] words@[x])@ == w[x] by {
                assert(word_views(words@)[x] == words@[x]@);
            }
        }
        let mut found: Option<DebugSymbol> = None;
        if words.len() == 3 && word_is(&words, 1, "CELL") {
            if let Some(cell) = parse_number(&words[2]) {
                found = Some(DebugSymbol::Cell { name: string_of(words[0].as_slice()), cell });
            }
        } else if words.len() == 11 && word_is(&words, 1, "ARRAY") && word_is(&words, 2, "BASE")
            && word_is(&words, 4, "LEN") && word_is(&words, 6, "DATA") && word_is(&words, 7, "CELLS")
            && word_is(&words, 9, "TO") {
            let base = parse_number(&words[3]);
            let len = parse_number(&words[5]);
            let first = parse_number(&words[8]);
            let last = parse_number(&words[10]);
            if let (Some(base), Some(len), Some(first), Some(last)) = (base, len, first, last) {
                found = Some(
                    DebugSymbol::Array { name: string_of(words[0].as_slice()), base, len, first, last },
                );
            }
        }
        proof {
            assert(found is Some <==> is_symbol_line(w));
        }
        if let Some(sym) = found {
            let ghost before = symbols@;
            symbols.push(sym);
            proof {
                assert(seq![w] + symbol_word_lists(lines_from(src@, start as int), in_symbols)
                    =~= seq![w].add(symbol_word_lists(lines_from(src@, start as int), in_symbols)));
                assert(done.push(w) + symbol_word_lists(lines_from(src@, start as int), in_symbols)
                    =~= done + (seq![w] + symbol_word_lists(lines_from(src@, start as int), in_symbols)));
                done = done.push(w);
                assert(symbols@[symbols@.len() - 1] == sym);
                assert forall|x: int| 0 <= x < done.len() implies symbol_of_words(#[trigger] symbols@[x], done[x]) by {
                    if x < done.len() - 1 {
                        assert(symbols@[x] == before[x]);
                    }
                }
            }
        }
    }
    symbols
}

/// Moves a data pointer by one cell, or the error for leaving the tape.
fn checked_step(ptr: usize, right: bool) -> (r: Result<usize, String>)
    requires
        ptr < TAPE_SIZE,
    ensures
        right && ptr + 1 < TAPE_SIZE ==> r == Ok::<usize, String>((ptr + 1) as usize),
        !right && ptr > 0 ==> r == Ok::<usize, String>((ptr - 1) as usize),
        r is Err <==> (right && ptr + 1 >= TAPE_SIZE) || (!right && ptr == 0),
        r matches Err(e) ==> e@ == (if right {
            "data pointer moved past cell 29999"@
        } else {
            "data pointer moved before cell 0"@
        }),
{
    proof {
        broadcast use vstd::string::to_string_from_display_ensures_for_str;
    }
    if right {
        if ptr + 1 >= TAPE_SIZE {
            Err("data pointer moved past cell 29999".to_string())
        } else {
            Ok(ptr + 1)
        }
    } else if ptr == 0 {
        Err("data pointer moved before cell 0".to_string())
    } else {
        Ok(ptr - 1)
    }
}

/// The debugger's machine: a program, a tape of `TAPE_SIZE` wrapping cells, the data pointer,
/// the next instruction, and the breakpoints and watched cells (with their last seen values).
#[derive(Debug, Clone)]
pub struct DebugVm {
    program: DebugProgram,
    tape: Vec<u8>,
    ptr: usize,
    pc: usize,
    halted: bool,
    /// Instruction indices, strictly increasing.
    breakpoints: Vec<usize>,
    /// `(cell, value)` pairs, strictly increasing by cell.
    watchpoints: Vec<(usize, u8)>,
}

spec fn increasing(v: Seq<usize>) -> bool {
    forall|i: int, j: int| 0 <= i < j < v.len() ==> v[i] < v[j]
}

spec fn increasing_cells(v: Seq<(usize, u8)>) -> bool {
    forall|i: int, j: int| 0 <= i < j < v.len() ==> v[i].0 < v[j].0
}

/// The instruction at `vm.pc` would move the data pointer off the tape.
spec fn leaves_tape(vm: DebugVm) -> bool {
    let inst = vm.program.insts@[vm.pc as int];
    (inst == Inst::Left && vm.ptr == 0) || (inst == Inst::Right && vm.ptr + 1 >= TAPE_SIZE)
}

/// `b` is `a` after running the instruction at `a.pc` (not past the end), where an input
/// instruction reads `input`: the tape, the data pointer, the program counter and the halted
/// flag change as that instruction says.
spec fn vm_stepped(a: DebugVm, b: DebugVm, input: Option<u8>) -> bool {
    let inst = a.program.insts@[a.pc as int];
    let v = a.tape@[a.ptr as int];
    &&& b.program == a.program
    &&& (inst == Inst::Add ==> b.tape@ == a.tape@.update(a.ptr as int, (if v == 255 { 0 } else { v + 1 }) as u8))
    &&& (inst == Inst::Sub ==> b.tape@ == a.tape@.update(a.ptr as int, (if v == 0 { 255 } else { v - 1 }) as u8))
    &&& (inst == Inst::Left ==> b.ptr == a.ptr - 1)
    &&& (inst == Inst::Right ==> b.ptr == a.ptr + 1)
    &&& (inst == Inst::Input ==> b.tape@ == a.tape@.update(
        a.ptr as int,
        match input {
            Some(x) => x,
            None => 0u8,
        },
    ))
    &&& ((inst == Inst::LoopStart && v == 0) || (inst == Inst::LoopEnd && v != 0) ==> (a.program.jumps@[a.pc as int] matches Some(t) && b.pc == t + 1))
    &&& (!((inst == Inst::LoopStart && v == 0) || (inst == Inst::LoopEnd && v != 0)) ==> b.pc == a.pc + 1)
    &&& b.halted == (b.pc >= a.program.insts@.len())
}

impl DebugVm {
    pub closed spec fn wf(&self) -> bool {
        &&& self.program.wf()
        &&& self.tape@.len() == TAPE_SIZE
        &&& self.ptr < TAPE_SIZE
        &&& increasing(self.breakpoints@)
        &&& increasing_cells(self.watchpoints@)
    }

    /// The breakpoints, as a set of instruction indices.
    pub closed spec fn breakpoint_set(&self) -> Set<usize> {
        self.breakpoints@.to_set()
    }

    pub closed spec fn tape_seq(&self) -> Seq<u8> {
        self.tape@
    }

    pub closed spec fn spec_pc(&self) -> usize {
        self.pc
    }

    pub closed spec fn spec_ptr(&self) -> usize {
        self.ptr
    }

    pub closed spec fn is_halted(&self) -> bool {
        self.halted
    }

    /// A machine at the program's start: zeroed tape, no breakpoints, no watched cells.
    pub fn new(program: DebugProgram) -> (vm: Self)
        requires
            program.wf(),
        ensures
            vm.wf(),
            vm.tape_seq() == Seq::new(TAPE_SIZE as nat, |i: int| 0u8),
            vm.spec_pc() == 0,
            vm.spec_ptr() == 0,
            !vm.is_halted(),
            vm.breakpoint_set() == Set::<usize>::empty(),
    {
        let vm = Self {
            program,
            tape: vec![0u8; TAPE_SIZE],
            ptr: 0,
            pc: 0,
            halted: false,
            breakpoints: Vec::new(),
            watchpoints: Vec::new(),
        };
        proof {
            assert(vm.tape@ =~= Seq::new(TAPE_SIZE as nat, |i: int| 0u8));
            assert(vm.breakpoints@.to_set() =~= Set::<usize>::empty());
        }
        vm
    }

    /// Back to the start: zeroed tape, pointer and instruction at zero; breakpoints and
    /// watched cells stay.
    fn restart(&mut self)
        requires
            old(self).wf(),
        ensures
            final(self).wf(),
            final(self).tape@ == Seq::new(TAPE_SIZE as nat, |i: int| 0u8),
            final(self).ptr == 0,
            final(self).pc == 0,
            !final(self).halted,
            final(self).breakpoints == old(self).breakpoints,
            final(self).watchpoints == old(self).watchpoints,
            final(self).program == old(self).program,
    {
        self.tape = vec![0u8; TAPE_SIZE];
        self.ptr = 0;
        self.pc = 0;
        self.halted = false;
        assert(self.tape@ =~= Seq::new(TAPE_SIZE as nat, |i: int| 0u8));
    }

    /// Whether the next instruction reads input.
    fn at_input(&self) -> (b: bool)
        requires
            self.wf(),
        ensures
            b == (!self.halted && self.pc < self.program.insts@.len()
                && self.program.insts@[self.pc as int] == Inst::Input),
    {
        !self.halted && self.pc < self.program.insts.len() && self.program.insts[self.pc]
            == Inst::Input
    }

    fn jump_target(&self, pc: usize) -> (r: Result<usize, String>)
        requires
            self.wf(),
        ensures
            r is Ok <==> pc < self.program.jumps@.len() && self.program.jumps@[pc as int] is Some,
            r matches Err(e) ==> e@ == "missing jump target for instruction "@ + decimal_chars(pc as nat),
            r matches Ok(t) ==> pc < self.program.jumps@.len() && self.program.jumps@[pc as int]
                == Some(t) && t < self.program.insts@.len(),
    {
        if pc < self.program.jumps.len() {
            if let Some(t) = self.program.jumps[pc] {
                return Ok(t);
            }
        }
        let mut msg = "missing jump target for instruction ".to_string();
        push_decimal(&mut msg, pc as u64);
        Err(msg)
    }

    /// Runs one raw instruction; `input` is the byte an input instruction reads (`None` at the
    /// end of input, which reads as zero). Running past the last instruction halts.
    fn step(&mut self, input: Option<u8>, out: &mut Vec<u8>) -> (r: Result<(), String>)
        requires
            old(self).wf(),
        ensures
            final(self).wf(),
            final(self).program == old(self).program,
            final(self).breakpoints == old(self).breakpoints,
            final(self).watchpoints == old(self).watchpoints,
            old(self).halted ==> *final(self) == *old(self) && final(out)@ == old(out)@,
            r is Ok && !old(self).halted && old(self).pc < old(self).program.insts@.len() ==> {
                let inst = old(self).program.insts@[old(self).pc as int];
                let v = old(self).tape@[old(self).ptr as int];
                &&& inst == Inst::Add ==> final(self).tape@ == old(self).tape@.update(
                    old(self).ptr as int,
                    (if v == 255 { 0 } else { v + 1 }) as u8,
                )
                &&& inst == Inst::Sub ==> final(self).tape@ == old(self).tape@.update(
                    old(self).ptr as int,
                    (if v == 0 { 255 } else { v - 1 }) as u8,
                )
                &&& inst == Inst::Left ==> final(self).ptr == old(self).ptr - 1
                &&& inst == Inst::Right ==> final(self).ptr == old(self).ptr + 1
                &&& inst == Inst::Input ==> final(self).tape@ == old(self).tape@.update(
                    old(self).ptr as int,
                    match input {
                        Some(b) => b,
                        None => 0u8,
                    },
                )
                &&& inst == Inst::Output ==> final(out)@ == old(out)@.push(v)
                &&& inst != Inst::Output ==> final(out)@ == old(out)@
                &&& (inst == Inst::LoopStart && v == 0) || (inst == Inst::LoopEnd && v != 0)
                    ==> (old(self).program.jumps@[old(self).pc as int] matches Some(t)
                    && final(self).pc == t + 1)
                &&& !((inst == Inst::LoopStart && v == 0) || (inst == Inst::LoopEnd && v != 0))
                    ==> final(self).pc == old(self).pc + 1
                &&& final(self).halted == (final(self).pc >= old(self).program.insts@.len())
            },
            !old(self).halted && old(self).pc >= old(self).program.insts@.len() ==> final(self).halted
                && final(self).pc == old(self).pc,
            r is Ok && !old(self).halted && old(self).pc < old(self).program.insts@.len() ==> vm_stepped(
                *old(self),
                *final(self),
                input,
            ),
            r is Err <==> !old(self).halted && old(self).pc < old(self).program.insts@.len()
                && leaves_tape(*old(self)),
            r matches Err(e) ==> e@ == (if old(self).program.insts@[old(self).pc as int] == Inst::Left {
                "data pointer moved before cell 0"@
            } else {
                "data pointer moved past cell 29999"@
            }),
            r is Err ==> *final(self) == *old(self) && final(out)@ == old(out)@,
    {
        proof {
            if !self.halted && self.pc < self.program.insts@.len() {
                let k = self.pc as int;
                assert(jumps_match(self.program.insts@, self.program.jumps@));
                let j = self.program.jumps@[k];
            }
        }
        if self.halted {
            return Ok(());
        }
        let n = self.program.insts.len();
        if self.pc >= n {
            self.halted = true;
            return Ok(());
        }
        let inst = self.program.insts[self.pc];
        let ptr = self.ptr;
        let v = self.tape[ptr];
        match inst {
            Inst::Add => {
                self.tape.set(ptr, if v == 255 { 0 } else { v + 1 });
                self.pc = self.pc + 1;
            },
            Inst::Sub => {
                self.tape.set(ptr, if v == 0 { 255 } else { v - 1 });
                self.pc = self.pc + 1;
            },
            Inst::Left => {
                self.ptr = checked_step(ptr, false)?;
                self.pc = self.pc + 1;
            },
            Inst::Right => {
                self.ptr = checked_step(ptr, true)?;
                self.pc = self.pc + 1;
            },
            Inst::Input => {
                let b = match input {
                    Some(b) => b,
                    None => 0,
                };
                self.tape.set(ptr, b);
                self.pc = self.pc + 1;
            },
            Inst::Output => {
                out.push(v);
                self.pc = self.pc + 1;
            },
            Inst::LoopStart => {
                if v == 0 {
                    self.pc = self.jump_target(self.pc)? + 1;
                } else {
                    self.pc = self.pc + 1;
                }
            },
            Inst::LoopEnd => {
                if v != 0 {
                    self.pc = self.jump_target(self.pc)? + 1;
                } else {
                    self.pc = self.pc + 1;
                }
            },
        }
        if self.pc >= n {
            self.halted = true;
        }
        Ok(())
    }
}

/// Appends the UTF-8 bytes of a text.
fn emit(out: &mut Vec<u8>, s: &str)
    ensures
        final(out)@.len() >= old(out)@.len(),
        final(out)@ == old(out)@ + encode_utf8(s@),
{
    let b = s.as_bytes();
    let mut i: usize = 0;
    while i < b.len()
        invariant
            out@.len() >= old(out)@.len(),
            i <= b@.len(),
            b@ == encode_utf8(s@),
            out@ == old(out)@ + b@.take(i as int),
        decreases b@.len() - i,
    {
        out.push(b[i]);
        i = i + 1;
        assert(b@.take(i as int) =~= b@.take(i - 1).push(b@[i - 1]));
    }
    assert(b@.take(b@.len() as int) =~= b@);
}

/// Appends a text and a newline.
fn emit_line(out: &mut Vec<u8>, s: &String)
    ensures
        final(out)@ == old(out)@ + encode_utf8(s@) + seq![10u8],
{
    emit(out, s.as_str());
    out.push(10);
}

fn text(s: &str) -> (r: String)
    ensures
        r@ == s@,
{
    s.to_string()
}

/// `prefix` followed by a number.
fn with_number(prefix: &str, n: usize) -> (r: String)
    ensures
        r@ == prefix@ + decimal_chars(n as nat),
{
    let mut s = text(prefix);
    push_decimal(&mut s, n as u64);
    s
}

/// `prefix`, the characters in backquotes, then `suffix`.
fn quoted(prefix: &str, cs: &[char], suffix: &str) -> (r: String)
    ensures
        r@ == prefix@ + "`"@ + cs@ + "`"@ + suffix@,
{
    let mut s = text(prefix);
    push_str(&mut s, "`");
    push_str(&mut s, string_of(cs).as_str());
    push_str(&mut s, "`");
    push_str(&mut s, suffix);
    s
}

/// The lower-case hexadecimal digit for `d` (below 16).
pub open spec fn hex_char(d: int) -> char {
    if d < 10 {
        (d + 48) as char
    } else {
        (d + 87) as char
    }
}

/// The hexadecimal digits of `v`, least significant first (none for zero).
pub open spec fn hex_rev(v: nat) -> Seq<char>
    decreases v,
{
    if v == 0 {
        Seq::empty()
    } else {
        seq![hex_char(v as int % 16)] + hex_rev(v / 16)
    }
}

/// `v` in lower-case hexadecimal, with zeros in front up to `width` digits.
pub open spec fn hex_padded(v: nat, width: int) -> Seq<char> {
    let digits = hex_rev(v).reverse();
    Seq::new(if width > digits.len() { (width - digits.len()) as nat } else { 0 }, |_i: int| '0')
        + digits
}

/// Appends `value` in hexadecimal, lower case, padded with zeros to `width` digits.
fn push_hex_padded(s: &mut String, value: u64, width: usize)
    ensures
        final(s)@ == old(s)@ + hex_padded(value as nat, width as int),
{
    let mut digits: Vec<char> = Vec::new();
    let mut v = value;
    while v > 0
        invariant
            hex_rev(value as nat) == digits@ + hex_rev(v as nat),
        decreases v,
    {
        let d = (v % 16) as u8;
        let c = if d < 10 { (d + 48) as char } else { (d + 87) as char };
        proof {
            assert(c == hex_char(v as int % 16));
            assert(hex_rev(v as nat) == seq![c] + hex_rev((v / 16) as nat));
            assert(digits@ + hex_rev(v as nat) =~= digits@.push(c) + hex_rev((v / 16) as nat));
        }
        digits.push(c);
        v = v / 16;
    }
    assert(digits@ =~= hex_rev(value as nat));
    let ghost s0 = s@;
    let mut pad = digits.len();
    while pad < width
        invariant
            digits@.len() <= pad,
            pad <= width || pad == digits@.len(),
            s@ == s0 + Seq::new((pad - digits@.len()) as nat, |_i: int| '0'),
        decreases width - pad,
    {
        push_str(s, "0");
        proof {
            reveal_strlit("0");
            assert(Seq::new((pad + 1 - digits@.len()) as nat, |_i: int| '0') =~= Seq::new(
                (pad - digits@.len()) as nat,
                |_i: int| '0',
            ) + "0"@);
        }
        pad = pad + 1;
    }
    let ghost s1 = s@;
    let mut i = digits.len();
    while i > 0
        invariant
            i <= digits@.len(),
            s@ == s1 + digits@.subrange(i as int, digits@.len() as int).reverse(),
        decreases i,
    {
        i = i - 1;
        let mut one: Vec<char> = Vec::new();
        one.push(digits[i]);
        push_str(s, string_of(one.as_slice()).as_str());
        proof {
            assert(digits@.subrange(i as int, digits@.len() as int).reverse() =~= digits@.subrange(
                i + 1,
                digits@.len() as int,
            ).reverse() + one@);
        }
    }
    proof {
        assert(digits@.subrange(0, digits@.len() as int) =~= digits@);
        let z = Seq::new((pad - digits@.len()) as nat, |_i: int| '0');
        assert(Seq::new(
            if width > digits@.len() { (width - digits@.len()) as nat } else { 0 },
            |_i: int| '0',
        ) =~= z);
        assert(s@ =~= s0 + (z + digits@.reverse()));
    }
}

fn push_one(s: &mut String, c: char)
    requires
        4 * old(s)@.len() + 4 <= isize::MAX,
    ensures
        final(s)@ == old(s)@.push(c),
{
    push_char(s, c);
}

/// Appends an instruction character, or the blank shown past the last instruction.
fn push_inst_char(s: &mut String, c: char)
    requires
        is_bf_char(c) || c == ' ',
    ensures
        final(s)@ == old(s)@.push(c),
{
    proof {
        reveal_strlit("+");
        reveal_strlit("-");
        reveal_strlit("<");
        reveal_strlit(">");
        reveal_strlit(".");
        reveal_strlit(",");
        reveal_strlit("[");
        reveal_strlit("]");
        reveal_strlit(" ");
    }
    let t = if c == '+' {
        "+"
    } else if c == '-' {
        "-"
    } else if c == '<' {
        "<"
    } else if c == '>' {
        ">"
    } else if c == '.' {
        "."
    } else if c == ',' {
        ","
    } else if c == '[' {
        "["
    } else if c == ']' {
        "]"
    } else {
        " "
    };
    push_str(s, t);
    assert(s@ =~= old(s)@.push(c));
}

/// How `x` shows values.
#[derive(Debug, Clone, Copy, PartialEq, Eq)]
enum ExamineKind {
    Decimal,
    Hex,
    Char,
}

/// How many cells `x` reads for each value.
#[derive(Debug, Clone, Copy, PartialEq, Eq)]
enum ExamineSize {
    Byte,
    Half,
    Word,
    Giant,
}

/// The `/FMT` part of `x`: a count, a kind and a size.
#[derive(Debug, Clone, Copy, PartialEq, Eq)]
struct ExamineFormat {
    count: Option<usize>,
    kind: ExamineKind,
    size: ExamineSize,
}

impl ExamineKind {
    fn parse(ch: char) -> (r: Option<Self>)
        ensures
            r == (if ch == 'd' {
                Some(ExamineKind::Decimal)
            } else if ch == 'x' {
                Some(ExamineKind::Hex)
            } else if ch == 'c' {
                Some(ExamineKind::Char)
            } else {
                None
            }),
    {
        if ch == 'd' {
            Some(ExamineKind::Decimal)
        } else if ch == 'x' {
            Some(ExamineKind::Hex)
        } else if ch == 'c' {
            Some(ExamineKind::Char)
        } else {
            None
        }
    }

    /// A value read from `size` cells, as text.
    fn format(self, value: u64, size: usize) -> (r: String)
        requires
            size <= 8,
        ensures
            r@ == examine_text(self, value as nat, size as int),
    {
        let mut s = String::new();
        proof {
            reveal_strlit("");
        }
        match self {
            ExamineKind::Decimal => push_decimal(&mut s, value),
            ExamineKind::Hex => {
                push_str(&mut s, "0x");
                push_hex_padded(&mut s, value, size * 2);
            },
            ExamineKind::Char => {
                let byte = (value % 256) as u8;
                if (33 <= byte && byte <= 126) || byte == 32 {
                    push_str(&mut s, "'");
                    proof {
                        reveal_strlit("'");
                    }
                    push_one(&mut s, byte as char);
                    push_str(&mut s, "'");
                } else {
                    push_str(&mut s, "'\\x");
                    push_hex_padded(&mut s, byte as u64, 2);
                    push_str(&mut s, "'");
                }
            },
        }
        s
    }
}

impl ExamineSize {
    fn parse(ch: char) -> (r: Option<Self>)
        ensures
            r == (if ch == 'b' {
                Some(ExamineSize::Byte)
            } else if ch == 'h' {
                Some(ExamineSize::Half)
            } else if ch == 'w' {
                Some(ExamineSize::Word)
            } else if ch == 'g' {
                Some(ExamineSize::Giant)
            } else {
                None
            }),
    {
        if ch == 'b' {
            Some(ExamineSize::Byte)
        } else if ch == 'h' {
            Some(ExamineSize::Half)
        } else if ch == 'w' {
            Some(ExamineSize::Word)
        } else if ch == 'g' {
            Some(ExamineSize::Giant)
        } else {
            None
        }
    }

    fn bytes(self) -> (n: usize)
        ensures
            1 <= n <= 8,
            n == size_bytes(self),
    {
        match self {
            ExamineSize::Byte => 1,
            ExamineSize::Half => 2,
            ExamineSize::Word => 4,
            ExamineSize::Giant => 8,
        }
    }
}

impl ExamineFormat {
    /// Hexadecimal bytes, as many as the target covers.
    spec fn default_spec() -> Self {
        ExamineFormat { count: None, kind: ExamineKind::Hex, size: ExamineSize::Byte }
    }

    fn default_format() -> (f: Self)
        ensures
            f == ExamineFormat::default_spec(),
            f == (ExamineFormat { count: None, kind: ExamineKind::Hex, size: ExamineSize::Byte }),
    {
        ExamineFormat { count: None, kind: ExamineKind::Hex, size: ExamineSize::Byte }
    }

    /// Reads `COUNT` digits followed by kind and size letters, in any order; the defaults
    /// are hexadecimal bytes.
    fn parse(spec: Option<&Vec<char>>) -> (r: Result<Self, String>)
        ensures
            match spec {
                None => r == Ok::<Self, String>(ExamineFormat::default_spec()),
                Some(sp) => match examine_format(sp@) {
                    Ok(f) => r == Ok::<Self, String>(f),
                    Err(e) => r matches Err(m) && m@ == e,
                },
            },
    {
        let sv = match spec {
            None => {
                return Ok(Self::default_format());
            },
            Some(sv) => sv,
        };
        let ghost sq = sv@;
        let ghost p = leading_digits(sq) as int;
        proof {
            lemma_leading_digits(sq);
        }
        let mut digits: Vec<char> = Vec::new();
        let mut kind: Option<ExamineKind> = None;
        let mut size: Option<ExamineSize> = None;
        let mut i: usize = 0;
        while i < sv.len()
            invariant
                sq == sv@,
                spec == Some(sv),
                p == leading_digits(sq),
                0 <= p <= sq.len(),
                forall|k: int| 0 <= k < p ==> is_digit_char(#[trigger] sq[k]),
                p < sq.len() ==> !is_digit_char(sq[p]),
                i <= sq.len(),
                kind == last_kind(sq.take(i as int)),
                size == last_size(sq.take(i as int)),
                digits@ == sq.take(if i <= p { i as int } else { p }),
                i <= p ==> kind is None && size is None,
                i > p ==> kind is Some || size is Some,
                i > p ==> first_bad(sq, p) == first_bad(sq, i as int),
            decreases sv@.len() - i,
        {
            let ch = sv[i];
            proof {
                assert(sq.take(i + 1).drop_last() =~= sq.take(i as int));
                assert(sq.take(i + 1).last() == ch);
                if i as int == p && i < sq.len() {
                    assert(first_bad(sq, p) == first_bad(sq, i as int));
                }
            }
            if '0' <= ch && ch <= '9' {
                if kind.is_some() || size.is_some() {
                    proof {
                        lemma_quoted_text("invalid x format "@, sq);
                    }
                    return Err(quoted("invalid x format ", sv.as_slice(), ""));
                }
                digits.push(ch);
                proof {
                    assert(digits@ =~= sq.take(i + 1));
                }
            } else if let Some(parsed) = ExamineKind::parse(ch) {
                kind = Some(parsed);
            } else if let Some(parsed) = ExamineSize::parse(ch) {
                size = Some(parsed);
            } else {
                let mut one: Vec<char> = Vec::new();
                one.push(ch);
                proof {
                    lemma_quoted_text("invalid x format character "@, one@);
                    assert(one@ =~= seq![sq[i as int]]);
                }
                return Err(quoted("invalid x format character ", one.as_slice(), ""));
            }
            i = i + 1;
        }
        proof {
            assert(sq.take(sq.len() as int) =~= sq);
        }
        let count = if digits.len() == 0 {
            None
        } else {
            match parse_unsigned(digits.as_slice(), usize::MAX) {
                Some(n) => Some(n),
                None => {
                    proof {
                        lemma_quoted_text("invalid x count "@, digits@);
                    }
                    return Err(quoted("invalid x count ", digits.as_slice(), ""));
                },
            }
        };
        Ok(ExamineFormat {
            count,
            kind: match kind {
                Some(k) => k,
                None => ExamineKind::Hex,
            },
            size: match size {
                Some(s) => s,
                None => ExamineSize::Byte,
            },
        })
    }
}

/// One line of `code`: the current-instruction mark, the breakpoint mark, the index right
/// aligned to six columns and the instruction.
spec fn code_line(vm: DebugVm, i: int) -> Seq<char> {
    let num = decimal_chars(i as nat);
    (if i == vm.pc { "=>"@ } else { "  "@ }) + (if vm.breakpoints@.contains(i as usize) {
        " B "@
    } else {
        "   "@
    }) + Seq::new(if num.len() < 6 { (6 - num.len()) as nat } else { 0 }, |_k: int| ' ') + num
        + " "@ + seq![char_of(vm.program.insts@[i])]
}

/// The lines of `code` for the instructions `from..to`.
spec fn code_bytes(vm: DebugVm, from: int, to: int) -> Seq<u8>
    decreases to - from,
{
    if to <= from {
        Seq::empty()
    } else {
        code_bytes(vm, from, to - 1) + line_bytes(code_line(vm, to - 1))
    }
}

/// Index of the first watchpoint from `i` on whose recorded value differs from the tape
/// (the length when there is none).
pub open spec fn first_changed(w: Seq<(usize, u8)>, tape: Seq<u8>, i: int) -> int
    decreases w.len() - i,
{
    if i >= w.len() || i < 0 {
        w.len() as int
    } else if tape[w[i].0 as int] != w[i].1 {
        i
    } else {
        first_changed(w, tape, i + 1)
    }
}

/// The little-endian number that the bytes `s` spell.
pub open spec fn le_value(s: Seq<u8>) -> nat
    decreases s.len(),
{
    if s.len() == 0 {
        0
    } else {
        s[0] as nat + 256 * le_value(s.drop_first())
    }
}

pub open spec fn pow256(n: nat) -> nat
    decreases n,
{
    if n == 0 {
        1
    } else {
        256 * pow256((n - 1) as nat)
    }
}

proof fn lemma_le_bound(s: Seq<u8>)
    ensures
        le_value(s) < pow256(s.len()),
    decreases s.len(),
{
    if s.len() > 0 {
        lemma_le_bound(s.drop_first());
    }
}

proof fn lemma_pow256_mono(k: nat, m: nat)
    requires
        k <= m,
    ensures
        pow256(k) <= pow256(m),
    decreases m,
{
    if k < m {
        lemma_pow256_mono(k, (m - 1) as nat);
    }
}

/// How many cells `x` reads per value for each size letter.
spec fn size_bytes(s: ExamineSize) -> int {
    match s {
        ExamineSize::Byte => 1,
        ExamineSize::Half => 2,
        ExamineSize::Word => 4,
        ExamineSize::Giant => 8,
    }
}

/// How `x` shows `value`, read from `size` cells: decimal, `0x` with two hex digits per
/// cell, or a quoted character (printable ASCII as itself, else `\xHH`) of its low byte.
spec fn examine_text(kind: ExamineKind, value: nat, size: int) -> Seq<char> {
    match kind {
        ExamineKind::Decimal => decimal_chars(value),
        ExamineKind::Hex => "0x"@ + hex_padded(value, size * 2),
        ExamineKind::Char => if 32 <= value % 256 <= 126 {
            "'"@ + seq![(value % 256) as char] + "'"@
        } else {
            "'\\x"@ + hex_padded(value % 256, 2) + "'"@
        },
    }
}

/// The lines `x` prints for the first `k` values of `size` cells from `start`: the cell,
/// a space and the value.
spec fn examine_bytes(tape: Seq<u8>, start: int, size: int, kind: ExamineKind, k: int) -> Seq<u8>
    decreases k,
{
    if k <= 0 {
        Seq::empty()
    } else {
        let cell = start + (k - 1) * size;
        examine_bytes(tape, start, size, kind, k - 1) + line_bytes(
            decimal_chars(cell as nat) + " "@ + examine_text(
                kind,
                le_value(tape.subrange(cell, cell + size)),
                size,
            ),
        )
    }
}

/// A decimal digit character.
pub open spec fn is_digit_char(c: char) -> bool {
    '0' <= c <= '9'
}

/// A letter that `x` formats accept: a kind (`d`, `x`, `c`) or a size (`b`, `h`, `w`, `g`).
pub open spec fn is_format_letter(c: char) -> bool {
    c == 'd' || c == 'x' || c == 'c' || c == 'b' || c == 'h' || c == 'w' || c == 'g'
}

spec fn kind_letter(c: char) -> Option<ExamineKind> {
    if c == 'd' {
        Some(ExamineKind::Decimal)
    } else if c == 'x' {
        Some(ExamineKind::Hex)
    } else if c == 'c' {
        Some(ExamineKind::Char)
    } else {
        None
    }
}

spec fn size_letter(c: char) -> Option<ExamineSize> {
    if c == 'b' {
        Some(ExamineSize::Byte)
    } else if c == 'h' {
        Some(ExamineSize::Half)
    } else if c == 'w' {
        Some(ExamineSize::Word)
    } else if c == 'g' {
        Some(ExamineSize::Giant)
    } else {
        None
    }
}

/// The kind named by the last kind letter of `s`, if any.
spec fn last_kind(s: Seq<char>) -> Option<ExamineKind>
    decreases s.len(),
{
    if s.len() == 0 {
        None
    } else if kind_letter(s.last()) is Some {
        kind_letter(s.last())
    } else {
        last_kind(s.drop_last())
    }
}

/// The size named by the last size letter of `s`, if any.
spec fn last_size(s: Seq<char>) -> Option<ExamineSize>
    decreases s.len(),
{
    if s.len() == 0 {
        None
    } else if size_letter(s.last()) is Some {
        size_letter(s.last())
    } else {
        last_size(s.drop_last())
    }
}

/// Number of decimal digits at the start of `s`.
pub open spec fn leading_digits(s: Seq<char>) -> nat
    decreases s.len(),
{
    if s.len() == 0 || !is_digit_char(s[0]) {
        0
    } else {
        1 + leading_digits(s.drop_first())
    }
}

proof fn lemma_leading_digits(s: Seq<char>)
    ensures
        leading_digits(s) <= s.len(),
        forall|k: int| 0 <= k < leading_digits(s) ==> is_digit_char(#[trigger] s[k]),
        leading_digits(s) < s.len() ==> !is_digit_char(s[leading_digits(s) as int]),
    decreases s.len(),
{
    if s.len() > 0 && is_digit_char(s[0]) {
        lemma_leading_digits(s.drop_first());
        assert forall|k: int| 0 <= k < leading_digits(s) implies is_digit_char(#[trigger] s[k]) by {
            if k > 0 {
                assert(s[k] == s.drop_first()[k - 1]);
            }
        }
    }
}

/// Index of the first character from `i` on that is not a format letter (the length when
/// there is none).
pub open spec fn first_bad(s: Seq<char>, i: int) -> int
    decreases s.len() - i,
{
    if i >= s.len() || i < 0 {
        s.len() as int
    } else if !is_format_letter(s[i]) {
        i
    } else {
        first_bad(s, i + 1)
    }
}

/// What `x/FMT` makes of `FMT`: leading digits are the count, then only format letters
/// may follow (the last kind and the last size letter count); the error text otherwise.
spec fn examine_format(s: Seq<char>) -> Result<ExamineFormat, Seq<char>> {
    let p = leading_digits(s) as int;
    let b = first_bad(s, p);
    if b < s.len() {
        if is_digit_char(s[b]) {
            Err(quoted_text("invalid x format "@, s))
        } else {
            Err(quoted_text("invalid x format character "@, seq![s[b]]))
        }
    } else {
        let count: Result<Option<usize>, Seq<char>> = if p == 0 {
            Ok(None)
        } else {
            match parsed_unsigned(s.take(p), usize::MAX as nat) {
                Some(n) => Ok(Some(n as usize)),
                None => Err(quoted_text("invalid x count "@, s.take(p))),
            }
        };
        match count {
            Err(e) => Err(e),
            Ok(c) => Ok(
                ExamineFormat {
                    count: c,
                    kind: match last_kind(s) {
                        Some(k) => k,
                        None => ExamineKind::Hex,
                    },
                    size: match last_size(s) {
                        Some(z) => z,
                        None => ExamineSize::Byte,
                    },
                },
            ),
        }
    }
}

/// A run of a command that executes the program: it may stop for input or when its step
/// budget runs out, and goes on when the driver calls back.
#[derive(Debug, Clone, Copy, PartialEq, Eq, Structural)]
enum Task {
    Idle,
    Continue { first: bool },
    Step { remaining: usize },
    Next { target: Inst, first: bool },
}

/// What the driver does after the debugger handled a line or a callback.
#[derive(Debug, Clone, Copy, PartialEq, Eq)]
pub enum Reply {
    /// Show the prompt and read the next command line.
    Ready,
    /// The program reads a byte: read one and pass it to `provide_input`.
    NeedInput,
    /// The command is still running: call `resume` (or `interrupt` after Ctrl-C).
    Running,
    /// The user quit.
    Quit,
}

/// An interactive debugger session over a `DebugVm`.
pub struct Debugger {
    vm: DebugVm,
    last_command: Vec<char>,
    task: Task,
}

pub open spec fn words_name_is(words: Seq<Seq<char>>, name: Seq<char>) -> bool {
    words.len() > 0 && words[0] == name
}

/// The number in argument `i` of a command, if it has one that reads.
pub open spec fn arg_number(words: Seq<Seq<char>>, i: int) -> Option<nat> {
    if i < words.len() {
        parsed_unsigned(words[i], usize::MAX as nat)
    } else {
        None
    }
}

/// What running the command `words` on the session `before` leads to, as far as it is told:
/// an empty command and an unknown one change nothing, `q` quits, `b` and `delete` add and
/// remove a breakpoint, `r` restarts the program, and `set` writes one cell.
pub open spec fn command_done(before: Debugger, after: Debugger, words: Seq<Seq<char>>, r: Result<
    Reply,
    String,
>) -> bool {
    let vm0 = before.machine();
    let vm1 = after.machine();
    &&& after.wf()
    &&& r matches Ok(Reply::Ready) ==> after.idle()
    &&& r matches Ok(Reply::Quit) ==> after.idle()
    &&& words.len() == 0 ==> r == Ok::<Reply, String>(Reply::Ready) && vm1 == vm0
    &&& words_name_is(words, "q"@) ==> r == Ok::<Reply, String>(Reply::Quit) && vm1 == vm0
    &&& words.len() > 0 && !known_command(words[0]) ==> r == Ok::<Reply, String>(Reply::Ready) && vm1
        == vm0
    &&& words_name_is(words, "b"@) && arg_number(words, 1) is Some ==> r == Ok::<Reply, String>(
        Reply::Ready,
    ) && vm1.breakpoint_set() == vm0.breakpoint_set().insert(arg_number(words, 1)->0 as usize)
        && vm1.tape_seq() == vm0.tape_seq() && vm1.spec_pc() == vm0.spec_pc()
    &&& words_name_is(words, "b"@) && arg_number(words, 1) is None ==> (r matches Err(e) && e@
        == "break requires an instruction index"@)
    &&& words_name_is(words, "delete"@) && arg_number(words, 1) is Some ==> r == Ok::<Reply, String>(
        Reply::Ready,
    ) && vm1.breakpoint_set() == vm0.breakpoint_set().remove(arg_number(words, 1)->0 as usize)
        && vm1.tape_seq() == vm0.tape_seq() && vm1.spec_pc() == vm0.spec_pc()
    &&& words_name_is(words, "r"@) ==> r == Ok::<Reply, String>(Reply::Ready) && vm1.tape_seq()
        == Seq::new(TAPE_SIZE as nat, |i: int| 0u8) && vm1.spec_pc() == 0 && vm1.spec_ptr() == 0
        && !vm1.is_halted() && vm1.breakpoint_set() == vm0.breakpoint_set()
    &&& words_name_is(words, "set"@) && words.len() >= 3 && arg_number(words, 1) is Some
        && parsed_unsigned(words[2], 255) is Some && arg_number(words, 1)->0 < TAPE_SIZE ==> r
        == Ok::<Reply, String>(Reply::Ready) && vm1.tape_seq() == vm0.tape_seq().update(
        arg_number(words, 1)->0 as int,
        parsed_unsigned(words[2], 255)->0 as u8,
    ) && vm1.spec_pc() == vm0.spec_pc()
}

/// The commands the debugger knows.
pub open spec fn known_command(name: Seq<char>) -> bool {
    ||| name == "help"@ || name == "r"@ || name == "c"@ || name == "s"@ || name == "info"@
    ||| name == "next"@ || name == "b"@ || name == "delete"@ || name == "breakpoints"@
    ||| name == "watch"@ || name == "unwatch"@ || name == "watchpoints"@ || name == "set"@
    ||| name == "pc"@ || name == "inst"@ || name == "code"@ || name == "symbols"@
    ||| name == "symbol"@ || name == "q"@ || name == "x"@
    ||| (name.len() >= 2 && name[0] == 'x' && name[1] == '/')
}

/// Inserts into a strictly increasing list.
fn insert_sorted(v: &mut Vec<usize>, x: usize)
    requires
        increasing(old(v)@),
    ensures
        increasing(final(v)@),
        final(v)@.to_set() == old(v)@.to_set().insert(x),
{
    let mut i: usize = 0;
    while i < v.len()
        invariant
            i <= v@.len(),
            v@ == old(v)@,
            increasing(v@),
            forall|k: int| 0 <= k < i ==> v@[k] < x,
        decreases v@.len() - i,
    {
        if v[i] == x {
            proof {
                assert(v@.to_set() =~= old(v)@.to_set().insert(x));
            }
            return;
        }
        if v[i] > x {
            v.insert(i, x);
            proof {
                assert forall|a: int, b: int| 0 <= a < b < v@.len() implies v@[a] < v@[b] by {
                    if b < i {
                    } else if b == i {
                    } else if a == i {
                        assert(v@[b] == old(v)@[b - 1]);
                    } else if a < i {
                        assert(v@[b] == old(v)@[b - 1]);
                    } else {
                        assert(v@[a] == old(v)@[a - 1]);
                        assert(v@[b] == old(v)@[b - 1]);
                    }
                }
                assert forall|y: usize| v@.to_set().contains(y) <==> old(v)@.to_set().insert(x).contains(y) by {
                    if v@.to_set().contains(y) {
                        let k = choose|k: int| 0 <= k < v@.len() && v@[k] == y;
                        if k < i {
                            assert(old(v)@[k] == y);
                        } else if k > i {
                            assert(old(v)@[k - 1] == y);
                        }
                    }
                    if old(v)@.to_set().contains(y) && y != x {
                        let k = choose|k: int| 0 <= k < old(v)@.len() && old(v)@[k] == y;
                        if k < i {
                            assert(v@[k] == y);
                        } else {
                            assert(v@[k + 1] == y);
                        }
                    }
                    if y == x {
                        assert(v@[i as int] == x);
                    }
                }
                assert(v@.to_set() =~= old(v)@.to_set().insert(x));
            }
            return;
        }
        i = i + 1;
    }
    v.push(x);
    proof {
        assert forall|y: usize| v@.to_set().contains(y) <==> old(v)@.to_set().insert(x).contains(y) by {
            if v@.to_set().contains(y) {
                let k = choose|k: int| 0 <= k < v@.len() && v@[k] == y;
                if k < old(v)@.len() {
                    assert(old(v)@[k] == y);
                }
            }
            if old(v)@.to_set().contains(y) {
                let k = choose|k: int| 0 <= k < old(v)@.len() && old(v)@[k] == y;
                assert(v@[k] == y);
            }
            if y == x {
                assert(v@[old(v)@.len() as int] == x);
            }
        }
        assert(v@.to_set() =~= old(v)@.to_set().insert(x));
    }
}

/// Removes from a strictly increasing list; says whether the value was there.
fn remove_sorted(v: &mut Vec<usize>, x: usize) -> (found: bool)
    requires
        increasing(old(v)@),
    ensures
        increasing(final(v)@),
        final(v)@.to_set() == old(v)@.to_set().remove(x),
        found == old(v)@.to_set().contains(x),
{
    let mut i: usize = 0;
    while i < v.len()
        invariant
            i <= v@.len(),
            v@ == old(v)@,
            increasing(v@),
            forall|k: int| 0 <= k < i ==> v@[k] != x,
        decreases v@.len() - i,
    {
        if v[i] == x {
            v.remove(i);
            proof {
                assert forall|a: int, b: int| 0 <= a < b < v@.len() implies v@[a] < v@[b] by {
                    if b < i {
                    } else if a < i {
                        assert(v@[b] == old(v)@[b + 1]);
                    } else {
                        assert(v@[a] == old(v)@[a + 1]);
                        assert(v@[b] == old(v)@[b + 1]);
                    }
                }
                assert forall|y: usize| v@.to_set().contains(y) <==> old(v)@.to_set().remove(x).contains(y) by {
                    if v@.to_set().contains(y) {
                        let k = choose|k: int| 0 <= k < v@.len() && v@[k] == y;
                        if k < i {
                            assert(old(v)@[k] == y);
                            assert(old(v)@[k] < old(v)@[i as int]);
                        } else {
                            assert(old(v)@[k + 1] == y);
                            assert(old(v)@[i as int] < old(v)@[k + 1]);
                        }
                    }
                    if old(v)@.to_set().contains(y) && y != x {
                        let k = choose|k: int| 0 <= k < old(v)@.len() && old(v)@[k] == y;
                        if k < i {
                            assert(v@[k] == y);
                        } else {
                            assert(k != i);
                            assert(v@[k - 1] == y);
                        }
                    }
                }
                assert(v@.to_set() =~= old(v)@.to_set().remove(x));
                assert(old(v)@[i as int] == x);
            }
            return true;
        }
        i = i + 1;
    }
    proof {
        assert(!old(v)@.to_set().contains(x)) by {
            if old(v)@.to_set().contains(x) {
                let k = choose|k: int| 0 <= k < old(v)@.len() && old(v)@[k] == x;
                assert(v@[k] != x);
            }
        }
        assert(v@.to_set() =~= old(v)@.to_set().remove(x));
    }
    false
}

/// Sets the value of a watched cell, or starts watching it.
fn watch_put(v: &mut Vec<(usize, u8)>, cell: usize, value: u8)
    requires
        increasing_cells(old(v)@),
        cell < TAPE_SIZE,
        forall|i: int| 0 <= i < old(v)@.len() ==> (#[trigger] old(v)@[i]).0 < TAPE_SIZE,
    ensures
        increasing_cells(final(v)@),
        forall|i: int| 0 <= i < final(v)@.len() ==> (#[trigger] final(v)@[i]).0 < TAPE_SIZE,
        forall|c: usize, x: u8|
            #[trigger] final(v)@.contains((c, x)) <==> if c == cell {
                x == value
            } else {
                old(v)@.contains((c, x))
            },
{
    let mut i: usize = 0;
    while i < v.len()
        invariant
            i <= v@.len(),
            v@ == old(v)@,
            increasing_cells(v@),
            forall|k: int| 0 <= k < i ==> v@[k].0 < cell,
            cell < TAPE_SIZE,
            forall|k: int| 0 <= k < old(v)@.len() ==> (#[trigger] old(v)@[k]).0 < TAPE_SIZE,
        decreases v@.len() - i,
    {
        if v[i].0 == cell {
            v.set(i, (cell, value));
            proof {
                assert forall|c: usize, x: u8| #[trigger] v@.contains((c, x)) <==> if c == cell {
                    x == value
                } else {
                    old(v)@.contains((c, x))
                } by {
                    if v@.contains((c, x)) {
                        let k = choose|k: int| 0 <= k < v@.len() && v@[k] == (c, x);
                        if k != i {
                            assert(old(v)@[k] == (c, x));
                            assert(v@[k].0 != v@[i as int].0);
                        }
                    }
                    if c == cell && x == value {
                        assert(v@[i as int] == (c, x));
                    }
                    if c != cell && old(v)@.contains((c, x)) {
                        let k = choose|k: int| 0 <= k < old(v)@.len() && old(v)@[k] == (c, x);
                        assert(k != i);
                        assert(v@[k] == (c, x));
                    }
                }
                assert forall|k: int| 0 <= k < v@.len() implies (#[trigger] v@[k]).0 < TAPE_SIZE by {
                    assert(v@[k].0 == old(v)@[k].0);
                }
            }
            proof {
                assert forall|a: int, b: int| 0 <= a < b < v@.len() implies v@[a].0 < v@[b].0 by {
                    assert(v@[a].0 == old(v)@[a].0);
                    assert(v@[b].0 == old(v)@[b].0);
                }
            }
            return;
        }
        if v[i].0 > cell {
            v.insert(i, (cell, value));
            proof {
                assert forall|c: usize, x: u8| #[trigger] v@.contains((c, x)) <==> if c == cell {
                    x == value
                } else {
                    old(v)@.contains((c, x))
                } by {
                    if v@.contains((c, x)) {
                        let k = choose|k: int| 0 <= k < v@.len() && v@[k] == (c, x);
                        if k < i {
                            assert(old(v)@[k] == (c, x));
                        } else if k > i {
                            assert(old(v)@[k - 1] == (c, x));
                        }
                    }
                    if c == cell && x == value {
                        assert(v@[i as int] == (c, x));
                    }
                    if old(v)@.contains((c, x)) {
                        let k = choose|k: int| 0 <= k < old(v)@.len() && old(v)@[k] == (c, x);
                        if k < i {
                            assert(v@[k] == (c, x));
                        } else {
                            assert(v@[k + 1] == (c, x));
                        }
                    }
                }
                assert forall|a: int, b: int| 0 <= a < b < v@.len() implies v@[a].0 < v@[b].0 by {
                    if b < i {
                    } else if b == i {
                    } else if a == i {
                        assert(v@[b] == old(v)@[b - 1]);
                    } else if a < i {
                        assert(v@[b] == old(v)@[b - 1]);
                    } else {
                        assert(v@[a] == old(v)@[a - 1]);
                        assert(v@[b] == old(v)@[b - 1]);
                    }
                }
                assert forall|k: int| 0 <= k < v@.len() implies (#[trigger] v@[k]).0 < TAPE_SIZE by {
                    if k < i {
                        assert(v@[k] == old(v)@[k]);
                    } else if k > i {
                        assert(v@[k] == old(v)@[k - 1]);
                    }
                }
            }
            return;
        }
        i = i + 1;
    }
    v.push((cell, value));
    proof {
        assert forall|c: usize, x: u8| #[trigger] v@.contains((c, x)) <==> if c == cell {
            x == value
        } else {
            old(v)@.contains((c, x))
        } by {
            if v@.contains((c, x)) {
                let k = choose|k: int| 0 <= k < v@.len() && v@[k] == (c, x);
                if k < old(v)@.len() {
                    assert(old(v)@[k] == (c, x));
                }
            }
            if c == cell && x == value {
                assert(v@[old(v)@.len() as int] == (c, x));
            }
            if old(v)@.contains((c, x)) {
                let k = choose|k: int| 0 <= k < old(v)@.len() && old(v)@[k] == (c, x);
                assert(v@[k] == (c, x));
            }
        }
        assert forall|k: int| 0 <= k < v@.len() implies (#[trigger] v@[k]).0 < TAPE_SIZE by {
            if k < old(v)@.len() {
                assert(v@[k] == old(v)@[k]);
            }
        }
    }
}

/// Stops watching a cell; says whether it was watched.
fn watch_remove(v: &mut Vec<(usize, u8)>, cell: usize) -> (found: bool)
    requires
        increasing_cells(old(v)@),
        forall|i: int| 0 <= i < old(v)@.len() ==> (#[trigger] old(v)@[i]).0 < TAPE_SIZE,
    ensures
        increasing_cells(final(v)@),
        forall|i: int| 0 <= i < final(v)@.len() ==> (#[trigger] final(v)@[i]).0 < TAPE_SIZE,
        forall|c: usize, x: u8|
            #[trigger] final(v)@.contains((c, x)) <==> c != cell && old(v)@.contains((c, x)),
        found <==> exists|x: u8| #[trigger] old(v)@.contains((cell, x)),
{
    let mut i: usize = 0;
    while i < v.len()
        invariant
            i <= v@.len(),
            v@ == old(v)@,
            increasing_cells(v@),
            forall|k: int| 0 <= k < old(v)@.len() ==> (#[trigger] old(v)@[k]).0 < TAPE_SIZE,
            forall|k: int| 0 <= k < i ==> v@[k].0 != cell,
        decreases v@.len() - i,
    {
        if v[i].0 == cell {
            let ghost hit = v@[i as int];
            v.remove(i);
            proof {
                assert(old(v)@.contains((cell, hit.1)));
                assert forall|c: usize, x: u8| #[trigger] v@.contains((c, x)) <==> c != cell
                    && old(v)@.contains((c, x)) by {
                    if v@.contains((c, x)) {
                        let k = choose|k: int| 0 <= k < v@.len() && v@[k] == (c, x);
                        if k < i {
                            assert(old(v)@[k] == (c, x));
                            assert(old(v)@[k].0 < old(v)@[i as int].0);
                        } else {
                            assert(old(v)@[k + 1] == (c, x));
                            assert(old(v)@[i as int].0 < old(v)@[k + 1].0);
                        }
                    }
                    if c != cell && old(v)@.contains((c, x)) {
                        let k = choose|k: int| 0 <= k < old(v)@.len() && old(v)@[k] == (c, x);
                        if k < i {
                            assert(v@[k] == (c, x));
                        } else {
                            assert(k != i);
                            assert(v@[k - 1] == (c, x));
                        }
                    }
                }
                assert forall|k: int| 0 <= k < v@.len() implies (#[trigger] v@[k]).0 < TAPE_SIZE by {
                    if k < i {
                        assert(v@[k] == old(v)@[k]);
                    } else {
                        assert(v@[k] == old(v)@[k + 1]);
                    }
                }
                assert forall|a: int, b: int| 0 <= a < b < v@.len() implies v@[a].0 < v@[b].0 by {
                    if b < i {
                    } else if a < i {
                        assert(v@[b] == old(v)@[b + 1]);
                    } else {
                        assert(v@[a] == old(v)@[a + 1]);
                        assert(v@[b] == old(v)@[b + 1]);
                    }
                }
            }
            return true;
        }
        i = i + 1;
    }
    false
}

/// The first cell of a symbol's name and address.
fn find_symbol(symbols: &Vec<DebugSymbol>, name: &[char]) -> (r: Option<usize>)
    ensures
        r matches Some(i) ==> i < symbols@.len(),
        r matches Some(i) ==> first_symbol(symbols@, name@) == Some(i as int),
        r is None ==> first_symbol(symbols@, name@) is None,
{
    let mut i: usize = 0;
    while i < symbols.len()
        invariant
            i <= symbols@.len(),
            first_symbol(symbols@.take(i as int), name@) is None,
        decreases symbols@.len() - i,
    {
        assert(symbols@.take(i + 1).drop_last() =~= symbols@.take(i as int));
        if same_text(name, symbols[i].name().as_str()) {
            proof {
                lemma_first_symbol_at(symbols@, name@, i as int);
            }
            return Some(i);
        }
        i = i + 1;
    }
    assert(symbols@.take(symbols@.len() as int) =~= symbols@);
    None
}

/// A name first found at `i` is found there in the whole list.
proof fn lemma_first_symbol_at(symbols: Seq<DebugSymbol>, name: Seq<char>, i: int)
    requires
        0 <= i < symbols.len(),
        first_symbol(symbols.take(i), name) is None,
        symbol_name(symbols[i])@ == name,
    ensures
        first_symbol(symbols, name) == Some(i),
    decreases symbols.len(),
{
    assert(symbols.take(i + 1).drop_last() =~= symbols.take(i));
    if i + 1 < symbols.len() {
        let d = symbols.drop_last();
        assert(d.take(i) =~= symbols.take(i));
        lemma_first_symbol_at(d, name, i);
    }
    assert(symbols.take(symbols.len() as int) =~= symbols);
}

fn parse_required_usize(value: Option<&Vec<char>>, message: &str) -> (r: Result<usize, String>)
    ensures
        value is Some && parsed_unsigned(value->0@, usize::MAX as nat) is Some ==> r == Ok::<
            usize,
            String,
        >(parsed_unsigned(value->0@, usize::MAX as nat)->0 as usize),
        (value is None || parsed_unsigned(value->0@, usize::MAX as nat) is None) ==> (r matches Err(
            e,
        ) && e@ == message@),
{
    match value {
        None => Err(text(message)),
        Some(v) => match parse_unsigned(v.as_slice(), usize::MAX) {
            Some(n) => Ok(n),
            None => Err(text(message)),
        },
    }
}

fn parse_optional_usize(value: Option<&Vec<char>>, default: usize) -> (r: Result<usize, String>)
    ensures
        value is None ==> r == Ok::<usize, String>(default),
        value is Some && parsed_unsigned(value->0@, usize::MAX as nat) is Some ==> r == Ok::<
            usize,
            String,
        >(parsed_unsigned(value->0@, usize::MAX as nat)->0 as usize),
{
    match value {
        None => Ok(default),
        Some(v) => match parse_unsigned(v.as_slice(), usize::MAX) {
            Some(n) => Ok(n),
            None => Err(quoted("expected unsigned integer, found ", v.as_slice(), "")),
        },
    }
}

fn parse_byte_arg(value: Option<&Vec<char>>) -> (r: Result<u8, String>)
    ensures
        value is Some && parsed_unsigned(value->0@, 255) is Some ==> r == Ok::<u8, String>(
            parsed_unsigned(value->0@, 255)->0 as u8,
        ),
{
    match value {
        None => Err(text("set requires a byte value")),
        Some(v) => match parse_unsigned(v.as_slice(), 255) {
            Some(n) => Ok(n as u8),
            None => Err(quoted("expected byte value, found ", v.as_slice(), "")),
        },
    }
}

fn parse_inst_arg(value: &Vec<char>) -> (r: Result<Inst, String>)
    ensures
        value@.len() == 1 && inst_of(value@[0]) is Some ==> r == Ok::<Inst, String>(
            inst_of(value@[0])->0,
        ),
{
    if value.len() == 0 {
        return Err(text("next requires a BF instruction"));
    }
    if value.len() > 1 {
        return Err(quoted("expected one BF instruction, found ", value.as_slice(), ""));
    }
    match Inst::from_char(value[0]) {
        Some(i) => Ok(i),
        None => Err(quoted("expected BF instruction, found ", value.as_slice(), "")),
    }
}

/// Index of the first `c` in `s` (its length when there is none).
pub open spec fn find_char(s: Seq<char>, c: char) -> nat
    decreases s.len(),
{
    if s.len() == 0 {
        0
    } else if s[0] == c {
        0
    } else {
        1 + find_char(s.drop_first(), c)
    }
}

proof fn lemma_find_char(s: Seq<char>, c: char, p: int)
    requires
        0 <= p <= s.len(),
        forall|k: int| 0 <= k < p ==> s[k] != c,
        p == s.len() || s[p] == c,
    ensures
        find_char(s, c) == p,
    decreases s.len(),
{
    if s.len() > 0 && p > 0 {
        lemma_find_char(s.drop_first(), c, p - 1);
    }
}

/// The text of an error that quotes `cs`.
pub open spec fn quoted_text(prefix: Seq<char>, cs: Seq<char>) -> Seq<char> {
    prefix + "`"@ + cs + "`"@
}

proof fn lemma_quoted_text(prefix: Seq<char>, cs: Seq<char>)
    ensures
        prefix + "`"@ + cs + "`"@ + ""@ == quoted_text(prefix, cs),
{
    reveal_strlit("");
    assert(prefix + "`"@ + cs + "`"@ + ""@ =~= quoted_text(prefix, cs));
}

/// Copies `target[from..to]`.
fn copy_range(target: &Vec<char>, from: usize, to: usize) -> (r: Vec<char>)
    requires
        from <= to <= target@.len(),
    ensures
        r@ == target@.subrange(from as int, to as int),
{
    let mut r: Vec<char> = Vec::new();
    let mut k: usize = from;
    while k < to
        invariant
            from <= k <= to <= target@.len(),
            r@ == target@.subrange(from as int, k as int),
        decreases to - k,
    {
        r.push(target[k]);
        k = k + 1;
    }
    r
}

/// For `name[index]`: the name and the index; `None` when the target has no `[`.
fn parse_indexed_symbol(target: &Vec<char>) -> (r: Result<Option<(Vec<char>, usize)>, String>)
    ensures
        ({
            let t = target@;
            let open = find_char(t, '[') as int;
            let index = t.subrange(open + 1, t.len() - 1);
            if open == t.len() {
                r matches Ok(None)
            } else if t.last() != ']' || open == 0 || index.len() == 0 {
                r matches Err(e) && e@ == quoted_text("invalid indexed symbol "@, t)
            } else {
                match parsed_unsigned(index, usize::MAX as nat) {
                    Some(v) => r matches Ok(Some((name, i))) && name@ == t.take(open) && i == v,
                    None => r matches Err(e) && e@ == quoted_text("invalid array index "@, index),
                }
            }
        }),
{
    let mut open: usize = 0;
    while open < target.len() && target[open] != '['
        invariant
            open <= target@.len(),
            forall|k: int| 0 <= k < open ==> target@[k] != '[',
        decreases target@.len() - open,
    {
        open = open + 1;
    }
    proof {
        lemma_find_char(target@, '[', open as int);
        lemma_quoted_text("invalid indexed symbol "@, target@);
    }
    if open == target.len() {
        return Ok(None);
    }
    let n = target.len();
    if target[n - 1] != ']' {
        return Err(quoted("invalid indexed symbol ", target.as_slice(), ""));
    }
    let name = copy_range(target, 0, open);
    let index = copy_range(target, open + 1, n - 1);
    if name.len() == 0 || index.len() == 0 {
        return Err(quoted("invalid indexed symbol ", target.as_slice(), ""));
    }
    proof {
        assert(name@ =~= target@.take(open as int));
    }
    proof {
        lemma_quoted_text("invalid array index "@, index@);
    }
    match parse_unsigned(index.as_slice(), usize::MAX) {
        Some(i) => Ok(Some((name, i))),
        None => Err(quoted("invalid array index ", index.as_slice(), "")),
    }
}

/// For `name+offset`: the name and the offset; `None` when the target has no `+`.
fn parse_offset_symbol(target: &Vec<char>) -> (r: Result<Option<(Vec<char>, usize)>, String>)
    ensures
        ({
            let t = target@;
            let plus = find_char(t, '+') as int;
            let offset = t.subrange(plus + 1, t.len() as int);
            if plus == t.len() {
                r matches Ok(None)
            } else if plus == 0 || offset.len() == 0 {
                r matches Err(e) && e@ == quoted_text("invalid symbol offset "@, t)
            } else {
                match parsed_unsigned(offset, usize::MAX as nat) {
                    Some(v) => r matches Ok(Some((name, o))) && name@ == t.take(plus) && o == v,
                    None => r matches Err(e) && e@ == quoted_text("invalid symbol offset "@, offset),
                }
            }
        }),
{
    let mut plus: usize = 0;
    while plus < target.len() && target[plus] != '+'
        invariant
            plus <= target@.len(),
            forall|k: int| 0 <= k < plus ==> target@[k] != '+',
        decreases target@.len() - plus,
    {
        plus = plus + 1;
    }
    proof {
        lemma_find_char(target@, '+', plus as int);
        lemma_quoted_text("invalid symbol offset "@, target@);
    }
    if plus == target.len() {
        return Ok(None);
    }
    let name = copy_range(target, 0, plus);
    let offset = copy_range(target, plus + 1, target.len());
    if name.len() == 0 || offset.len() == 0 {
        return Err(quoted("invalid symbol offset ", target.as_slice(), ""));
    }
    proof {
        assert(name@ =~= target@.take(plus as int));
    }
    proof {
        lemma_quoted_text("invalid symbol offset "@, offset@);
    }
    match parse_unsigned(offset.as_slice(), usize::MAX) {
        Some(o) => Ok(Some((name, o))),
        None => Err(quoted("invalid symbol offset ", offset.as_slice(), "")),
    }
}

/// One cell of a symbol: a scalar only at offset 0, an array element within its length.
fn resolve_symbol_offset(symbol: &DebugSymbol, offset: usize) -> (r: Result<Address, String>)
    ensures
        r matches Ok(a) ==> a.len == 1,
        r is Ok <==> match *symbol {
            DebugSymbol::Cell { .. } => offset == 0,
            DebugSymbol::Array { first, len, .. } => offset < len && first + offset <= usize::MAX,
        },
        r matches Ok(a) ==> a.start == match *symbol {
            DebugSymbol::Cell { cell, .. } => cell as int,
            DebugSymbol::Array { first, .. } => first + offset,
        },
{
    match symbol {
        DebugSymbol::Cell { name, cell } => {
            if offset == 0 {
                Ok(Address { start: *cell, len: 1 })
            } else {
                let mut m = text("scalar symbol `");
                push_str(&mut m, name.as_str());
                push_str(&mut m, "` does not support offset ");
                push_decimal(&mut m, offset as u64);
                Err(m)
            }
        },
        DebugSymbol::Array { name, first, len, .. } => {
            if offset >= *len {
                let mut m = with_number("array index ", offset);
                push_str(&mut m, " is out of bounds for `");
                push_str(&mut m, name.as_str());
                push_str(&mut m, "` length ");
                push_decimal(&mut m, *len as u64);
                Err(m)
            } else if *first > usize::MAX - offset {
                Err(with_number("cell is out of range for offset ", offset))
            } else {
                Ok(Address { start: *first + offset, len: 1 })
            }
        },
    }
}

fn write_symbol(symbol: &DebugSymbol, out: &mut Vec<u8>)
    ensures
        final(out)@ == old(out)@ + line_bytes(symbol_text(*symbol)),
{
    match symbol {
        DebugSymbol::Cell { name, cell } => {
            let mut m = name.clone();
            push_str(&mut m, " cell ");
            push_decimal(&mut m, *cell as u64);
            emit_line(out, &m);
        },
        DebugSymbol::Array { name, base, len, first, last } => {
            let mut m = name.clone();
            push_str(&mut m, " array base ");
            push_decimal(&mut m, *base as u64);
            push_str(&mut m, " len ");
            push_decimal(&mut m, *len as u64);
            push_str(&mut m, " data ");
            push_decimal(&mut m, *first as u64);
            push_str(&mut m, " to ");
            push_decimal(&mut m, *last as u64);
            emit_line(out, &m);
        },
    }
}

/// The text `help` prints.
pub open spec fn help_chars() -> Seq<char> {
    "Commands:\n  r                  Restart program\n  c                  Continue until breakpoint, Ctrl-C, or halt\n  s [n]              Step n raw BF instructions\n  info               Show pc, instruction, pointer, and breakpoint counts\n  next <inst>        Continue until next matching BF instruction\n  b <pc>             Set breakpoint at instruction index\n  delete <pc>        Delete breakpoint\n  breakpoints        List breakpoints\n  watch <addr|sym>   Stop when a cell changes\n  unwatch <addr|sym> Remove watchpoint by cell or symbol\n  watchpoints        List watchpoints\n  set <addr|sym> <v> Set one tape cell\n  pc                 Show current instruction index\n  inst               Show current instruction\n  code [n]           Show instructions around pc\n  x[/FMT] <addr|sym> Examine tape. FMT is count plus d x c and b h w g\n  symbols            Show Sane symbols from sanec -s\n  symbol <name>      Show one symbol\n  q                  Exit debugger\n"@
}

fn help_text() -> (r: String)
    ensures
        r@ == help_chars(),
{
    text(
        "Commands:\n  r                  Restart program\n  c                  Continue until breakpoint, Ctrl-C, or halt\n  s [n]              Step n raw BF instructions\n  info               Show pc, instruction, pointer, and breakpoint counts\n  next <inst>        Continue until next matching BF instruction\n  b <pc>             Set breakpoint at instruction index\n  delete <pc>        Delete breakpoint\n  breakpoints        List breakpoints\n  watch <addr|sym>   Stop when a cell changes\n  unwatch <addr|sym> Remove watchpoint by cell or symbol\n  watchpoints        List watchpoints\n  set <addr|sym> <v> Set one tape cell\n  pc                 Show current instruction index\n  inst               Show current instruction\n  code [n]           Show instructions around pc\n  x[/FMT] <addr|sym> Examine tape. FMT is count plus d x c and b h w g\n  symbols            Show Sane symbols from sanec -s\n  symbol <name>      Show one symbol\n  q                  Exit debugger\n",
    )
}

/// The line the debugger greets with.
pub fn banner() -> (s: String)
    ensures
        s@ == "sanei debug mode. Type `help` for commands. Ctrl-C pauses continue."@,
{
    text("sanei debug mode. Type `help` for commands. Ctrl-C pauses continue.")
}

/// The prompt shown before each command.
pub fn prompt() -> (s: String)
    ensures
        s@ == "sane-db> "@,
{
    text("sane-db> ")
}

fn contains_sorted(v: &Vec<usize>, x: usize) -> (b: bool)
    ensures
        b == v@.contains(x),
{
    let mut i: usize = 0;
    while i < v.len()
        invariant
            i <= v@.len(),
            forall|k: int| 0 <= k < i ==> v@[k] != x,
        decreases v@.len() - i,
    {
        if v[i] == x {
            return true;
        }
        i = i + 1;
    }
    false
}

/// Ten to the power `k`.
spec fn pow10(k: nat) -> nat
    decreases k,
{
    if k == 0 {
        1
    } else {
        10 * pow10((k - 1) as nat)
    }
}

proof fn lemma_decimal_len_pos(n: nat)
    ensures
        decimal_chars(n).len() >= 1,
    decreases n,
{
    if n >= 10 {
        lemma_decimal_len_pos(n / 10);
    }
}

/// A number below ten to the `k` has at most `k` digits.
proof fn lemma_decimal_len_bound(n: nat, k: nat)
    requires
        n < pow10(k),
        k >= 1,
    ensures
        decimal_chars(n).len() <= k,
    decreases k,
{
    if n >= 10 {
        assert(k >= 2) by {
            if k == 0 {
            } else if k == 1 {
                assert(pow10(1) == 10 * pow10(0));
            }
        }
        assert(n / 10 < pow10((k - 1) as nat)) by (nonlinear_arith)
            requires
                n < pow10(k),
                pow10(k) == 10 * pow10((k - 1) as nat),
        ;
        lemma_decimal_len_bound(n / 10, (k - 1) as nat);
    }
}

/// Number of decimal digits of `n`.
fn decimal_width(n: usize) -> (w: usize)
    ensures
        w == decimal_chars(n as nat).len(),
{
    let mut w: usize = 1;
    let mut v = n;
    proof {
        assert(pow10(20) == 100000000000000000000nat) by {
            reveal_with_fuel(pow10, 21);
        }
        lemma_decimal_len_bound(n as nat, 20);
    }
    while v >= 10
        invariant
            w <= 20,
            1 <= w,
            decimal_chars(n as nat).len() == w - 1 + decimal_chars(v as nat).len(),
            decimal_chars(n as nat).len() <= 20,
            decimal_chars(v as nat).len() >= 1,
        decreases v,
    {
        proof {
            assert(decimal_chars(v as nat) == decimal_chars((v / 10) as nat).push(digit_char((v % 10) as nat)));
            lemma_decimal_len_pos((v / 10) as nat);
        }
        v = v / 10;
        if w < 20 {
            w = w + 1;
        }
    }
    w
}

impl Debugger {
    pub closed spec fn wf(&self) -> bool {
        &&& self.vm.wf()
        &&& forall|i: int| 0 <= i < self.vm.watchpoints@.len() ==> (#[trigger] self.vm.watchpoints@[i]).0 < TAPE_SIZE
    }

    /// The machine the session drives.
    pub closed spec fn machine(&self) -> DebugVm {
        self.vm
    }

    /// The words of the last command typed, which an empty line runs again.
    pub closed spec fn last_words(&self) -> Seq<Seq<char>> {
        words_of(self.last_command@)
    }

    /// Whether no command is running.
    pub closed spec fn idle(&self) -> bool {
        self.task == Task::Idle
    }

    /// A continue command that has just started and can run its first instruction now: the
    /// program has not halted, the instruction is not an input, and there is fuel for it.
    spec fn continue_ready(&self, fuel: u64) -> bool {
        &&& self.task == (Task::Continue { first: true })
        &&& !self.vm.halted
        &&& self.vm.pc < self.vm.program.insts@.len()
        &&& self.vm.program.insts@[self.vm.pc as int] != Inst::Input
        &&& fuel > 0
    }

    /// A step command of one instruction that can run it now: the program has not halted,
    /// the instruction is not an input, and there is fuel for it.
    spec fn one_step_ready(&self, fuel: u64) -> bool {
        &&& self.task == (Task::Step { remaining: 1 })
        &&& !self.vm.halted
        &&& self.vm.pc < self.vm.program.insts@.len()
        &&& self.vm.program.insts@[self.vm.pc as int] != Inst::Input
        &&& fuel > 0
    }

    /// Whether a running `continue` finds the program halted: it then stops and reports it.
    pub closed spec fn continue_halted(&self) -> bool {
        self.task matches Task::Continue { .. } && self.vm.halted
    }

    /// The line a halted `continue` reports.
    pub closed spec fn halted_line(&self) -> Seq<u8> {
        line_bytes("halted pc="@ + decimal_chars(self.vm.pc as nat))
    }

    /// Whether no command is running.
    pub fn is_idle(&self) -> (b: bool)
        ensures
            b == self.idle(),
    {
        self.task == Task::Idle
    }

    pub fn new(program: DebugProgram) -> (d: Self)
        requires
            program.wf(),
        ensures
            d.wf(),
            d.idle(),
    {
        let vm = DebugVm {
            program,
            tape: vec![0u8; TAPE_SIZE],
            ptr: 0,
            pc: 0,
            halted: false,
            breakpoints: Vec::new(),
            watchpoints: Vec::new(),
        };
        Debugger { vm, last_command: Vec::new(), task: Task::Idle }
    }

    fn current_inst_char(&self) -> (c: char)
        requires
            self.wf(),
        ensures
            c == (if self.vm.pc < self.vm.program.insts@.len() {
                char_of(self.vm.program.insts@[self.vm.pc as int])
            } else {
                ' '
            }),
    {
        if self.vm.pc < self.vm.program.insts.len() {
            self.vm.program.insts[self.vm.pc].as_char()
        } else {
            ' '
        }
    }

    spec fn state_chars(&self) -> Seq<char> {
        "pc="@ + decimal_chars(self.vm.pc as nat) + " inst='"@ + seq![
            if self.vm.pc < self.vm.program.insts@.len() {
                char_of(self.vm.program.insts@[self.vm.pc as int])
            } else {
                ' '
            },
        ] + "' ptr="@ + decimal_chars(self.vm.ptr as nat) + " cell["@ + decimal_chars(
            self.vm.ptr as nat,
        ) + "]="@ + decimal_chars(self.vm.tape@[self.vm.ptr as int] as nat) + if self.vm.halted {
            " state=halted"@
        } else {
            " state=paused"@
        }
    }

    fn state_text(&self) -> (r: String)
        requires
            self.wf(),
        ensures
            r@ == self.state_chars(),
    {
        let mut m = with_number("pc=", self.vm.pc);
        push_str(&mut m, " inst='");
        push_inst_char(&mut m, self.current_inst_char());
        push_str(&mut m, "' ptr=");
        push_decimal(&mut m, self.vm.ptr as u64);
        push_str(&mut m, " cell[");
        push_decimal(&mut m, self.vm.ptr as u64);
        push_str(&mut m, "]=");
        push_decimal(&mut m, self.vm.tape[self.vm.ptr] as u64);
        push_str(&mut m, if self.vm.halted { " state=halted" } else { " state=paused" });
        m
    }

    fn info(&self, out: &mut Vec<u8>)
        requires
            self.wf(),
        ensures
            final(out)@ == old(out)@ + line_bytes(
                self.state_chars() + " breakpoints="@ + decimal_chars(self.vm.breakpoints@.len())
                    + " watchpoints="@ + decimal_chars(self.vm.watchpoints@.len()),
            ),
    {
        let mut m = self.state_text();
        push_str(&mut m, " breakpoints=");
        push_decimal(&mut m, self.vm.breakpoints.len() as u64);
        push_str(&mut m, " watchpoints=");
        push_decimal(&mut m, self.vm.watchpoints.len() as u64);
        emit_line(out, &m);
    }

    fn status(&self, out: &mut Vec<u8>)
        requires
            self.wf(),
        ensures
            final(out)@ == old(out)@ + line_bytes(self.state_chars()),
    {
        emit_line(out, &self.state_text());
    }

    fn breakpoints(&self, out: &mut Vec<u8>)
        ensures
            final(out)@ == old(out)@ + if self.vm.breakpoints@.len() == 0 {
                line_bytes("no breakpoints"@)
            } else {
                breakpoint_lines(self.vm.breakpoints@)
            },
    {
        if self.vm.breakpoints.len() == 0 {
            emit_line(out, &text("no breakpoints"));
        } else {
            let mut i: usize = 0;
            while i < self.vm.breakpoints.len()
                invariant
                    i <= self.vm.breakpoints@.len(),
                    out@ == old(out)@ + breakpoint_lines(self.vm.breakpoints@.take(i as int)),
                decreases self.vm.breakpoints@.len() - i,
            {
                let ghost t = self.vm.breakpoints@.take(i + 1);
                assert(t.drop_last() =~= self.vm.breakpoints@.take(i as int));
                emit_line(out, &with_number("breakpoint pc=", self.vm.breakpoints[i]));
                i = i + 1;
                assert(out@ =~= old(out)@ + breakpoint_lines(self.vm.breakpoints@.take(i as int)));
            }
            assert(self.vm.breakpoints@.take(i as int) =~= self.vm.breakpoints@);
        }
    }

    fn watchpoints(&self, out: &mut Vec<u8>)
        ensures
            final(out)@ == old(out)@ + if self.vm.watchpoints@.len() == 0 {
                line_bytes("no watchpoints"@)
            } else {
                watchpoint_lines(self.vm.watchpoints@)
            },
    {
        if self.vm.watchpoints.len() == 0 {
            emit_line(out, &text("no watchpoints"));
        } else {
            let mut i: usize = 0;
            while i < self.vm.watchpoints.len()
                invariant
                    i <= self.vm.watchpoints@.len(),
                    out@ == old(out)@ + watchpoint_lines(self.vm.watchpoints@.take(i as int)),
                decreases self.vm.watchpoints@.len() - i,
            {
                let ghost t = self.vm.watchpoints@.take(i + 1);
                assert(t.drop_last() =~= self.vm.watchpoints@.take(i as int));
                let (cell, value) = self.vm.watchpoints[i];
                let mut m = with_number("watchpoint cell=", cell);
                push_str(&mut m, " value=");
                push_decimal(&mut m, value as u64);
                emit_line(out, &m);
                i = i + 1;
                assert(out@ =~= old(out)@ + watchpoint_lines(self.vm.watchpoints@.take(i as int)));
            }
            assert(self.vm.watchpoints@.take(i as int) =~= self.vm.watchpoints@);
        }
    }

    /// Reports the first watched cell, in cell order, whose value changed, and records its new
    /// value.
    fn check_watchpoints(&mut self, out: &mut Vec<u8>) -> (hit: bool)
        requires
            old(self).wf(),
        ensures
            final(self).wf(),
            final(self).vm.tape == old(self).vm.tape,
            final(self).vm.ptr == old(self).vm.ptr,
            final(self).vm.pc == old(self).vm.pc,
            final(self).vm.halted == old(self).vm.halted,
            final(self).vm.program == old(self).vm.program,
            final(self).vm.breakpoints == old(self).vm.breakpoints,
            final(self).task == old(self).task,
            ({
                let w = old(self).vm.watchpoints@;
                let tape = old(self).vm.tape@;
                let k = first_changed(w, tape, 0);
                &&& hit <==> k < w.len()
                &&& !hit ==> final(self).vm.watchpoints == old(self).vm.watchpoints && final(out)@
                    == old(out)@
                &&& hit ==> final(self).vm.watchpoints@ == w.update(k, (w[k].0, tape[w[k].0 as int]))
                    && final(out)@ == old(out)@ + line_bytes(
                    "watchpoint cell="@ + decimal_chars(w[k].0 as nat) + " old="@ + decimal_chars(
                        w[k].1 as nat,
                    ) + " new="@ + decimal_chars(tape[w[k].0 as int] as nat),
                )
            }),
    {
        let mut i: usize = 0;
        while i < self.vm.watchpoints.len()
            invariant
                first_changed(old(self).vm.watchpoints@, old(self).vm.tape@, 0) == first_changed(
                    old(self).vm.watchpoints@,
                    old(self).vm.tape@,
                    i as int,
                ),
                i <= self.vm.watchpoints@.len(),
                out == old(out),
                self.wf(),
                self.vm.tape == old(self).vm.tape,
                self.vm.ptr == old(self).vm.ptr,
                self.vm.pc == old(self).vm.pc,
                self.vm.halted == old(self).vm.halted,
                self.vm.program == old(self).vm.program,
                self.vm.breakpoints == old(self).vm.breakpoints,
                self.task == old(self).task,
                self.vm.watchpoints == old(self).vm.watchpoints,
            decreases self.vm.watchpoints@.len() - i,
        {
            let (cell, old_value) = self.vm.watchpoints[i];
            let new_value = self.vm.tape[cell];
            if new_value != old_value {
                let ghost before = self.vm.watchpoints@;
                self.vm.watchpoints.set(i, (cell, new_value));
                proof {
                    assert forall|a: int, b: int| 0 <= a < b < self.vm.watchpoints@.len() implies self.vm.watchpoints@[a].0 < self.vm.watchpoints@[b].0 by {
                        assert(self.vm.watchpoints@[a].0 == before[a].0);
                        assert(self.vm.watchpoints@[b].0 == before[b].0);
                    }
                    assert forall|k: int| 0 <= k < self.vm.watchpoints@.len() implies (#[trigger] self.vm.watchpoints@[k]).0 < TAPE_SIZE by {
                        assert(self.vm.watchpoints@[k].0 == before[k].0);
                    }
                }
                let mut m = with_number("watchpoint cell=", cell);
                push_str(&mut m, " old=");
                push_decimal(&mut m, old_value as u64);
                push_str(&mut m, " new=");
                push_decimal(&mut m, new_value as u64);
                emit_line(out, &m);
                proof {
                    assert(self.vm.watchpoints@ == before.update(i as int, (cell, new_value)));
                }
                return true;
            }
            i = i + 1;
        }
        false
    }

    fn inst(&self, out: &mut Vec<u8>)
        requires
            self.wf(),
        ensures
            final(out)@ == old(out)@ + line_bytes(
                "inst pc="@ + decimal_chars(self.vm.pc as nat) + if self.vm.pc
                    < self.vm.program.insts@.len() {
                    " op='"@ + seq![char_of(self.vm.program.insts@[self.vm.pc as int])] + "'"@
                } else {
                    " op=<halt>"@
                },
            ),
    {
        let mut m = with_number("inst pc=", self.vm.pc);
        if self.vm.pc < self.vm.program.insts.len() {
            push_str(&mut m, " op='");
            push_inst_char(&mut m, self.vm.program.insts[self.vm.pc].as_char());
            push_str(&mut m, "'");
        } else {
            push_str(&mut m, " op=<halt>");
        }
        assert(m@ =~= "inst pc="@ + decimal_chars(self.vm.pc as nat) + if self.vm.pc
            < self.vm.program.insts@.len() {
            " op='"@ + seq![char_of(self.vm.program.insts@[self.vm.pc as int])] + "'"@
        } else {
            " op=<halt>"@
        });
        emit_line(out, &m);
    }

    /// The instructions within `radius` of the current one, marking it and the breakpoints.
    fn code(&self, radius: usize, out: &mut Vec<u8>)
        requires
            self.wf(),
        ensures
            final(out)@ == old(out)@ + code_bytes(
                self.vm,
                if self.vm.pc >= radius { self.vm.pc - radius } else { 0 },
                if self.vm.pc + radius + 1 < self.vm.program.insts@.len() {
                    self.vm.pc + radius + 1
                } else {
                    self.vm.program.insts@.len() as int
                },
            ),
    {
        let pc = self.vm.pc;
        let start = if pc >= radius { pc - radius } else { 0 };
        let reach = if pc <= usize::MAX - radius { pc + radius } else { usize::MAX };
        let after = if reach < usize::MAX { reach + 1 } else { usize::MAX };
        let n = self.vm.program.insts.len();
        let end = if after < n { after } else { n };
        let ghost out0 = out@;
        let mut i = start;
        if i >= end {
            assert(out@ == out0 + code_bytes(self.vm, start as int, end as int));
        }
        while i < end
            invariant
                end <= n,
                n == self.vm.program.insts@.len(),
                start <= i <= end || (i == start && start >= end),
                pc == self.vm.pc,
                out@ == out0 + code_bytes(self.vm, start as int, i as int),
            decreases end - i,
        {
            let mut m = text(if i == pc { "=>" } else { "  " });
            let bp = contains_sorted(&self.vm.breakpoints, i);
            push_str(&mut m, if bp { " B " } else { "   " });
            let mut num = String::new();
            push_decimal(&mut num, i as u64);
            let mut pad = decimal_width(i);
            let ghost m0 = m@;
            let ghost w = pad;
            while pad < 6
                invariant
                    w <= pad,
                    pad <= 6 || pad == w,
                    m@ == m0 + Seq::new((pad - w) as nat, |_k: int| ' '),
                decreases 6 - pad,
            {
                push_str(&mut m, " ");
                proof {
                    reveal_strlit(" ");
                    assert(Seq::new((pad + 1 - w) as nat, |_k: int| ' ') =~= Seq::new(
                        (pad - w) as nat,
                        |_k: int| ' ',
                    ) + " "@);
                }
                pad = pad + 1;
            }
            push_str(&mut m, num.as_str());
            push_str(&mut m, " ");
            push_inst_char(&mut m, self.vm.program.insts[i].as_char());
            proof {
                assert(Seq::new((pad - w) as nat, |_k: int| ' ') =~= Seq::new(
                    if w < 6 { (6 - w) as nat } else { 0 },
                    |_k: int| ' ',
                ));
                assert(m@ =~= code_line(self.vm, i as int));
            }
            emit_line(out, &m);
            proof {
                assert(out@ =~= out0 + code_bytes(self.vm, start as int, i + 1));
            }
            i = i + 1;
        }
    }

    /// The little-endian value of `size` cells from `start`.
    fn read_sized_value(&self, start: usize, size: usize) -> (r: Result<u64, String>)
        requires
            self.wf(),
            1 <= size <= 8,
        ensures
            r is Ok <==> start + size <= TAPE_SIZE,
            r matches Ok(v) ==> v == le_value(self.vm.tape@.subrange(start as int, start + size)),
            r matches Err(e) ==> e@ == if start + size > usize::MAX {
                "examine range is too large"@
            } else {
                "cell "@ + decimal_chars(start as nat) + " is out of bounds"@
            },
    {
        if start > usize::MAX - size {
            return Err(text("examine range is too large"));
        }
        let end = start + size;
        if end > self.vm.tape.len() {
            let mut m = with_number("cell ", start);
            push_str(&mut m, " is out of bounds");
            return Err(m);
        }
        let mut value: u64 = 0;
        let mut i = end;
        assert(self.vm.tape@.subrange(end as int, end as int) =~= Seq::<u8>::empty());
        while i > start
            invariant
                start <= i <= end,
                end == start + size,
                1 <= size <= 8,
                end <= self.vm.tape@.len(),
                value == le_value(self.vm.tape@.subrange(i as int, end as int)),
            decreases i - start,
        {
            let ghost rest = self.vm.tape@.subrange(i as int, end as int);
            i = i - 1;
            proof {
                lemma_le_bound(rest);
                lemma_pow256_mono(rest.len(), 7);
                reveal_with_fuel(pow256, 8);
                let cur = self.vm.tape@.subrange(i as int, end as int);
                assert(cur.drop_first() =~= rest);
                assert(cur[0] == self.vm.tape@[i as int]);
                vstd::arithmetic::div_mod::lemma_small_mod(value as nat * 256, 0x1_0000_0000_0000_0000);
            }
            value = value.wrapping_mul(256).wrapping_add(self.vm.tape[i] as u64);
        }
        Ok(value)
    }

    /// Shows `count` values (by default enough to cover the target) from a cell or symbol.
    #[verifier::spinoff_prover]
    fn examine(&self, target: &Vec<char>, format: ExamineFormat, out: &mut Vec<u8>) -> (r: Result<(), String>)
        requires
            self.wf(),
        ensures
            parsed_unsigned(target@, usize::MAX as nat) matches Some(n) ==> ({
                let size = size_bytes(format.size);
                let count = match format.count {
                    Some(c) => c as int,
                    None => 1,
                };
                &&& r is Ok <==> (count == 0 || n + count * size <= TAPE_SIZE)
                &&& r is Ok ==> final(out)@ == old(out)@ + examine_bytes(
                    self.vm.tape@,
                    n as int,
                    size,
                    format.kind,
                    count,
                )
            }),
    {
        let address = self.resolve_address(target)?;
        let ghost num = parsed_unsigned(target@, usize::MAX as nat) is Some;
        let ghost n = parsed_unsigned(target@, usize::MAX as nat)->0;
        let size = format.size.bytes();
        let count = match format.count {
            Some(c) => c,
            None => {
                let q = address.len / size;
                if address.len % size == 0 || q == usize::MAX {
                    q
                } else {
                    q + 1
                }
            },
        };
        proof {
            if num && format.count is None {
                assert(address.len == 1);
                let len = address.len;
                if size == 1 {
                    assert(len / size == 1 && len % size == 0) by (nonlinear_arith)
                        requires
                            len == 1,
                            size == 1,
                    ;
                } else {
                    assert(len / size == 0 && len % size == 1) by (nonlinear_arith)
                        requires
                            len == 1,
                            size >= 2,
                    ;
                }
                assert(count == 1);
            }
        }
        let ghost out0 = out@;
        let ghost fits = count == 0 || address.start + count * size <= TAPE_SIZE;
        let mut item: usize = 0;
        while item < count
            invariant
                self.wf(),
                1 <= size <= 8,
                size == size_bytes(format.size),
                item <= count,
                num == parsed_unsigned(target@, usize::MAX as nat) is Some,
                n == parsed_unsigned(target@, usize::MAX as nat)->0,
                num ==> address.start == n && address.len == 1,
                num ==> count == match format.count {
                    Some(c) => c as int,
                    None => 1,
                },
                fits == (count == 0 || address.start + count * size <= TAPE_SIZE),
                item == 0 || address.start + item * size <= TAPE_SIZE,
                out@ == out0 + examine_bytes(self.vm.tape@, address.start as int, size as int, format.kind, item as int),
            decreases count - item,
        {
            proof {
                if fits {
                    assert(item * size + size <= count * size) by (nonlinear_arith)
                        requires
                            item < count,
                            size >= 1,
                    ;
                    assert(item * size <= TAPE_SIZE);
                }
            }
            if item > usize::MAX / size {
                proof {
                    if fits {
                        assert(item <= usize::MAX / size) by (nonlinear_arith)
                            requires
                                item * size <= TAPE_SIZE,
                                size >= 1,
                        ;
                    }
                }
                return Err(text("examine range is too large"));
            }
            assert(item * size <= usize::MAX) by (nonlinear_arith)
                requires
                    item <= usize::MAX / size,
                    size >= 1,
            ;
            let step = item * size;
            if address.start > usize::MAX - step {
                return Err(text("examine range is too large"));
            }
            let cell = address.start + step;
            let value = self.read_sized_value(cell, size)?;
            let mut m = String::new();
            push_decimal(&mut m, cell as u64);
            push_str(&mut m, " ");
            let shown = format.kind.format(value, size);
            push_str(&mut m, shown.as_str());
            emit_line(out, &m);
            proof {
                assert((item + 1) * size == item * size + size) by (nonlinear_arith);
                assert(m@ =~= decimal_chars(cell as nat) + " "@ + examine_text(format.kind, value as nat, size as int));
            }
            item = item + 1;
        }
        Ok(())
    }

    fn set_cell(&mut self, cell: usize, value: u8, out: &mut Vec<u8>) -> (r: Result<(), String>)
        requires
            old(self).wf(),
        ensures
            final(self).wf(),
            cell < TAPE_SIZE ==> r is Ok && final(self).vm.tape@ == old(self).vm.tape@.update(
                cell as int,
                value,
            ),
            cell >= TAPE_SIZE ==> r is Err && final(self).vm.tape == old(self).vm.tape,
            final(self).vm.ptr == old(self).vm.ptr,
            final(self).vm.pc == old(self).vm.pc,
            final(self).vm.halted == old(self).vm.halted,
            final(self).vm.program == old(self).vm.program,
            final(self).vm.breakpoints == old(self).vm.breakpoints,
            final(self).task == old(self).task,
    {
        if cell >= self.vm.tape.len() {
            let mut m = with_number("cell ", cell);
            push_str(&mut m, " is out of bounds");
            return Err(m);
        }
        self.vm.tape.set(cell, value);
        let mut i: usize = 0;
        while i < self.vm.watchpoints.len()
            invariant
                self.wf(),
                self.vm.tape@ == old(self).vm.tape@.update(cell as int, value),
                self.vm.ptr == old(self).vm.ptr,
                self.vm.pc == old(self).vm.pc,
                self.vm.halted == old(self).vm.halted,
                self.vm.program == old(self).vm.program,
                self.vm.breakpoints == old(self).vm.breakpoints,
                self.task == old(self).task,
            decreases self.vm.watchpoints@.len() - i,
        {
            if self.vm.watchpoints[i].0 == cell {
                let ghost before = self.vm.watchpoints@;
                self.vm.watchpoints.set(i, (cell, value));
                proof {
                    assert forall|a: int, b: int| 0 <= a < b < self.vm.watchpoints@.len() implies self.vm.watchpoints@[a].0 < self.vm.watchpoints@[b].0 by {
                        assert(self.vm.watchpoints@[a].0 == before[a].0);
                        assert(self.vm.watchpoints@[b].0 == before[b].0);
                    }
                    assert forall|k: int| 0 <= k < self.vm.watchpoints@.len() implies (#[trigger] self.vm.watchpoints@[k]).0 < TAPE_SIZE by {
                        assert(self.vm.watchpoints@[k].0 == before[k].0);
                    }
                }
                break;
            }
            i = i + 1;
        }
        let mut m = with_number("cell[", cell);
        push_str(&mut m, "]=");
        push_decimal(&mut m, value as u64);
        emit_line(out, &m);
        Ok(())
    }

    fn symbols(&self, out: &mut Vec<u8>)
        ensures
            final(out)@ == old(out)@ + if self.vm.program.symbols@.len() == 0 {
                line_bytes("no symbols"@)
            } else {
                symbol_lines(self.vm.program.symbols@)
            },
    {
        if self.vm.program.symbols.len() == 0 {
            emit_line(out, &text("no symbols"));
            return;
        }
        let mut i: usize = 0;
        while i < self.vm.program.symbols.len()
            invariant
                i <= self.vm.program.symbols@.len(),
                out@ == old(out)@ + symbol_lines(self.vm.program.symbols@.take(i as int)),
            decreases self.vm.program.symbols@.len() - i,
        {
            let ghost t = self.vm.program.symbols@.take(i + 1);
            assert(t.drop_last() =~= self.vm.program.symbols@.take(i as int));
            write_symbol(&self.vm.program.symbols[i], out);
            i = i + 1;
            assert(out@ =~= old(out)@ + symbol_lines(self.vm.program.symbols@.take(i as int)));
        }
        assert(self.vm.program.symbols@.take(i as int) =~= self.vm.program.symbols@);
    }

    fn symbol(&self, name: &Vec<char>, out: &mut Vec<u8>)
        ensures
            final(out)@ == old(out)@ + match first_symbol(self.vm.program.symbols@, name@) {
                Some(i) => line_bytes(symbol_text(self.vm.program.symbols@[i])),
                None => line_bytes("symbol "@ + "`"@ + name@ + "`"@ + " not found"@),
            },
    {
        match find_symbol(&self.vm.program.symbols, name.as_slice()) {
            Some(i) => write_symbol(&self.vm.program.symbols[i], out),
            None => emit_line(out, &quoted("symbol ", name.as_slice(), " not found")),
        }
    }

    fn watch_address(&mut self, address: Address, out: &mut Vec<u8>) -> (r: Result<(), String>)
        requires
            old(self).wf(),
        ensures
            final(self).wf(),
            final(self).vm.tape == old(self).vm.tape,
            final(self).vm.ptr == old(self).vm.ptr,
            final(self).vm.pc == old(self).vm.pc,
            final(self).vm.halted == old(self).vm.halted,
            final(self).vm.program == old(self).vm.program,
            final(self).vm.breakpoints == old(self).vm.breakpoints,
            final(self).task == old(self).task,
            r is Ok <==> address.len == 0 || address.start + address.len <= old(self).vm.tape@.len(),
            r is Ok ==> forall|c: usize, x: u8|
                #[trigger] final(self).vm.watchpoints@.contains((c, x)) <==> if address.start <= c
                    < address.start + address.len {
                    x == old(self).vm.tape@[c as int]
                } else {
                    old(self).vm.watchpoints@.contains((c, x))
                },
    {
        let mut k: usize = 0;
        while k < address.len
            invariant
                self.wf(),
                self.vm.tape == old(self).vm.tape,
                self.vm.ptr == old(self).vm.ptr,
                self.vm.pc == old(self).vm.pc,
                self.vm.halted == old(self).vm.halted,
                self.vm.program == old(self).vm.program,
                self.vm.breakpoints == old(self).vm.breakpoints,
                self.task == old(self).task,
                k <= address.len,
                k > 0 ==> address.start + k <= old(self).vm.tape@.len(),
                forall|c: usize, x: u8|
                    #[trigger] self.vm.watchpoints@.contains((c, x)) <==> if address.start <= c
                        < address.start + k {
                        x == old(self).vm.tape@[c as int]
                    } else {
                        old(self).vm.watchpoints@.contains((c, x))
                    },
            decreases address.len - k,
        {
            if address.start > usize::MAX - k || address.start + k >= self.vm.tape.len() {
                let cell = if address.start > usize::MAX - k { usize::MAX } else { address.start + k };
                let mut m = with_number("cell ", cell);
                push_str(&mut m, " is out of bounds");
                return Err(m);
            }
            let cell = address.start + k;
            let value = self.vm.tape[cell];
            watch_put(&mut self.vm.watchpoints, cell, value);
            let mut m = with_number("watchpoint cell=", cell);
            push_str(&mut m, " value=");
            push_decimal(&mut m, value as u64);
            emit_line(out, &m);
            k = k + 1;
        }
        Ok(())
    }
}

/// The command names that the contract of `handle_command` tells apart are different texts.
proof fn lemma_command_names_differ()
    ensures
        "pc"@.len() == 2,
        "info"@.len() == 4,
        "c"@.len() == 1,
        "s"@.len() == 1,
        "help"@ != "info"@,
        "q"@.len() == 1,
        "b"@.len() == 1,
        "r"@.len() == 1,
        "delete"@.len() == 6,
        "set"@.len() == 3,
        "help"@ != "q"@,
        "help"@ != "b"@,
        "help"@ != "delete"@,
        "help"@ != "r"@,
        "help"@ != "set"@,
        "r"@ != "q"@,
        "r"@ != "b"@,
        "r"@ != "delete"@,
        "r"@ != "set"@,
        "c"@ != "q"@,
        "c"@ != "b"@,
        "c"@ != "delete"@,
        "c"@ != "r"@,
        "c"@ != "set"@,
        "s"@ != "q"@,
        "s"@ != "b"@,
        "s"@ != "delete"@,
        "s"@ != "r"@,
        "s"@ != "set"@,
        "info"@ != "q"@,
        "info"@ != "b"@,
        "info"@ != "delete"@,
        "info"@ != "r"@,
        "info"@ != "set"@,
        "next"@ != "q"@,
        "next"@ != "b"@,
        "next"@ != "delete"@,
        "next"@ != "r"@,
        "next"@ != "set"@,
        "b"@ != "q"@,
        "b"@ != "delete"@,
        "b"@ != "r"@,
        "b"@ != "set"@,
        "delete"@ != "q"@,
        "delete"@ != "b"@,
        "delete"@ != "r"@,
        "delete"@ != "set"@,
        "breakpoints"@ != "q"@,
        "breakpoints"@ != "b"@,
        "breakpoints"@ != "delete"@,
        "breakpoints"@ != "r"@,
        "breakpoints"@ != "set"@,
        "watch"@ != "q"@,
        "watch"@ != "b"@,
        "watch"@ != "delete"@,
        "watch"@ != "r"@,
        "watch"@ != "set"@,
        "unwatch"@ != "q"@,
        "unwatch"@ != "b"@,
        "unwatch"@ != "delete"@,
        "unwatch"@ != "r"@,
        "unwatch"@ != "set"@,
        "watchpoints"@ != "q"@,
        "watchpoints"@ != "b"@,
        "watchpoints"@ != "delete"@,
        "watchpoints"@ != "r"@,
        "watchpoints"@ != "set"@,
        "set"@ != "q"@,
        "set"@ != "b"@,
        "set"@ != "delete"@,
        "set"@ != "r"@,
        "pc"@ != "q"@,
        "pc"@ != "b"@,
        "pc"@ != "delete"@,
        "pc"@ != "r"@,
        "pc"@ != "set"@,
        "inst"@ != "q"@,
        "inst"@ != "b"@,
        "inst"@ != "delete"@,
        "inst"@ != "r"@,
        "inst"@ != "set"@,
        "code"@ != "q"@,
        "code"@ != "b"@,
        "code"@ != "delete"@,
        "code"@ != "r"@,
        "code"@ != "set"@,
        "x"@ != "q"@,
        "x"@ != "b"@,
        "x"@ != "delete"@,
        "x"@ != "r"@,
        "x"@ != "set"@,
        "symbols"@ != "q"@,
        "symbols"@ != "b"@,
        "symbols"@ != "delete"@,
        "symbols"@ != "r"@,
        "symbols"@ != "set"@,
        "symbol"@ != "q"@,
        "symbol"@ != "b"@,
        "symbol"@ != "delete"@,
        "symbol"@ != "r"@,
        "symbol"@ != "set"@,
        "q"@ != "b"@,
        "q"@ != "delete"@,
        "q"@ != "r"@,
        "q"@ != "set"@,
{
    reveal_strlit("pc");
    reveal_strlit("help");
    reveal_strlit("r");
    reveal_strlit("c");
    reveal_strlit("s");
    reveal_strlit("info");
    reveal_strlit("next");
    reveal_strlit("b");
    reveal_strlit("delete");
    reveal_strlit("breakpoints");
    reveal_strlit("watch");
    reveal_strlit("unwatch");
    reveal_strlit("watchpoints");
    reveal_strlit("set");
    reveal_strlit("pc");
    reveal_strlit("inst");
    reveal_strlit("code");
    reveal_strlit("x");
    reveal_strlit("symbols");
    reveal_strlit("symbol");
    reveal_strlit("q");
    assert("help"@.len() != "q"@.len());
    assert("help"@.len() != "b"@.len());
    assert("help"@.len() != "delete"@.len());
    assert("help"@.len() != "r"@.len());
    assert("help"@.len() != "set"@.len());
    assert("r"@[0] != "q"@[0]);
    assert("r"@[0] != "b"@[0]);
    assert("r"@.len() != "delete"@.len());
    assert("r"@.len() != "set"@.len());
    assert("c"@[0] != "q"@[0]);
    assert("c"@[0] != "b"@[0]);
    assert("c"@.len() != "delete"@.len());
    assert("c"@[0] != "r"@[0]);
    assert("c"@.len() != "set"@.len());
    assert("s"@[0] != "q"@[0]);
    assert("s"@[0] != "b"@[0]);
    assert("s"@.len() != "delete"@.len());
    assert("s"@[0] != "r"@[0]);
    assert("s"@.len() != "set"@.len());
    assert("info"@.len() != "q"@.len());
    assert("info"@.len() != "b"@.len());
    assert("info"@.len() != "delete"@.len());
    assert("info"@.len() != "r"@.len());
    assert("info"@.len() != "set"@.len());
    assert("next"@.len() != "q"@.len());
    assert("next"@.len() != "b"@.len());
    assert("next"@.len() != "delete"@.len());
    assert("next"@.len() != "r"@.len());
    assert("next"@.len() != "set"@.len());
    assert("b"@[0] != "q"@[0]);
    assert("b"@.len() != "delete"@.len());
    assert("b"@[0] != "r"@[0]);
    assert("b"@.len() != "set"@.len());
    assert("delete"@.len() != "q"@.len());
    assert("delete"@.len() != "b"@.len());
    assert("delete"@.len() != "r"@.len());
    assert("delete"@.len() != "set"@.len());
    assert("breakpoints"@.len() != "q"@.len());
    assert("breakpoints"@.len() != "b"@.len());
    assert("breakpoints"@.len() != "delete"@.len());
    assert("breakpoints"@.len() != "r"@.len());
    assert("breakpoints"@.len() != "set"@.len());
    assert("watch"@.len() != "q"@.len());
    assert("watch"@.len() != "b"@.len());
    assert("watch"@.len() != "delete"@.len());
    assert("watch"@.len() != "r"@.len());
    assert("watch"@.len() != "set"@.len());
    assert("unwatch"@.len() != "q"@.len());
    assert("unwatch"@.len() != "b"@.len());
    assert("unwatch"@.len() != "delete"@.len());
    assert("unwatch"@.len() != "r"@.len());
    assert("unwatch"@.len() != "set"@.len());
    assert("watchpoints"@.len() != "q"@.len());
    assert("watchpoints"@.len() != "b"@.len());
    assert("watchpoints"@.len() != "delete"@.len());
    assert("watchpoints"@.len() != "r"@.len());
    assert("watchpoints"@.len() != "set"@.len());
    assert("set"@.len() != "q"@.len());
    assert("set"@.len() != "b"@.len());
    assert("set"@.len() != "delete"@.len());
    assert("set"@.len() != "r"@.len());
    assert("pc"@.len() != "q"@.len());
    assert("pc"@.len() != "b"@.len());
    assert("pc"@.len() != "delete"@.len());
    assert("pc"@.len() != "r"@.len());
    assert("pc"@.len() != "set"@.len());
    assert("inst"@.len() != "q"@.len());
    assert("inst"@.len() != "b"@.len());
    assert("inst"@.len() != "delete"@.len());
    assert("inst"@.len() != "r"@.len());
    assert("inst"@.len() != "set"@.len());
    assert("code"@.len() != "q"@.len());
    assert("code"@.len() != "b"@.len());
    assert("code"@.len() != "delete"@.len());
    assert("code"@.len() != "r"@.len());
    assert("code"@.len() != "set"@.len());
    assert("x"@[0] != "q"@[0]);
    assert("x"@[0] != "b"@[0]);
    assert("x"@.len() != "delete"@.len());
    assert("x"@[0] != "r"@[0]);
    assert("x"@.len() != "set"@.len());
    assert("symbols"@.len() != "q"@.len());
    assert("symbols"@.len() != "b"@.len());
    assert("symbols"@.len() != "delete"@.len());
    assert("symbols"@.len() != "r"@.len());
    assert("symbols"@.len() != "set"@.len());
    assert("symbol"@.len() != "q"@.len());
    assert("symbol"@.len() != "b"@.len());
    assert("symbol"@[0] != "delete"@[0]);
    assert("symbol"@.len() != "r"@.len());
    assert("symbol"@.len() != "set"@.len());
    assert("q"@[0] != "b"@[0]);
    assert("q"@.len() != "delete"@.len());
    assert("q"@[0] != "r"@[0]);
    assert("q"@.len() != "set"@.len());
    assert("help"@[0] != "info"@[0]);
}

impl Debugger {
    fn lookup_symbol(&self, name: &Vec<char>) -> (r: Result<Address, String>)
        ensures
            r is Ok <==> first_symbol(self.vm.program.symbols@, name@) is Some,
            r matches Ok(a) ==> a == symbol_address(
                self.vm.program.symbols@[first_symbol(self.vm.program.symbols@, name@)->0],
            ),
            r matches Err(e) ==> e@ == "unknown cell or symbol "@ + "`"@ + name@ + "`"@ + ""@,
    {
        match find_symbol(&self.vm.program.symbols, name.as_slice()) {
            Some(i) => Ok(self.vm.program.symbols[i].address()),
            None => Err(quoted("unknown cell or symbol ", name.as_slice(), "")),
        }
    }

    fn lookup_symbol_offset(&self, name: &Vec<char>, offset: usize) -> (r: Result<Address, String>)
        ensures
            r matches Ok(a) ==> a.len == 1,
            r is Ok <==> (first_symbol(self.vm.program.symbols@, name@) matches Some(i) && match self.vm.program.symbols@[i] {
                DebugSymbol::Cell { .. } => offset == 0,
                DebugSymbol::Array { first, len, .. } => offset < len && first + offset <= usize::MAX,
            }),
            r matches Ok(a) ==> a.start == match self.vm.program.symbols@[first_symbol(self.vm.program.symbols@, name@)->0] {
                DebugSymbol::Cell { cell, .. } => cell as int,
                DebugSymbol::Array { first, .. } => first + offset,
            },
            first_symbol(self.vm.program.symbols@, name@) is None ==> (r matches Err(e) && e@
                == "unknown cell or symbol "@ + "`"@ + name@ + "`"@ + ""@),
    {
        match find_symbol(&self.vm.program.symbols, name.as_slice()) {
            Some(i) => resolve_symbol_offset(&self.vm.program.symbols[i], offset),
            None => Err(quoted("unknown cell or symbol ", name.as_slice(), "")),
        }
    }

    /// A cell number, `name[index]`, `name+offset`, or a symbol's name.
    fn resolve_address(&self, target: &Vec<char>) -> (r: Result<Address, String>)
        ensures
            parsed_unsigned(target@, usize::MAX as nat) matches Some(n) ==> r == Ok::<Address, String>(
                Address { start: n as usize, len: 1 },
            ),
    {
        if let Some(cell) = parse_unsigned(target.as_slice(), usize::MAX) {
            return Ok(Address { start: cell, len: 1 });
        }
        if let Some((name, index)) = parse_indexed_symbol(target)? {
            return self.lookup_symbol_offset(&name, index);
        }
        if let Some((name, offset)) = parse_offset_symbol(target)? {
            return self.lookup_symbol_offset(&name, offset);
        }
        self.lookup_symbol(target)
    }

    fn resolve_single_cell(&self, target: &Vec<char>, command: &str) -> (r: Result<usize, String>)
        ensures
            parsed_unsigned(target@, usize::MAX as nat) matches Some(n) ==> r == Ok::<usize, String>(
                n as usize,
            ),
    {
        let address = self.resolve_address(target)?;
        if address.len != 1 {
            let mut m = text(command);
            push_str(&mut m, " requires an indexed array element");
            return Err(m);
        }
        Ok(address.start)
    }

    fn unwatch_address(&mut self, address: Address, out: &mut Vec<u8>)
        requires
            old(self).wf(),
        ensures
            final(self).wf(),
            final(self).vm.tape == old(self).vm.tape,
            final(self).vm.ptr == old(self).vm.ptr,
            final(self).vm.pc == old(self).vm.pc,
            final(self).vm.halted == old(self).vm.halted,
            final(self).vm.program == old(self).vm.program,
            final(self).vm.breakpoints == old(self).vm.breakpoints,
            final(self).task == old(self).task,
            forall|c: usize, x: u8|
                #[trigger] final(self).vm.watchpoints@.contains((c, x)) <==> old(
                    self,
                ).vm.watchpoints@.contains((c, x)) && !(address.start <= c < address.start
                    + address.len),
    {
        let mut removed: usize = 0;
        let mut k: usize = 0;
        while k < address.len
            invariant
                self.wf(),
                self.vm.tape == old(self).vm.tape,
                self.vm.ptr == old(self).vm.ptr,
                self.vm.pc == old(self).vm.pc,
                self.vm.halted == old(self).vm.halted,
                self.vm.program == old(self).vm.program,
                self.vm.breakpoints == old(self).vm.breakpoints,
                self.task == old(self).task,
                removed <= k,
                k <= address.len,
                forall|c: usize, x: u8|
                    #[trigger] self.vm.watchpoints@.contains((c, x)) <==> old(
                        self,
                    ).vm.watchpoints@.contains((c, x)) && !(address.start <= c < address.start + k),
            decreases address.len - k,
        {
            if address.start <= usize::MAX - k {
                if watch_remove(&mut self.vm.watchpoints, address.start + k) {
                    removed = removed + 1;
                }
            }
            k = k + 1;
        }
        emit_line(out, &with_number("watchpoints deleted ", removed));
    }

    /// Handles one line the user typed: an empty line repeats the previous command.
    pub fn handle_line(&mut self, line: &str, out: &mut Vec<u8>, fuel: &mut u64) -> (r: Result<Reply, String>)
        requires
            old(self).wf(),
            old(self).idle(),
        ensures
            command_done(
                *old(self),
                *final(self),
                if words_of(line@).len() == 0 {
                    old(self).last_words()
                } else {
                    words_of(line@)
                },
                r,
            ),
            final(self).last_words() == if words_of(line@).len() == 0 {
                old(self).last_words()
            } else {
                words_of(line@)
            },
    {
        let chars = chars_of(line);
        let trimmed = trim(chars.as_slice());
        proof {
            let (a, b) = choose|a: int, b: int|
                0 <= a <= b <= chars@.len() && trimmed@ == chars@.subrange(a, b) && (forall|k: int|
                    0 <= k < a ==> is_space(#[trigger] chars@[k])) && (forall|k: int|
                    b <= k < chars@.len() ==> is_space(#[trigger] chars@[k])) && (a < b ==> !is_space(
                    chars@[a],
                ) && !is_space(chars@[b - 1]));
            let p = chars@.subrange(0, a);
            let q = chars@.subrange(b, chars@.len() as int);
            assert forall|k: int| 0 <= k < p.len() implies is_space(#[trigger] p[k]) by {
                assert(p[k] == chars@[k]);
            }
            assert forall|k: int| 0 <= k < q.len() implies is_space(#[trigger] q[k]) by {
                assert(q[k] == chars@[b + k]);
            }
            lemma_words_trimmed(p, trimmed@, q);
            assert(p + trimmed@ + q =~= chars@);
            if trimmed@.len() > 0 {
                assert(words_of(trimmed@).len() > 0) by {
                    lemma_words_nonempty(trimmed@);
                }
            } else {
                assert(trimmed@ =~= Seq::<char>::empty());
                assert(words_of(Seq::<char>::empty()) =~= Seq::<Seq<char>>::empty());
            }
        }
        let command = if trimmed.len() == 0 {
            copy_chars(&self.last_command)
        } else {
            trimmed
        };
        let words = split_whitespace(command.as_slice());
        let remembered = copy_chars(&command);
        let r = self.handle_command(&words, out, fuel);
        self.last_command = remembered;
        r
    }

    /// Runs one command, given as its words.
    fn handle_command(&mut self, words: &Vec<Vec<char>>, out: &mut Vec<u8>, fuel: &mut u64) -> (r: Result<Reply, String>)
        requires
            old(self).wf(),
            old(self).idle(),
        ensures
            command_done(*old(self), *final(self), word_views(words@), r),
            words_name_is(word_views(words@), "help"@) ==> r == Ok::<Reply, String>(Reply::Ready)
                && final(out)@ == old(out)@ + encode_utf8(help_chars()),
            words_name_is(word_views(words@), "pc"@) ==> r == Ok::<Reply, String>(Reply::Ready)
                && final(out)@ == old(out)@ + line_bytes("pc="@ + decimal_chars(old(self).vm.pc as nat)),
            words_name_is(word_views(words@), "info"@) ==> r == Ok::<Reply, String>(Reply::Ready)
                && final(out)@ == old(out)@ + line_bytes(
                old(self).state_chars() + " breakpoints="@ + decimal_chars(old(self).vm.breakpoints@.len())
                    + " watchpoints="@ + decimal_chars(old(self).vm.watchpoints@.len()),
            ),
            words_name_is(word_views(words@), "r"@) ==> final(out)@ == old(out)@ + line_bytes(
                "restarted"@,
            ),
            words_name_is(word_views(words@), "s"@) && word_views(words@).len() == 1 && old(self).vm.halted
                ==> r == Ok::<Reply, String>(Reply::Ready) && final(self).idle() && final(out)@ == old(
                out,
            )@ + line_bytes(old(self).state_chars()),
            words_name_is(word_views(words@), "c"@) && old(self).vm.halted ==> r == Ok::<Reply, String>(
                Reply::Ready,
            ) && final(self).idle() && final(out)@ == old(out)@ + line_bytes(
                "halted pc="@ + decimal_chars(old(self).vm.pc as nat),
            ),
            word_views(words@).len() > 0 && !known_command(word_views(words@)[0]) ==> final(out)@
                == old(out)@ + line_bytes(quoted_text("unknown command "@, word_views(words@)[0])),
            words_name_is(word_views(words@), "c"@) && !old(self).vm.halted && old(self).vm.pc
                < old(self).vm.program.insts@.len() && old(self).vm.program.insts@[old(self).vm.pc as int]
                != Inst::Input && *old(fuel) > 0 ==> *final(fuel) < *old(fuel),
            words_name_is(word_views(words@), "b"@) ==> (arg_number(word_views(words@), 1) matches Some(n)
                ==> final(out)@ == old(out)@ + line_bytes("breakpoint set at "@ + decimal_chars(n))),
            words_name_is(word_views(words@), "delete"@) ==> (arg_number(word_views(words@), 1) matches Some(n)
                ==> final(out)@ == old(out)@ + line_bytes(
                (if old(self).vm.breakpoints@.to_set().contains(n as usize) {
                    "breakpoint deleted at "@
                } else {
                    "no breakpoint at "@
                }) + decimal_chars(n),
            )),
            words_name_is(word_views(words@), "s"@) && word_views(words@).len() == 1 && !old(self).vm.halted
                && old(self).vm.pc < old(self).vm.program.insts@.len()
                && old(self).vm.program.insts@[old(self).vm.pc as int] != Inst::Input && *old(fuel) > 0
                ==> (r matches Ok(rep) ==> rep == Reply::Ready && final(self).idle() && vm_stepped(
                old(self).vm,
                final(self).vm,
                None,
            )),
    {
        proof {
            lemma_command_names_differ();
            reveal_strlit("pc");
            reveal_strlit("info");
            reveal_strlit("next");
            reveal_strlit("watch");
            reveal_strlit("unwatch");
            reveal_strlit("set");
            reveal_strlit("code");
            reveal_strlit("x");
            reveal_strlit("symbol");
            reveal_strlit("symbols");
            reveal_strlit("s");
            reveal_strlit("c");
            reveal_strlit("delete");
            reveal_strlit("b");
            reveal_strlit("help");
            reveal_strlit("r");
            reveal_strlit("breakpoints");
            reveal_strlit("watchpoints");
            reveal_strlit("inst");
            reveal_strlit("q");
            assert("c"@ != "s"@) by {
                assert("c"@[0] != "s"@[0]);
            }
        }
        if words.len() == 0 {
            return Ok(Reply::Ready);
        }
        let name = &words[0];
        assert(word_views(words@)[0] == name@);
        let arg1: Option<&Vec<char>> = if words.len() > 1 { Some(&words[1]) } else { None };
        let arg2: Option<&Vec<char>> = if words.len() > 2 { Some(&words[2]) } else { None };
        if same_text(name.as_slice(), "help") {
            emit(out, help_text().as_str());
        } else if same_text(name.as_slice(), "r") {
            self.vm.restart();
            emit_line(out, &text("restarted"));
        } else if same_text(name.as_slice(), "c") {
            self.task = Task::Continue { first: true };
            return self.run_task(None, out, fuel);
        } else if same_text(name.as_slice(), "s") {
            let count = parse_optional_usize(arg1, 1)?;
            self.task = Task::Step { remaining: count };
            assert(self.state_chars() == old(self).state_chars());
            return self.run_task(None, out, fuel);
        } else if same_text(name.as_slice(), "info") {
            self.info(out);
        } else if same_text(name.as_slice(), "next") {
            let target = match arg1 {
                Some(t) => t,
                None => {
                    return Err(text("next requires a BF instruction"));
                },
            };
            let inst = parse_inst_arg(target)?;
            self.task = Task::Next { target: inst, first: true };
            return self.run_task(None, out, fuel);
        } else if same_text(name.as_slice(), "b") {
            let pc = parse_required_usize(arg1, "break requires an instruction index")?;
            insert_sorted(&mut self.vm.breakpoints, pc);
            emit_line(out, &with_number("breakpoint set at ", pc));
        } else if same_text(name.as_slice(), "delete") {
            let pc = parse_required_usize(arg1, "delete requires an instruction index")?;
            if remove_sorted(&mut self.vm.breakpoints, pc) {
                emit_line(out, &with_number("breakpoint deleted at ", pc));
            } else {
                emit_line(out, &with_number("no breakpoint at ", pc));
            }
        } else if same_text(name.as_slice(), "breakpoints") {
            self.breakpoints(out);
        } else if same_text(name.as_slice(), "watch") {
            let target = match arg1 {
                Some(t) => t,
                None => {
                    return Err(text("watch requires a cell index or symbol name"));
                },
            };
            let address = self.resolve_address(target)?;
            self.watch_address(address, out)?;
        } else if same_text(name.as_slice(), "unwatch") {
            let target = match arg1 {
                Some(t) => t,
                None => {
                    return Err(text("unwatch requires a cell index or symbol name"));
                },
            };
            let address = self.resolve_address(target)?;
            self.unwatch_address(address, out);
        } else if same_text(name.as_slice(), "watchpoints") {
            self.watchpoints(out);
        } else if same_text(name.as_slice(), "set") {
            let target = match arg1 {
                Some(t) => t,
                None => {
                    return Err(text("set requires a cell index or symbol name"));
                },
            };
            let value = parse_byte_arg(arg2)?;
            let cell = self.resolve_single_cell(target, "set")?;
            self.set_cell(cell, value, out)?;
        } else if same_text(name.as_slice(), "pc") {
            let ghost o = out@;
            emit_line(out, &with_number("pc=", self.vm.pc));
            assert(out@ =~= o + line_bytes("pc="@ + decimal_chars(self.vm.pc as nat)));
        } else if same_text(name.as_slice(), "inst") {
            self.inst(out);
        } else if same_text(name.as_slice(), "code") {
            let radius = parse_optional_usize(arg1, 5)?;
            self.code(radius, out);
        } else if same_text(name.as_slice(), "x") || (name.len() >= 2 && name[0] == 'x' && name[1]
            == '/') {
            let spec = if name.len() >= 2 {
                let mut rest: Vec<char> = Vec::new();
                let mut k: usize = 2;
                while k < name.len()
                    decreases name@.len() - k,
                {
                    rest.push(name[k]);
                    k = k + 1;
                }
                Some(rest)
            } else {
                None
            };
            let format = match &spec {
                Some(rest) => ExamineFormat::parse(Some(rest))?,
                None => ExamineFormat::parse(None)?,
            };
            let target = match arg1 {
                Some(t) => t,
                None => {
                    return Err(text("x requires a cell index or symbol name"));
                },
            };
            self.examine(target, format, out)?;
        } else if same_text(name.as_slice(), "symbols") {
            self.symbols(out);
        } else if same_text(name.as_slice(), "symbol") {
            let symbol = match arg1 {
                Some(t) => t,
                None => {
                    return Err(text("symbol requires a name"));
                },
            };
            self.symbol(symbol, out);
        } else if same_text(name.as_slice(), "q") {
            return Ok(Reply::Quit);
        } else {
            let ghost o = out@;
            emit_line(out, &quoted("unknown command ", name.as_slice(), ""));
            proof {
                lemma_quoted_text("unknown command "@, name@);
                assert(name@ == word_views(words@)[0]);
                assert(out@ =~= o + line_bytes(quoted_text("unknown command "@, name@)));
            }
        }
        Ok(Reply::Ready)
    }

    /// Goes on with the running command, with `input` as the byte for a pending input
    /// instruction.
    fn run_task(&mut self, input: Option<Option<u8>>, out: &mut Vec<u8>, fuel: &mut u64) -> (r: Result<Reply, String>)
        requires
            old(self).wf(),
        ensures
            final(self).wf(),
            *final(fuel) <= *old(fuel),
            r matches Ok(Reply::Ready) ==> final(self).idle(),
            r matches Ok(Reply::Quit) ==> final(self).idle(),
            r matches Ok(Reply::NeedInput) ==> !final(self).idle(),
            r matches Ok(Reply::Running) ==> !final(self).idle() && *final(fuel) == 0,
            input is Some ==> (r matches Ok(Reply::NeedInput) ==> *final(fuel) < *old(fuel)),
            old(self).idle() ==> (r matches Ok(Reply::Ready) && *final(self) == *old(self)
                && final(out)@ == old(out)@ && *final(fuel) == *old(fuel)),
            old(self).continue_halted() ==> (r matches Ok(Reply::Ready) && final(self).idle()
                && final(out)@ == old(out)@ + old(self).halted_line()),
            (old(self).task matches Task::Step { remaining } && (remaining == 0 || old(self).vm.halted))
                ==> (r matches Ok(Reply::Ready) && final(self).idle() && final(out)@ == old(out)@
                + line_bytes(old(self).state_chars())),
            old(self).one_step_ready(*old(fuel)) ==> (r matches Ok(rep) ==> rep == Reply::Ready
                && final(self).idle() && vm_stepped(old(self).vm, final(self).vm, None)),
            old(self).continue_ready(*old(fuel)) ==> *final(fuel) < *old(fuel),
    {
        let ghost given = input;
        let mut pending = input;
        let ghost mut started = false;
        loop
            invariant
                self.wf(),
                *fuel <= *old(fuel),
                given is Some && pending is None ==> *fuel < *old(fuel),
                given == input,
                !started ==> *self == *old(self) && out@ == old(out)@ && *fuel == *old(fuel),
                started ==> !old(self).idle(),
                started ==> !old(self).continue_halted(),
                started ==> !(old(self).task matches Task::Step { remaining } && (remaining == 0
                    || old(self).vm.halted)),
                started && old(self).continue_ready(*old(fuel)) ==> *fuel < *old(fuel),
                started && old(self).one_step_ready(*old(fuel)) ==> self.task == (Task::Step {
                    remaining: 0,
                }) && vm_stepped(old(self).vm, self.vm, None),
            decreases *fuel,
        {
            match self.task {
                Task::Idle => {
                    return Ok(Reply::Ready);
                },
                Task::Continue { first } => {
                    if self.vm.halted {
                        emit_line(out, &with_number("halted pc=", self.vm.pc));
                        self.task = Task::Idle;
                        return Ok(Reply::Ready);
                    }
                    if !first && contains_sorted(&self.vm.breakpoints, self.vm.pc) {
                        emit_line(out, &with_number("breakpoint pc=", self.vm.pc));
                        self.task = Task::Idle;
                        return Ok(Reply::Ready);
                    }
                },
                Task::Step { remaining } => {
                    if remaining == 0 || self.vm.halted {
                        self.status(out);
                        self.task = Task::Idle;
                        return Ok(Reply::Ready);
                    }
                },
                Task::Next { target, first } => {
                    if self.vm.halted {
                        emit_line(out, &with_number("halted pc=", self.vm.pc));
                        self.task = Task::Idle;
                        return Ok(Reply::Ready);
                    }
                    if !first && self.vm.pc < self.vm.program.insts.len()
                        && self.vm.program.insts[self.vm.pc] == target {
                        let mut m = with_number("next pc=", self.vm.pc);
                        push_str(&mut m, " inst='");
                        push_inst_char(&mut m, target.as_char());
                        push_str(&mut m, "'");
                        emit_line(out, &m);
                        self.task = Task::Idle;
                        return Ok(Reply::Ready);
                    }
                    if !first && contains_sorted(&self.vm.breakpoints, self.vm.pc) {
                        emit_line(out, &with_number("breakpoint pc=", self.vm.pc));
                        self.task = Task::Idle;
                        return Ok(Reply::Ready);
                    }
                },
            }
            let byte = if self.vm.at_input() {
                match pending {
                    Some(b) => b,
                    None => {
                        return Ok(Reply::NeedInput);
                    },
                }
            } else {
                None
            };
            if *fuel == 0 {
                return Ok(Reply::Running);
            }
            *fuel = *fuel - 1;
            pending = None;
            self.vm.step(byte, out)?;
            self.task = match self.task {
                Task::Continue { .. } => Task::Continue { first: false },
                Task::Next { target, .. } => Task::Next { target, first: false },
                Task::Step { remaining } => Task::Step { remaining: if remaining > 0 { remaining - 1 } else { 0 } },
                Task::Idle => Task::Idle,
            };
            if self.check_watchpoints(out) {
                if let Task::Step { .. } = self.task {
                    self.status(out);
                }
                self.task = Task::Idle;
                return Ok(Reply::Ready);
            }
            proof {
                started = true;
            }
        }
    }

    /// Hands the running command the byte it waits for (`None` at the end of input).
    pub fn provide_input(&mut self, byte: Option<u8>, out: &mut Vec<u8>, fuel: &mut u64) -> (r: Result<Reply, String>)
        requires
            old(self).wf(),
        ensures
            final(self).wf(),
            *final(fuel) <= *old(fuel),
            r matches Ok(Reply::Ready) ==> final(self).idle(),
            r matches Ok(Reply::NeedInput) ==> !final(self).idle(),
            r matches Ok(Reply::Running) ==> !final(self).idle() && *final(fuel) == 0,
            r matches Ok(Reply::NeedInput) ==> *final(fuel) < *old(fuel),
            r matches Ok(Reply::Quit) ==> final(self).idle(),
            old(self).idle() ==> (r matches Ok(Reply::Ready) && *final(self) == *old(self)
                && final(out)@ == old(out)@ && *final(fuel) == *old(fuel)),
            old(self).continue_halted() ==> (r matches Ok(Reply::Ready) && final(self).idle()
                && final(out)@ == old(out)@ + old(self).halted_line()),
    {
        self.run_task(Some(byte), out, fuel)
    }

    /// Goes on with a command that ran out of steps.
    pub fn resume(&mut self, out: &mut Vec<u8>, fuel: &mut u64) -> (r: Result<Reply, String>)
        requires
            old(self).wf(),
        ensures
            final(self).wf(),
            *final(fuel) <= *old(fuel),
            r matches Ok(Reply::Ready) ==> final(self).idle(),
            r matches Ok(Reply::NeedInput) ==> !final(self).idle(),
            r matches Ok(Reply::Running) ==> !final(self).idle() && *final(fuel) == 0,
            old(self).idle() ==> (r matches Ok(Reply::Ready) && *final(self) == *old(self)
                && final(out)@ == old(out)@ && *final(fuel) == *old(fuel)),
            old(self).continue_halted() ==> (r matches Ok(Reply::Ready) && final(self).idle()
                && final(out)@ == old(out)@ + old(self).halted_line()),
    {
        self.run_task(None, out, fuel)
    }

    /// Ctrl-C: a running `c` or `next` stops with `paused pc=N`; a running `s` goes on.
    pub fn interrupt(&mut self, out: &mut Vec<u8>) -> (r: Reply)
        requires
            old(self).wf(),
        ensures
            final(self).wf(),
            r == Reply::Ready ==> final(self).idle(),
            r != Reply::Ready ==> r == Reply::Running,
    {
        match self.task {
            Task::Step { .. } => Reply::Running,
            _ => {
                if self.task != Task::Idle {
                    emit_line(out, &with_number("paused pc=", self.vm.pc));
                }
                self.task = Task::Idle;
                Reply::Ready
            },
        }
    }
}

fn copy_chars(v: &Vec<char>) -> (r: Vec<char>)
    ensures
        r@ == v@,
{
    let mut r: Vec<char> = Vec::new();
    let mut i: usize = 0;
    while i < v.len()
        invariant
            i <= v@.len(),
            r@ == v@.take(i as int),
        decreases v@.len() - i,
    {
        r.push(v[i]);
        i = i + 1;
        assert(r@ =~= v@.take(i as int));
    }
    assert(r@ =~= v@);
    r
}

/// Reads a line from `input` at `pos` (without its newline), or `None` at the end of input.
fn read_line(input: &[u8], pos: &mut usize) -> (r: Option<Vec<u8>>)
    requires
        *old(pos) <= input@.len(),
    ensures
        *old(pos) <= *final(pos) <= input@.len(),
        r is Some ==> *final(pos) > *old(pos),
        r is None ==> *final(pos) == *old(pos) && *old(pos) == input@.len(),
        r matches Some(l) ==> l@.len() <= input@.len(),
{
    if *pos >= input.len() {
        return None;
    }
    let mut line: Vec<u8> = Vec::new();
    let first = input[*pos];
    *pos = *pos + 1;
    if first == 10 {
        return Some(line);
    }
    line.push(first);
    while *pos < input.len()
        invariant
            *old(pos) < *pos <= input@.len(),
            line@.len() <= *pos - *old(pos),
        decreases input@.len() - *pos,
    {
        let b = input[*pos];
        *pos = *pos + 1;
        if b == 10 {
            break;
        }
        line.push(b);
    }
    Some(line)
}

/// Steps a debugger session may run before it is stopped.
pub const DEBUG_STEP_LIMIT: u64 = 0xffff_ffff_ffff_ffff;

/// A whole debugger session on a Brainfuck program: commands, and the bytes the program
/// reads, come from `input` (lines read as Latin-1); everything shown goes to `output`.
/// Ends at the end of input or on `q`.
pub fn run_debug(src: &str, input: &[u8], output: &mut Vec<u8>) -> (r: Result<(), String>)
    requires
        4 * input@.len() <= isize::MAX,
    ensures
        !balanced(bf_chars(src@)) ==> r is Err,
        !balanced(bf_chars(src@)) ==> final(output)@ == old(output)@,
        balanced(bf_chars(src@)) && input@.len() == 0 ==> r is Ok && final(output)@ == old(
            output,
        )@ + encode_utf8(
            "sanei debug mode. Type `help` for commands. Ctrl-C pauses continue."@,
        ) + seq![10u8] + encode_utf8("sane-db> "@),
{
    let program = DebugProgram::parse(src)?;
    let mut debugger = Debugger::new(program);
    emit_line(output, &banner());
    let ghost out1 = output@;
    let mut pos: usize = 0;
    let mut fuel: u64 = DEBUG_STEP_LIMIT;
    loop
        invariant
            debugger.wf(),
            debugger.idle(),
            pos <= input@.len(),
            4 * input@.len() <= isize::MAX,
            balanced(bf_chars(src@)),
            input@.len() == 0 ==> output@ == out1,
            out1 == old(output)@ + encode_utf8(
                "sanei debug mode. Type `help` for commands. Ctrl-C pauses continue."@,
            ) + seq![10u8],
        decreases input@.len() - pos,
    {
        emit(output, prompt().as_str());
        let line = match read_line(input, &mut pos) {
            None => {
                return Ok(());
            },
            Some(l) => l,
        };
        let ghost after_line = pos;
        let line_text = string_from_bytes(line.as_slice());
        let mut reply = debugger.handle_line(line_text.as_str(), output, &mut fuel)?;
        loop
            invariant
                debugger.wf(),
                after_line <= pos <= input@.len(),
                reply == Reply::Ready ==> debugger.idle(),
                reply == Reply::Quit ==> debugger.idle(),
                balanced(bf_chars(src@)),
                input@.len() > 0,
            ensures
                debugger.wf(),
                debugger.idle(),
                after_line <= pos <= input@.len(),
                balanced(bf_chars(src@)),
                input@.len() > 0,
            decreases fuel, (if reply == Reply::NeedInput { 1nat } else { 0nat }),
        {
            match reply {
                Reply::Ready => {
                    break;
                },
                Reply::Quit => {
                    return Ok(());
                },
                Reply::NeedInput => {
                    let byte = if pos < input.len() {
                        let b = input[pos];
                        pos = pos + 1;
                        Some(b)
                    } else {
                        None
                    };
                    reply = debugger.provide_input(byte, output, &mut fuel)?;
                },
                Reply::Running => {
                    return Err(text("step limit reached"));
                },
            }
        }
    }
}

} // verus!
