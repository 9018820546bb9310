use vstd::prelude::*;
use crate::ast::{binop_value, flag, pow2, unop_value, BinOp, UnOp};
use crate::ir::{is_lowerable, lower, BlockId, Op, Program as IrProgram, Terminator};
use crate::sema::{
    const_eval, const_value, ResolvedExpr as Expr, ResolvedProgram, ResolvedStmt as Stmt, MAX_CALL_DEPTH,
    MAX_LAYOUT_CELLS, WORK_CELL_COUNT,
};
use crate::text::{push_decimal, string_of};

verus! {

const T0: usize = 0;
const GENERAL_TEMP_COUNT: usize = 8;
const INC: char = '+';
const DEC: char = '-';
const LEFT: char = '<';
const RIGHT: char = '>';
const OUT: char = '.';
const IN: char = ',';
const OPEN: char = '[';
const CLOSE: char = ']';
/// Most control cells the code generator keeps allocated at once.
pub const MAX_CONTROL_DEPTH: usize = 0x0100_0000;

/// The eight Brainfuck instruction characters `+ - < > . , [ ]`.
pub open spec fn is_bf_char(c: char) -> bool {
    c == '+' || c == '-' || c == '<' || c == '>' || c == '.' || c == ',' || c == '[' || c == ']'
}

pub open spec fn bracket_delta(c: char) -> int {
    if c == '[' {
        1
    } else if c == ']' {
        -1
    } else {
        0
    }
}

/// Number of `[` minus number of `]`.
pub open spec fn depth(s: Seq<char>) -> int
    decreases s.len(),
{
    if s.len() == 0 {
        0
    } else {
        depth(s.drop_last()) + bracket_delta(s.last())
    }
}

/// No prefix closes more loops than it opened.
pub open spec fn never_negative(s: Seq<char>) -> bool {
    forall|i: int| 0 <= i <= s.len() ==> #[trigger] depth(s.take(i)) >= 0
}

pub open spec fn all_bf(s: Seq<char>) -> bool {
    forall|i: int| 0 <= i < s.len() ==> is_bf_char(#[trigger] s[i])
}

/// A well-formed Brainfuck program: only instruction characters, with matched brackets.
pub open spec fn valid_bf(s: Seq<char>) -> bool {
    &&& all_bf(s)
    &&& never_negative(s)
    &&& depth(s) == 0
}

/// Errors that only a defect of the code generator itself could cause start with this text.
pub open spec fn internal_prefix() -> Seq<char> {
    "internal error: "@
}

pub open spec fn is_internal_error(s: Seq<char>) -> bool {
    s.len() >= internal_prefix().len() && s.take(internal_prefix().len() as int) == internal_prefix()
}

/// The result is a success or an internal error.
pub open spec fn ok_or_internal<T>(r: Result<T, String>) -> bool {
    r matches Err(e) ==> is_internal_error(e@)
}

proof fn lemma_internal_differs()
    ensures
        !is_internal_error(functions_need_pc_msg()),
{
    reveal_strlit("internal error: ");
    reveal_strlit("functions require the pc backend (`-b pc`)");
    if is_internal_error(functions_need_pc_msg()) {
        assert(functions_need_pc_msg().take(16)[0] == internal_prefix()[0]);
    }
}

fn internal_error(detail: &str) -> (s: String)
    ensures
        is_internal_error(s@),
{
    let mut s = "internal error: ".to_string();
    let ghost p = s@;
    s.append(detail);
    proof {
        assert(s@.take(internal_prefix().len() as int) =~= p);
    }
    s
}

/// Whether the code contains two adjacent clear loops `[-][-]`.
pub open spec fn has_double_clear(s: Seq<char>) -> bool {
    exists|i: int| 0 <= i && i + 6 <= s.len() && #[trigger] is_double_clear_at(s, i)
}

pub open spec fn is_clear_at(s: Seq<char>, i: int) -> bool {
    0 <= i && i + 3 <= s.len() && s[i] == '[' && s[i + 1] == '-' && s[i + 2] == ']'
}

pub open spec fn is_double_clear_at(s: Seq<char>, i: int) -> bool {
    is_clear_at(s, i) && is_clear_at(s, i + 3)
}

proof fn lemma_push(s: Seq<char>, c: char)
    requires
        never_negative(s),
        depth(s) + bracket_delta(c) >= 0,
    ensures
        never_negative(s.push(c)),
        depth(s.push(c)) == depth(s) + bracket_delta(c),
{
    let t = s.push(c);
    assert(t.drop_last() =~= s);
    assert forall|i: int| 0 <= i <= t.len() implies #[trigger] depth(t.take(i)) >= 0 by {
        if i <= s.len() {
            assert(t.take(i) =~= s.take(i));
        } else {
            assert(t.take(i) =~= t);
        }
    }
}

proof fn lemma_take_push(s: Seq<char>, i: int)
    requires
        0 <= i < s.len(),
    ensures
        s.take(i + 1) == s.take(i).push(s[i]),
        depth(s.take(i + 1)) == depth(s.take(i)) + bracket_delta(s[i]),
{
    assert(s.take(i + 1) =~= s.take(i).push(s[i]));
    assert(s.take(i + 1).drop_last() =~= s.take(i));
}

/// `n` copies of the instruction `c`.
#[verifier::opaque]
pub open spec fn repeat_char(c: char, n: nat) -> Seq<char> {
    Seq::new(n, |_i: int| c)
}

/// The pointer moves that take the data pointer from cell `from` to cell `to`.
pub open spec fn moves(from: int, to: int) -> Seq<char> {
    if to > from {
        repeat_char('>', (to - from) as nat)
    } else {
        repeat_char('<', (from - to) as nat)
    }
}

/// From cell `from`: go to `cell` and zero it with `[-]`.
#[verifier::opaque]
pub open spec fn clear_code(from: int, cell: int) -> Seq<char> {
    moves(from, cell) + seq!['[', '-', ']']
}

/// From cell `from`: a loop on `src` that applies `op` to `dst` once per unit of `src`,
/// leaving `src` zero and the pointer on `src`.
#[verifier::opaque]
pub open spec fn move_code(from: int, src: int, dst: int, op: char) -> Seq<char> {
    moves(from, src) + seq!['['] + moves(src, dst) + seq![op] + moves(dst, src) + seq!['-', ']']
}

/// From cell `from`: a loop on `src` that adds it to both `d1` and `d2`, leaving `src` zero
/// and the pointer on `src`.
#[verifier::opaque]
pub open spec fn split_code(from: int, src: int, d1: int, d2: int) -> Seq<char> {
    moves(from, src) + seq!['['] + moves(src, d1) + seq!['+'] + moves(d1, d2) + seq!['+']
        + moves(d2, src) + seq!['-', ']']
}

/// From cell `from`: add `src` to `dst` through `tmp` and restore `src`; ends on `tmp`.
#[verifier::opaque]
pub open spec fn copy_add_code(from: int, src: int, dst: int, tmp: int) -> Seq<char> {
    clear_code(from, tmp) + split_code(tmp, src, dst, tmp) + move_code(src, tmp, src, '+')
}

#[derive(Clone, Copy)]
pub enum OrderedOp {
    Lt,
    Le,
    Gt,
    Ge,
}

/// What a comparison primitive of the generated code is for, as the steps the code
/// generator composes comparisons from: `Less(a, b, out)` puts 1 in `out` when cell `a`
/// holds less than cell `b` and 0 otherwise, `Equal(a, b)` puts 1 in `a` when the two cells
/// hold the same byte, `Negate(c)` turns a 0 in `c` into 1 and anything else into 0,
/// `Boolify(c)` turns anything but 0 in `c` into 1; the others combine the byte of their
/// second cell into their first (`AddInto(s, d)` and `SubFrom(s, d)` the other way round,
/// adding or subtracting `s` into `d` and clearing `s`): modulo 256 for arithmetic, bit by
/// bit for `OrInto`, `XorInto` and `AndInto`, by shifting for `ShlBy` and `ShrBy` (eight
/// places or more leave 0), division by zero giving 0 and leaving the remainder unchanged,
/// `BothInto(a, b)` puts 1 in `a` when both cells are nonzero, and `ConstMinus(c, k)` puts
/// `k` minus the byte of `c`, modulo 256, in `c`.
pub enum CellStep {
    Less(usize, usize, usize),
    Equal(usize, usize),
    Negate(usize),
    Boolify(usize),
    AddInto(usize, usize),
    SubFrom(usize, usize),
    MulInto(usize, usize),
    DivInto(usize, usize),
    ModInto(usize, usize),
    OrInto(usize, usize),
    XorInto(usize, usize),
    AndInto(usize, usize),
    ShlBy(usize, usize),
    ShrBy(usize, usize),
    BothInto(usize, usize),
    ConstMinus(usize, u8),
}

/// The tape `t` (cell to byte) after one step; cells the step does not write keep their
/// bytes.
pub open spec fn step_tape(step: CellStep, t: spec_fn(usize) -> u8) -> spec_fn(usize) -> u8 {
    match step {
        CellStep::Less(a, b, out) => |c: usize| if c == out { flag(t(a) < t(b)) } else { t(c) },
        CellStep::Equal(a, b) => |c: usize| if c == a { flag(t(a) == t(b)) } else { t(c) },
        CellStep::Negate(x) => |c: usize| if c == x { flag(t(x) == 0) } else { t(c) },
        CellStep::Boolify(x) => |c: usize| if c == x { flag(t(x) != 0) } else { t(c) },
        CellStep::AddInto(src, dst) => |c: usize| if c == dst {
            ((t(dst) + t(src)) % 256) as u8
        } else if c == src {
            0u8
        } else {
            t(c)
        },
        CellStep::SubFrom(src, dst) => |c: usize| if c == dst {
            ((t(dst) - t(src) + 256) % 256) as u8
        } else if c == src {
            0u8
        } else {
            t(c)
        },
        CellStep::MulInto(a, b) => |c: usize| if c == a { ((t(a) * t(b)) % 256) as u8 } else { t(c) },
        CellStep::DivInto(a, b) => |c: usize| if c == a {
            if t(b) == 0 { 0u8 } else { (t(a) / t(b)) as u8 }
        } else {
            t(c)
        },
        CellStep::ModInto(a, b) => |c: usize| if c == a {
            if t(b) == 0 { t(a) } else { (t(a) % t(b)) as u8 }
        } else {
            t(c)
        },
        CellStep::OrInto(a, b) => |c: usize| if c == a { t(a) | t(b) } else { t(c) },
        CellStep::XorInto(a, b) => |c: usize| if c == a { t(a) ^ t(b) } else { t(c) },
        CellStep::AndInto(a, b) => |c: usize| if c == a { t(a) & t(b) } else { t(c) },
        CellStep::ShlBy(a, b) => |c: usize| if c == a {
            if t(b) >= 8 { 0u8 } else { ((t(a) as int * pow2(t(b) as nat)) % 256) as u8 }
        } else {
            t(c)
        },
        CellStep::ShrBy(a, b) => |c: usize| if c == a {
            if t(b) >= 8 { 0u8 } else { (t(a) as int / pow2(t(b) as nat)) as u8 }
        } else {
            t(c)
        },
        CellStep::BothInto(a, b) => |c: usize| if c == a { flag(t(a) != 0 && t(b) != 0) } else { t(c) },
        CellStep::ConstMinus(x, k) => |c: usize| if c == x { ((k - t(x) + 256) % 256) as u8 } else { t(c) },
    }
}

/// The tape after the steps, in order.
pub open spec fn run_steps(steps: Seq<CellStep>, t: spec_fn(usize) -> u8) -> spec_fn(usize) -> u8
    decreases steps.len(),
{
    if steps.len() == 0 {
        t
    } else {
        step_tape(steps.last(), run_steps(steps.drop_last(), t))
    }
}

/// The binary operator a comparison computes.
pub open spec fn ordered_binop(op: OrderedOp) -> BinOp {
    match op {
        OrderedOp::Lt => BinOp::Lt,
        OrderedOp::Le => BinOp::Le,
        OrderedOp::Gt => BinOp::Gt,
        OrderedOp::Ge => BinOp::Ge,
    }
}

/// The steps the code for a comparison of `left` with `right`, into `left`, is made of.
pub open spec fn compare_steps(op: OrderedOp, left: usize, right: usize) -> Seq<CellStep> {
    match op {
        OrderedOp::Lt => seq![CellStep::Less(left, right, left)],
        OrderedOp::Le => seq![CellStep::Less(right, left, left), CellStep::Negate(left)],
        OrderedOp::Gt => seq![CellStep::Less(right, left, left)],
        OrderedOp::Ge => seq![CellStep::Less(left, right, left), CellStep::Negate(left)],
    }
}

/// Whether a binary operator compares its operands.
pub open spec fn is_comparison(op: BinOp) -> bool {
    op is Eq || op is Ne || op is Lt || op is Le || op is Gt || op is Ge
}

/// The steps the code for a comparison operator applied to `dst` and `rhs`, into `dst`, is
/// made of.
pub open spec fn comparison_steps(op: BinOp, dst: usize, rhs: usize) -> Seq<CellStep> {
    match op {
        BinOp::Eq => seq![CellStep::Equal(dst, rhs)],
        BinOp::Ne => seq![CellStep::Equal(dst, rhs), CellStep::Negate(dst)],
        BinOp::Lt => compare_steps(OrderedOp::Lt, dst, rhs),
        BinOp::Le => compare_steps(OrderedOp::Le, dst, rhs),
        BinOp::Gt => compare_steps(OrderedOp::Gt, dst, rhs),
        _ => compare_steps(OrderedOp::Ge, dst, rhs),
    }
}

/// The steps the code for any binary operator applied to `dst` and `rhs`, into `dst`, is
/// made of.
pub open spec fn binary_steps(op: BinOp, dst: usize, rhs: usize) -> Seq<CellStep> {
    match op {
        BinOp::Or => seq![
            CellStep::Boolify(dst),
            CellStep::Boolify(rhs),
            CellStep::AddInto(rhs, dst),
            CellStep::Boolify(dst),
        ],
        BinOp::And => seq![CellStep::Boolify(dst), CellStep::Boolify(rhs), CellStep::BothInto(dst, rhs)],
        BinOp::BitOr => seq![CellStep::OrInto(dst, rhs)],
        BinOp::BitXor => seq![CellStep::XorInto(dst, rhs)],
        BinOp::BitAnd => seq![CellStep::AndInto(dst, rhs)],
        BinOp::Shl => seq![CellStep::ShlBy(dst, rhs)],
        BinOp::Shr => seq![CellStep::ShrBy(dst, rhs)],
        BinOp::Add => seq![CellStep::AddInto(rhs, dst)],
        BinOp::Sub => seq![CellStep::SubFrom(rhs, dst)],
        BinOp::Mul => seq![CellStep::MulInto(dst, rhs)],
        BinOp::Div => seq![CellStep::DivInto(dst, rhs)],
        BinOp::Mod => seq![CellStep::ModInto(dst, rhs)],
        _ => comparison_steps(op, dst, rhs),
    }
}

/// The code for every binary operator computes what the operator means on the bytes in its
/// two cells: for every tape, running its steps leaves `binop_value(op, l, r)` in `dst`,
/// where `l` and `r` were the bytes of `dst` and `rhs`.
pub proof fn law_binary_ops(op: BinOp, dst: usize, rhs: usize, t: spec_fn(usize) -> u8)
    requires
        dst != rhs,
    ensures
        run_steps(binary_steps(op, dst, rhs), t)(dst) == binop_value(op, t(dst), t(rhs)),
{
    reveal_with_fuel(run_steps, 5);
    if is_comparison(op) {
        law_comparisons(op, dst, rhs, t);
    } else {
        let ss = binary_steps(op, dst, rhs);
        if ss.len() == 1 {
            assert(ss.drop_last() =~= Seq::<CellStep>::empty());
        } else if ss.len() == 3 {
            assert(ss.drop_last() =~= seq![ss[0], ss[1]]);
            assert(seq![ss[0], ss[1]].drop_last() =~= seq![ss[0]]);
            assert(seq![ss[0]].drop_last() =~= Seq::<CellStep>::empty());
        } else {
            assert(ss.drop_last() =~= seq![ss[0], ss[1], ss[2]]);
            assert(seq![ss[0], ss[1], ss[2]].drop_last() =~= seq![ss[0], ss[1]]);
            assert(seq![ss[0], ss[1]].drop_last() =~= seq![ss[0]]);
            assert(seq![ss[0]].drop_last() =~= Seq::<CellStep>::empty());
        }
    }
}

/// The steps the code for a unary operator applied to `dst`, in place, is made of.
pub open spec fn unary_steps(op: UnOp, dst: usize) -> Seq<CellStep> {
    match op {
        UnOp::Not => seq![CellStep::Negate(dst)],
        UnOp::BitNot => seq![CellStep::ConstMinus(dst, 255)],
    }
}

/// The code for each unary operator computes what the operator means: for every tape,
/// running its steps leaves `unop_value(op, v)` in `dst`, where `v` was the byte of `dst`.
pub proof fn law_unary_ops(op: UnOp, dst: usize, t: spec_fn(usize) -> u8)
    ensures
        run_steps(unary_steps(op, dst), t)(dst) == unop_value(op, t(dst)),
{
    reveal_with_fuel(run_steps, 2);
    assert(unary_steps(op, dst).drop_last() =~= Seq::<CellStep>::empty());
}

/// The code for each comparison computes what the operator means on the bytes in its two
/// cells: for every tape, running its steps leaves `binop_value(op, l, r)` in `dst`, where
/// `l` and `r` were the bytes of `dst` and `rhs` (so `a >= b` gives 1 on equal bytes, and
/// `a > b` gives 0).
pub proof fn law_comparisons(op: BinOp, dst: usize, rhs: usize, t: spec_fn(usize) -> u8)
    requires
        is_comparison(op),
        dst != rhs,
    ensures
        run_steps(comparison_steps(op, dst, rhs), t)(dst) == binop_value(op, t(dst), t(rhs)),
{
    reveal_with_fuel(run_steps, 3);
    let ss = comparison_steps(op, dst, rhs);
    if ss.len() == 2 {
        assert(ss.drop_last() =~= seq![ss[0]]);
        assert(seq![ss[0]].drop_last() =~= Seq::<CellStep>::empty());
    } else {
        assert(ss.drop_last() =~= Seq::<CellStep>::empty());
    }
}

#[derive(Clone, Copy, PartialEq, Eq, Structural)]
enum DivModResult {
    Quotient,
    Remainder,
}

#[derive(Clone, Copy)]
enum BitOp {
    And,
    Or,
    Xor,
}

#[derive(Clone, Copy)]
enum ShiftOp {
    Left,
    Right,
}

#[derive(Clone, Copy)]
enum Remainder {
    Add(u8),
    Sub(u8),
}

/// A way to build a constant with a loop: `count * factor` plus or minus a remainder.
#[derive(Clone, Copy)]
struct ConstPlan {
    count: u8,
    factor: u8,
    remainder: Remainder,
}

/// The `+` or `-` run that applies a plan's remainder.
spec fn remainder_code(r: Remainder) -> Seq<char> {
    match r {
        Remainder::Add(v) => repeat_char('+', v as nat),
        Remainder::Sub(v) => repeat_char('-', v as nat),
    }
}

spec fn remainder_size(r: Remainder) -> int {
    match r {
        Remainder::Add(v) => v as int,
        Remainder::Sub(v) => v as int,
    }
}

/// From cell `from`, with `tmp` zero: `cell += count * factor` through `tmp`, the remainder
/// applied to `tmp`, then `tmp` moved into `cell` in two passes; ends on `tmp`.
#[verifier::opaque]
spec fn build_const_code(from: int, cell: int, tmp: int, plan: ConstPlan) -> Seq<char> {
    moves(from, cell) + repeat_char('+', plan.count as nat) + seq!['['] + moves(cell, tmp)
        + repeat_char('+', plan.factor as nat) + moves(tmp, cell) + seq!['-', ']'] + moves(cell, tmp)
        + remainder_code(plan.remainder) + move_code(tmp, cell, tmp, '+') + move_code(
        cell,
        tmp,
        cell,
        '+',
    )
}

/// The estimated code length of a plan, cells `distance` apart, capped at `usize::MAX`.
spec fn plan_len(plan: ConstPlan, distance: int) -> int {
    let total = 11 * distance + 15 + plan.count + plan.factor + remainder_size(plan.remainder);
    if total <= usize::MAX {
        total
    } else {
        usize::MAX as int
    }
}

/// Length of reaching `value` from zero with `+` or `-` alone.
spec fn direct_len(value: u8) -> int {
    if value <= 128 {
        value as int
    } else {
        256 - value
    }
}

/// A loop plan: `count` and `factor` in `2..=16`, whose product lies within 16 of `value`.
spec fn is_candidate(value: u8, c: int, f: int) -> bool {
    2 <= c <= 16 && 2 <= f <= 16 && -16 <= c * f - value <= 16
}

/// The plan with loop counts `c` and `f` for `value`; the remainder makes up the difference.
spec fn plan_for(value: u8, c: int, f: int) -> ConstPlan {
    ConstPlan {
        count: c as u8,
        factor: f as u8,
        remainder: if value >= c * f {
            Remainder::Add((value - c * f) as u8)
        } else {
            Remainder::Sub((c * f - value) as u8)
        },
    }
}

spec fn cand_len(value: u8, c: int, f: int, distance: int) -> int {
    plan_len(plan_for(value, c, f), distance)
}

/// `(c1, f1)` comes before `(c2, f2)` when counts are tried in order, factors inside.
spec fn lex_before(c1: int, f1: int, c2: int, f2: int) -> bool {
    c1 < c2 || (c1 == c2 && f1 < f2)
}

/// `p` is shorter than direct code and the shortest candidate, the first one tried among
/// those of its length.
spec fn is_best_plan(value: u8, distance: int, p: ConstPlan) -> bool {
    let (c, f) = (p.count as int, p.factor as int);
    &&& is_candidate(value, c, f)
    &&& p == plan_for(value, c, f)
    &&& cand_len(value, c, f, distance) < direct_len(value)
    &&& forall|c2: int, f2: int|
        #[trigger] is_candidate(value, c2, f2) ==> cand_len(value, c, f, distance) <= cand_len(
            value,
            c2,
            f2,
            distance,
        )
    &&& forall|c2: int, f2: int|
        #[trigger] is_candidate(value, c2, f2) && lex_before(c2, f2, c, f) ==> cand_len(
            value,
            c,
            f,
            distance,
        ) < cand_len(value, c2, f2, distance)
}

/// The loop plan `set_const` uses for `value`, if any beats direct code.
spec fn best_plan(value: u8, distance: int) -> Option<ConstPlan> {
    if exists|p: ConstPlan| is_best_plan(value, distance, p) {
        Some(choose|p: ConstPlan| is_best_plan(value, distance, p))
    } else {
        None
    }
}

proof fn lemma_best_unique(value: u8, distance: int, p: ConstPlan, q: ConstPlan)
    requires
        is_best_plan(value, distance, p),
        is_best_plan(value, distance, q),
    ensures
        p == q,
{
    let (pc, pf) = (p.count as int, p.factor as int);
    let (qc, qf) = (q.count as int, q.factor as int);
    assert(is_candidate(value, pc, pf));
    assert(is_candidate(value, qc, qf));
}

/// The scratch cell `set_const` builds a constant through: the last work cell for cells above
/// it, else the first.
spec fn const_tmp_cell(scratch_base: int, cell: int) -> int {
    if cell > scratch_base + WORK_CELL_COUNT - 1 {
        scratch_base + WORK_CELL_COUNT - 1
    } else {
        scratch_base
    }
}

spec fn cell_distance(a: int, b: int) -> int {
    if a >= b {
        a - b
    } else {
        b - a
    }
}

/// From cell `from`: add `value` to `cell` (which holds zero) through `tmp`.
spec fn set_const_code(from: int, cell: int, tmp: int, value: u8) -> Seq<char> {
    if value == 0 {
        Seq::empty()
    } else {
        match best_plan(value, cell_distance(cell, tmp)) {
            Some(plan) => clear_code(from, tmp) + build_const_code(tmp, cell, tmp, plan),
            None => moves(from, cell) + if value <= 128 {
                repeat_char('+', value as nat)
            } else {
                repeat_char('-', (256 - value) as nat)
            },
        }
    }
}

/// Where the pointer stands after `set_const_code(from, cell, tmp, value)`.
spec fn set_const_end(from: int, cell: int, tmp: int, value: u8) -> int {
    if value == 0 {
        from
    } else if best_plan(value, cell_distance(cell, tmp)) is Some {
        tmp
    } else {
        cell
    }
}

/// From cell `from`: `cell` becomes 1 if it was nonzero, else stays 0, through `tmp`;
/// ends on `tmp`.
#[verifier::opaque]
spec fn boolify_code(from: int, cell: int, tmp: int) -> Seq<char> {
    clear_code(from, tmp) + moves(tmp, cell) + seq!['['] + moves(cell, tmp) + seq!['+']
        + clear_code(tmp, cell) + seq![']'] + move_code(cell, tmp, cell, '+')
}

/// From cell `from`: `cell` becomes 1 if it was zero, else 0, through `tmp`; ends on `tmp`.
#[verifier::opaque]
spec fn logical_not_code(from: int, cell: int, tmp: int) -> Seq<char> {
    clear_code(from, tmp) + moves(tmp, cell) + seq!['['] + moves(cell, tmp) + seq!['+']
        + clear_code(tmp, cell) + seq![']', '+'] + move_code(cell, tmp, cell, '-')
}

/// From cell `from`: `left` takes the value of `right` when it was nonzero, else stays 0
/// (the `and` of two booleans); `right` and `tmp` end zero, the pointer on `tmp`.
#[verifier::opaque]
spec fn bool_and_code(from: int, left: int, right: int, tmp: int) -> Seq<char> {
    clear_code(from, tmp) + moves(tmp, left) + seq!['[', '-'] + move_code(left, right, tmp, '+')
        + moves(right, left) + seq![']'] + clear_code(left, right) + move_code(right, tmp, left, '+')
}

/// From cell `from`: `left` is subtracted from `right` (leaving `left` zero), then `left` is
/// set to 1 and cleared again when `right` is nonzero, which clears `right`: `left` ends 1
/// exactly when the two were equal. Ends on `right`.
#[verifier::opaque]
spec fn eq_code(from: int, left: int, right: int) -> Seq<char> {
    move_code(from, left, right, '-') + seq!['+'] + moves(left, right) + seq!['['] + moves(right, left)
        + seq!['-'] + clear_code(left, right) + seq![']']
}

/// From cell `from`: `left` times `right` into `left` (keeping `right`), through `tmp0`
/// and `tmp1`: `left` moves to `tmp1`, and for each unit of it `right` is added to `left`
/// and restored through `tmp0`. Ends on `tmp1`.
#[verifier::opaque]
spec fn mul_code(from: int, left: int, right: int, tmp0: int, tmp1: int) -> Seq<char> {
    clear_code(from, tmp0) + clear_code(tmp0, tmp1) + move_code(tmp1, left, tmp1, '+') + moves(
        left,
        tmp1,
    ) + seq!['['] + split_code(tmp1, right, left, tmp0) + move_code(right, tmp0, right, '+')
        + moves(tmp0, tmp1) + seq!['-', ']']
}

/// From cell `from`: `cell` times the constant `value`, through `tmp` (nothing for 1, a
/// clear for 0).
#[verifier::opaque]
spec fn mul_const_code(from: int, cell: int, value: u8, tmp: int) -> Seq<char> {
    if value == 0 {
        clear_code(from, cell)
    } else if value == 1 {
        Seq::empty()
    } else {
        clear_code(from, tmp) + moves(tmp, cell) + seq!['['] + moves(cell, tmp) + repeat_char(
            '+',
            value as nat,
        ) + moves(tmp, cell) + seq!['-', ']'] + move_code(cell, tmp, cell, '+')
    }
}

/// From cell `from`: `value - cell` into `cell`, built in `tmp`. Ends on `tmp`.
#[verifier::opaque]
spec fn rsub_const_code(from: int, cell: int, value: u8, tmp: int) -> Seq<char> {
    clear_code(from, tmp) + (moves(tmp, tmp) + repeat_char('+', value as nat)) + move_code(
        tmp,
        cell,
        tmp,
        '-',
    ) + move_code(cell, tmp, cell, '+')
}

/// From cell `T0` holding `cur`: step it to `b` the shorter way round and print it.
spec fn put_step(cur: u8, b: u8) -> Seq<char> {
    let up = if b >= cur { b - cur } else { b - cur + 256 };
    let down = if cur >= b { cur - b } else { cur - b + 256 };
    (if up <= down { repeat_char('+', up as nat) } else { repeat_char('-', down as nat) }) + seq![
        '.',
    ]
}

/// The code that prints `bytes` from cell `T0`, which starts at zero.
spec fn put_bytes_code(bytes: Seq<u8>) -> Seq<char>
    decreases bytes.len(),
{
    if bytes.len() == 0 {
        Seq::empty()
    } else {
        let cur = if bytes.len() >= 2 { bytes[bytes.len() - 2] } else { 0u8 };
        put_bytes_code(bytes.drop_last()) + put_step(cur, bytes.last())
    }
}

proof fn lemma_moves_same(x: int)
    ensures
        moves(x, x) == Seq::<char>::empty(),
{
    reveal(repeat_char);
    assert(moves(x, x) =~= Seq::<char>::empty());
}

/// From cell `from`: zero `dst` and build the constant `v` in it.
spec fn const_to_code(from: int, dst: int, scratch_base: int, v: u8) -> Seq<char> {
    clear_code(from, dst) + set_const_code(dst, dst, const_tmp_cell(scratch_base, dst), v)
}

/// Appending `x` to code that is `c0 + acc` gives `c0 + (acc + x)`.
proof fn lemma_grow(c0: Seq<char>, acc: Seq<char>, x: Seq<char>, code: Seq<char>)
    requires
        code == (c0 + acc) + x,
    ensures
        code == c0 + (acc + x),
{
    assert((c0 + acc) + x =~= c0 + (acc + x));
}

proof fn lemma_push_one(s: Seq<char>, c: char)
    ensures
        s.push(c) == s + seq![c],
{
    assert(s.push(c) =~= s + seq![c]);
}

proof fn lemma_push_two(s: Seq<char>, c: char, d: char)
    ensures
        s.push(c).push(d) == s + seq![c, d],
{
    assert(s.push(c).push(d) =~= s + seq![c, d]);
}

fn sat_add(a: usize, b: usize) -> (r: usize)
    ensures
        r == if a + b <= usize::MAX { (a + b) as usize } else { usize::MAX },
{
    if a <= usize::MAX - b { a + b } else { usize::MAX }
}

impl ConstPlan {
    /// Length of the code `build_const` emits for this plan when the two cells are
    /// `distance` apart (saturating).
    fn len(self, distance: usize) -> (n: usize)
        ensures
            n == plan_len(self, distance as int),
    {
        let rem: usize = match self.remainder {
            Remainder::Add(v) => v as usize,
            Remainder::Sub(v) => v as usize,
        };
        let mut n: usize = 0;
        n = sat_add(n, distance);
        n = sat_add(n, 3);
        n = sat_add(n, distance);
        n = sat_add(n, self.count as usize);
        n = sat_add(n, 1);
        n = sat_add(n, distance);
        n = sat_add(n, self.factor as usize);
        n = sat_add(n, distance);
        n = sat_add(n, 2);
        n = sat_add(n, distance);
        n = sat_add(n, rem);
        n = sat_add(n, distance);
        n = sat_add(n, 1);
        n = sat_add(n, distance);
        n = sat_add(n, 1);
        n = sat_add(n, distance);
        n = sat_add(n, 1);
        n = sat_add(n, 2);
        n = sat_add(n, distance);
        n = sat_add(n, 1);
        n = sat_add(n, distance);
        n = sat_add(n, 1);
        n = sat_add(n, distance);
        n = sat_add(n, 2);
        n
    }

    /// The shortest loop plan for `value`, if one is shorter than adding or subtracting directly.
    fn best(value: u8, distance: usize) -> (r: Option<Self>)
        ensures
            r == best_plan(value, distance as int),
            r is None <==> forall|c: int, f: int|
                #[trigger] is_candidate(value, c, f) ==> cand_len(value, c, f, distance as int)
                    >= direct_len(value),
            r matches Some(p) ==> is_best_plan(value, distance as int, p),
    {
        let mut best: Option<Self> = None;
        let mut best_len = direct_const_len(value);
        let mut count: u16 = 2;
        while count <= 16
            invariant
                2 <= count <= 17,
                best_len == match best {
                    Some(p) => plan_len(p, distance as int),
                    None => direct_len(value),
                },
                forall|c2: int, f2: int|
                    #[trigger] is_candidate(value, c2, f2) && c2 < count ==> cand_len(
                        value,
                        c2,
                        f2,
                        distance as int,
                    ) >= best_len,
                best matches Some(p) ==> p.count < count && is_candidate(
                    value,
                    p.count as int,
                    p.factor as int,
                ) && p == plan_for(value, p.count as int, p.factor as int) && plan_len(
                    p,
                    distance as int,
                ) < direct_len(value) && forall|c2: int, f2: int|
                    #[trigger] is_candidate(value, c2, f2) && lex_before(
                        c2,
                        f2,
                        p.count as int,
                        p.factor as int,
                    ) ==> best_len < cand_len(value, c2, f2, distance as int),
            decreases 17 - count,
        {
            let mut factor: u16 = 2;
            while factor <= 16
                invariant
                    2 <= count <= 16,
                    2 <= factor <= 17,
                    best_len == match best {
                        Some(p) => plan_len(p, distance as int),
                        None => direct_len(value),
                    },
                    forall|c2: int, f2: int|
                        #[trigger] is_candidate(value, c2, f2) && lex_before(
                            c2,
                            f2,
                            count as int,
                            factor as int,
                        ) ==> cand_len(value, c2, f2, distance as int) >= best_len,
                    best matches Some(p) ==> lex_before(
                        p.count as int,
                        p.factor as int,
                        count as int,
                        factor as int,
                    ) && is_candidate(value, p.count as int, p.factor as int) && p == plan_for(
                        value,
                        p.count as int,
                        p.factor as int,
                    ) && plan_len(p, distance as int) < direct_len(value) && forall|c2: int, f2: int|
                        #[trigger] is_candidate(value, c2, f2) && lex_before(
                            c2,
                            f2,
                            p.count as int,
                            p.factor as int,
                        ) ==> best_len < cand_len(value, c2, f2, distance as int),
                decreases 17 - factor,
            {
                assert(count * factor <= 256) by (nonlinear_arith)
                    requires
                        count <= 16,
                        factor <= 16,
                ;
                let product: u16 = count * factor;
                let fits = if product >= value as u16 {
                    product - value as u16 <= 16
                } else {
                    value as u16 - product <= 16
                };
                assert(fits == is_candidate(value, count as int, factor as int));
                if fits {
                    let remainder = if value as u16 >= product {
                        Remainder::Add((value as u16 - product) as u8)
                    } else {
                        Remainder::Sub((product - value as u16) as u8)
                    };
                    let plan = Self { count: count as u8, factor: factor as u8, remainder };
                    assert(plan == plan_for(value, count as int, factor as int));
                    let len = plan.len(distance);
                    if len < best_len {
                        best = Some(plan);
                        best_len = len;
                    }
                }
                factor = factor + 1;
            }
            count = count + 1;
        }
        proof {
            match best {
                Some(p) => {
                    assert(is_best_plan(value, distance as int, p));
                    let q = choose|q: ConstPlan| is_best_plan(value, distance as int, q);
                    lemma_best_unique(value, distance as int, p, q);
                    assert(is_candidate(value, p.count as int, p.factor as int));
                },
                None => {
                    assert forall|p: ConstPlan| !is_best_plan(value, distance as int, p) by {
                        if is_best_plan(value, distance as int, p) {
                            assert(is_candidate(value, p.count as int, p.factor as int));
                        }
                    }
                },
            }
        }
        best
    }
}

/// Number of `+` or `-` needed to reach `value` from zero directly.
fn direct_const_len(value: u8) -> (n: usize)
    ensures
        n == direct_len(value),
{
    let down: u8 = 0u8.wrapping_sub(value);
    if value <= down { value as usize } else { down as usize }
}

/// `code` begins with `prefix`.
spec fn begins_with(code: Seq<char>, prefix: Seq<char>) -> bool {
    &&& prefix.len() <= code.len()
    &&& forall|i: int| 0 <= i < prefix.len() ==> #[trigger] code[i] == prefix[i]
}

/// Generated Brainfuck with the position of the data pointer and the tape layout.
struct BfOut {
    code: Vec<char>,
    ptr: usize,
    scratch_base: usize,
    control_depth: usize,
    /// The comparison steps emitted so far, by what they are for.
    steps: Ghost<Seq<CellStep>>,
}

impl BfOut {
    spec fn inv(&self) -> bool {
        &&& all_bf(self.code@)
        &&& never_negative(self.code@)
        &&& depth(self.code@) >= 0
        &&& self.scratch_base <= MAX_LAYOUT_CELLS
        &&& self.control_depth <= MAX_CONTROL_DEPTH
    }

    /// The code grew, keeping what was emitted before as a prefix, and ends at
    /// the same bracket depth, with the same layout.
    spec fn keeps(&self, old: &Self) -> bool {
        &&& self.inv()
        &&& begins_with(self.code@, old.code@)
        &&& depth(self.code@) == depth(old.code@)
        &&& self.scratch_base == old.scratch_base
        &&& self.control_depth == old.control_depth
    }

    /// After a failed emission the state is still well-formed (and is then discarded).
    spec fn settled(&self, old: &Self) -> bool {
        &&& self.inv()
        &&& self.scratch_base == old.scratch_base
    }

    fn with_control_depth(scratch_base: usize, control_depth: usize) -> (out: Self)
        requires
            scratch_base <= MAX_LAYOUT_CELLS,
            control_depth <= MAX_CONTROL_DEPTH,
        ensures
            out.inv(),
            out.code@.len() == 0,
            out.scratch_base == scratch_base,
            out.control_depth == control_depth,
    {
        Self { code: Vec::new(), ptr: 0, scratch_base, control_depth, steps: Ghost(Seq::empty()) }
    }

    fn push(&mut self, c: char)
        requires
            old(self).inv(),
            is_bf_char(c),
            depth(old(self).code@) + bracket_delta(c) >= 0,
        ensures
            final(self).inv(),
            final(self).code@ == old(self).code@.push(c),
            depth(final(self).code@) == depth(old(self).code@) + bracket_delta(c),
            final(self).scratch_base == old(self).scratch_base,
            final(self).control_depth == old(self).control_depth,
            final(self).ptr == old(self).ptr,
    {
        proof {
            lemma_push(self.code@, c);
        }
        self.code.push(c);
        assert forall|i: int| 0 <= i < self.code@.len() implies is_bf_char(#[trigger] self.code@[i]) by {
            if i < old(self).code@.len() {
                assert(self.code@[i] == old(self).code@[i]);
            }
        }
    }

    fn push_repeat(&mut self, c: char, n: usize)
        requires
            old(self).inv(),
            is_bf_char(c),
            bracket_delta(c) == 0,
        ensures
            final(self).keeps(old(self)),
            final(self).ptr == old(self).ptr,
            final(self).code@ == old(self).code@ + repeat_char(c, n as nat),
    {
        let mut i: usize = 0;
        assert(repeat_char(c, 0) =~= Seq::<char>::empty()) by {
            reveal(repeat_char);
        }
        while i < n
            invariant
                self.keeps(old(self)),
                self.ptr == old(self).ptr,
                is_bf_char(c),
                bracket_delta(c) == 0,
                i <= n,
                self.code@ == old(self).code@ + repeat_char(c, i as nat),
            decreases n - i,
        {
            self.push(c);
            assert(repeat_char(c, (i + 1) as nat) =~= repeat_char(c, i as nat).push(c)) by {
                reveal(repeat_char);
            }
            i = i + 1;
        }
    }

    fn w(&self, offset: usize) -> (c: usize)
        requires
            self.inv(),
            offset < WORK_CELL_COUNT,
        ensures
            c == self.scratch_base + offset,
    {
        self.scratch_base + offset
    }

    fn const_tmp(&self, cell: usize) -> (t: usize)
        requires
            self.inv(),
        ensures
            t == const_tmp_cell(self.scratch_base as int, cell as int),
    {
        let high = self.w(WORK_CELL_COUNT - 1);
        if cell > high { high } else { self.w(0) }
    }

    fn control_base(&self) -> (c: usize)
        requires
            self.inv(),
        ensures
            c == self.scratch_base + WORK_CELL_COUNT,
    {
        self.scratch_base + WORK_CELL_COUNT
    }

    fn alloc_control_cell(&mut self) -> (r: Result<usize, String>)
        requires
            old(self).inv(),
        ensures
            final(self).inv(),
            begins_with(final(self).code@, old(self).code@),
            depth(final(self).code@) == depth(old(self).code@),
            final(self).scratch_base == old(self).scratch_base,
            r is Ok ==> final(self).control_depth == old(self).control_depth + 1,
            r is Err ==> final(self).control_depth == old(self).control_depth,
            r matches Ok(c) ==> c == old(self).scratch_base + WORK_CELL_COUNT + old(self).control_depth,
            ok_or_internal(r),
    {
        if self.control_depth >= MAX_CONTROL_DEPTH {
            return Err(internal_error("too many nested control cells"));
        }
        let cell = self.control_base() + self.control_depth;
        self.control_depth = self.control_depth + 1;
        self.clear(cell);
        Ok(cell)
    }

    fn free_control_cells(&mut self, count: usize)
        requires
            old(self).inv(),
            old(self).control_depth >= count,
        ensures
            final(self).inv(),
            final(self).code@ == old(self).code@,
            final(self).scratch_base == old(self).scratch_base,
            final(self).control_depth == old(self).control_depth - count,
    {
        self.control_depth = self.control_depth - count;
    }

    fn goto(&mut self, cell: usize)
        requires
            old(self).inv(),
        ensures
            final(self).keeps(old(self)),
            final(self).ptr == cell,
            final(self).code@ == old(self).code@ + moves(old(self).ptr as int, cell as int),
    {
        if cell > self.ptr {
            self.push_repeat(RIGHT, cell - self.ptr);
        } else {
            self.push_repeat(LEFT, self.ptr - cell);
        }
        self.ptr = cell;
    }

    /// `[-]` at `cell`: sets it to zero.
    fn clear(&mut self, cell: usize)
        requires
            old(self).inv(),
        ensures
            final(self).keeps(old(self)),
            final(self).ptr == cell,
            final(self).code@ == old(self).code@ + clear_code(old(self).ptr as int, cell as int),
    {
        proof {
            reveal(clear_code);
        }
        self.goto(cell);
        self.push(OPEN);
        self.push(DEC);
        self.push(CLOSE);
        assert(self.code@ =~= old(self).code@ + clear_code(old(self).ptr as int, cell as int));
    }

    fn add_const(&mut self, cell: usize, value: u8)
        requires
            old(self).inv(),
        ensures
            final(self).keeps(old(self)),
            final(self).ptr == cell,
            final(self).code@ == old(self).code@ + moves(old(self).ptr as int, cell as int)
                + repeat_char('+', value as nat),
    {
        self.goto(cell);
        self.push_repeat(INC, value as usize);
    }

    fn sub_const(&mut self, cell: usize, value: u8)
        requires
            old(self).inv(),
        ensures
            final(self).keeps(old(self)),
            final(self).ptr == cell,
            final(self).code@ == old(self).code@ + moves(old(self).ptr as int, cell as int)
                + repeat_char('-', value as nat),
    {
        self.goto(cell);
        self.push_repeat(DEC, value as usize);
    }

    /// Adds `value` to a cell that holds zero, with a multiplication loop when shorter.
    fn set_const(&mut self, cell: usize, value: u8)
        requires
            old(self).inv(),
        ensures
            final(self).keeps(old(self)),
            final(self).ptr == set_const_end(
                old(self).ptr as int,
                cell as int,
                const_tmp_cell(old(self).scratch_base as int, cell as int),
                value,
            ),
            final(self).code@ == old(self).code@ + set_const_code(
                old(self).ptr as int,
                cell as int,
                const_tmp_cell(old(self).scratch_base as int, cell as int),
                value,
            ),
    {
        if value == 0 {
            assert(self.code@ =~= self.code@ + Seq::<char>::empty());
            return;
        }
        let tmp = self.const_tmp(cell);
        let distance = if cell >= tmp { cell - tmp } else { tmp - cell };
        match ConstPlan::best(value, distance) {
            Some(plan) => {
                let ghost c0 = self.code@;
                self.clear(tmp);
                self.build_const(cell, tmp, plan);
                proof {
                    lemma_grow(
                        c0,
                        clear_code(old(self).ptr as int, tmp as int),
                        build_const_code(tmp as int, cell as int, tmp as int, plan),
                        self.code@,
                    );
                }
            },
            None => {
                if value <= 128 {
                    self.add_const(cell, value);
                } else {
                    let down = 0u8.wrapping_sub(value);
                    assert(down == 256 - value);
                    self.sub_const(cell, down);
                }
            },
        }
    }

    fn build_const(&mut self, cell: usize, tmp: usize, plan: ConstPlan)
        requires
            old(self).inv(),
        ensures
            final(self).keeps(old(self)),
            final(self).ptr == tmp,
            final(self).code@ == old(self).code@ + build_const_code(
                old(self).ptr as int,
                cell as int,
                tmp as int,
                plan,
            ),
    {
        proof {
            reveal(build_const_code);
        }
        let ghost c0 = self.code@;
        let ghost p0 = self.ptr as int;
        self.goto(cell);
        let ghost mut acc: Seq<char> = moves(p0, cell as int);
        self.push_repeat(INC, plan.count as usize);
        proof {
            lemma_grow(c0, acc, repeat_char('+', plan.count as nat), self.code@);
            acc = acc + repeat_char('+', plan.count as nat);
            lemma_push_one(self.code@, '[');
        }
        self.push(OPEN);
        proof {
            lemma_grow(c0, acc, seq!['['], self.code@);
            acc = acc + seq!['['];
        }
        self.goto(tmp);
        proof {
            lemma_grow(c0, acc, moves(cell as int, tmp as int), self.code@);
            acc = acc + moves(cell as int, tmp as int);
        }
        self.push_repeat(INC, plan.factor as usize);
        proof {
            lemma_grow(c0, acc, repeat_char('+', plan.factor as nat), self.code@);
            acc = acc + repeat_char('+', plan.factor as nat);
        }
        self.goto(cell);
        proof {
            lemma_grow(c0, acc, moves(tmp as int, cell as int), self.code@);
            acc = acc + moves(tmp as int, cell as int);
            lemma_push_two(self.code@, '-', ']');
        }
        self.push(DEC);
        self.push(CLOSE);
        proof {
            lemma_grow(c0, acc, seq!['-', ']'], self.code@);
            acc = acc + seq!['-', ']'];
        }
        self.goto(tmp);
        proof {
            lemma_grow(c0, acc, moves(cell as int, tmp as int), self.code@);
            acc = acc + moves(cell as int, tmp as int);
        }
        let ghost cm = self.code@;
        match plan.remainder {
            Remainder::Add(v) => self.push_repeat(INC, v as usize),
            Remainder::Sub(v) => self.push_repeat(DEC, v as usize),
        }
        proof {
            lemma_grow(c0, acc, remainder_code(plan.remainder), self.code@);
            acc = acc + remainder_code(plan.remainder);
        }
        self.move_add(cell, tmp);
        proof {
            lemma_grow(c0, acc, move_code(tmp as int, cell as int, tmp as int, '+'), self.code@);
            acc = acc + move_code(tmp as int, cell as int, tmp as int, '+');
        }
        self.move_add(tmp, cell);
        proof {
            lemma_grow(c0, acc, move_code(cell as int, tmp as int, cell as int, '+'), self.code@);
            acc = acc + move_code(cell as int, tmp as int, cell as int, '+');
        }
    }

    /// Adds `src` to `dst` keeping `src`, using `tmp` (cleared first).
    fn copy_add(&mut self, src: usize, dst: usize, tmp: usize)
        requires
            old(self).inv(),
        ensures
            final(self).keeps(old(self)),
            final(self).ptr == tmp,
            final(self).code@ == old(self).code@ + copy_add_code(
                old(self).ptr as int,
                src as int,
                dst as int,
                tmp as int,
            ),
    {
        proof {
            reveal(copy_add_code);
        }
        let ghost c0 = self.code@;
        let ghost p0 = self.ptr as int;
        self.clear(tmp);
        let ghost mut acc: Seq<char> = clear_code(p0, tmp as int);
        self.split_add(src, dst, tmp);
        proof {
            lemma_grow(c0, acc, split_code(tmp as int, src as int, dst as int, tmp as int), self.code@);
            acc = acc + split_code(tmp as int, src as int, dst as int, tmp as int);
        }
        self.move_add(tmp, src);
        proof {
            lemma_grow(c0, acc, move_code(src as int, tmp as int, src as int, '+'), self.code@);
            acc = acc + move_code(src as int, tmp as int, src as int, '+');
        }
    }

    /// Adds `src` to both `d1` and `d2`, leaving `src` zero.
    fn split_add(&mut self, src: usize, d1: usize, d2: usize)
        requires
            old(self).inv(),
        ensures
            final(self).keeps(old(self)),
            final(self).ptr == src,
            final(self).code@ == old(self).code@ + split_code(
                old(self).ptr as int,
                src as int,
                d1 as int,
                d2 as int,
            ),
    {
        proof {
            reveal(split_code);
        }
        let ghost c0 = self.code@;
        let ghost p0 = self.ptr as int;
        self.goto(src);
        let ghost mut acc: Seq<char> = moves(p0, src as int);
        proof {
            lemma_push_one(self.code@, '[');
        }
        self.push(OPEN);
        proof {
            lemma_grow(c0, acc, seq!['['], self.code@);
            acc = acc + seq!['['];
        }
        self.goto(d1);
        proof {
            lemma_grow(c0, acc, moves(src as int, d1 as int), self.code@);
            acc = acc + moves(src as int, d1 as int);
        }
        proof {
            lemma_push_one(self.code@, '+');
        }
        self.push(INC);
        proof {
            lemma_grow(c0, acc, seq!['+'], self.code@);
            acc = acc + seq!['+'];
        }
        self.goto(d2);
        proof {
            lemma_grow(c0, acc, moves(d1 as int, d2 as int), self.code@);
            acc = acc + moves(d1 as int, d2 as int);
        }
        proof {
            lemma_push_one(self.code@, '+');
        }
        self.push(INC);
        proof {
            lemma_grow(c0, acc, seq!['+'], self.code@);
            acc = acc + seq!['+'];
        }
        self.goto(src);
        proof {
            lemma_grow(c0, acc, moves(d2 as int, src as int), self.code@);
            acc = acc + moves(d2 as int, src as int);
        }
        proof {
            lemma_push_two(self.code@, '-', ']');
        }
        self.push(DEC);
        self.push(CLOSE);
        proof {
            lemma_grow(c0, acc, seq!['-', ']'], self.code@);
            acc = acc + seq!['-', ']'];
        }
    }

    /// Adds `src` to `dst`, leaving `src` zero.
    fn move_add(&mut self, src: usize, dst: usize)
        requires
            old(self).inv(),
        ensures
            final(self).steps@ == old(self).steps@.push(CellStep::AddInto(src, dst)),
            final(self).keeps(old(self)),
            final(self).ptr == src,
            final(self).code@ == old(self).code@ + move_code(
                old(self).ptr as int,
                src as int,
                dst as int,
                '+',
            ),
    {
        let ghost steps0 = self.steps@;
        proof {
            reveal(move_code);
        }
        let ghost c0 = self.code@;
        let ghost p0 = self.ptr as int;
        self.goto(src);
        self.push(OPEN);
        self.goto(dst);
        self.push(INC);
        self.goto(src);
        self.push(DEC);
        self.push(CLOSE);
        assert(self.code@ =~= c0 + move_code(p0, src as int, dst as int, '+'));
        proof {
            self.steps@ = steps0.push(CellStep::AddInto(src, dst));
        }
    }

    /// Subtracts `src` from `dst`, leaving `src` zero.
    fn move_sub(&mut self, src: usize, dst: usize)
        requires
            old(self).inv(),
        ensures
            final(self).steps@ == old(self).steps@.push(CellStep::SubFrom(src, dst)),
            final(self).keeps(old(self)),
            final(self).ptr == src,
            final(self).code@ == old(self).code@ + move_code(
                old(self).ptr as int,
                src as int,
                dst as int,
                '-',
            ),
    {
        let ghost steps0 = self.steps@;
        proof {
            reveal(move_code);
        }
        let ghost c0 = self.code@;
        let ghost p0 = self.ptr as int;
        self.goto(src);
        self.push(OPEN);
        self.goto(dst);
        self.push(DEC);
        self.goto(src);
        self.push(DEC);
        self.push(CLOSE);
        assert(self.code@ =~= c0 + move_code(p0, src as int, dst as int, '-'));
        proof {
            self.steps@ = steps0.push(CellStep::SubFrom(src, dst));
        }
    }

    fn bool_and(&mut self, left: usize, right: usize, tmp: usize)
        requires
            old(self).inv(),
        ensures
            final(self).steps@ == old(self).steps@.push(CellStep::BothInto(left, right)),
            final(self).keeps(old(self)),
            final(self).ptr == tmp,
            final(self).code@ == old(self).code@ + bool_and_code(
                old(self).ptr as int,
                left as int,
                right as int,
                tmp as int,
            ),
    {
        let ghost steps0 = self.steps@;
        proof {
            reveal(bool_and_code);
        }
        let ghost c0 = self.code@;
        let ghost p0 = self.ptr as int;
        self.clear(tmp);
        let ghost mut acc: Seq<char> = clear_code(p0, tmp as int);
        self.goto(left);
        proof {
            lemma_grow(c0, acc, moves(tmp as int, left as int), self.code@);
            acc = acc + moves(tmp as int, left as int);
        }
        proof {
            lemma_push_two(self.code@, '[', '-');
        }
        self.push(OPEN);
        self.push(DEC);
        proof {
            lemma_grow(c0, acc, seq!['[', '-'], self.code@);
            acc = acc + seq!['[', '-'];
        }
        self.move_add(right, tmp);
        proof {
            lemma_grow(c0, acc, move_code(left as int, right as int, tmp as int, '+'), self.code@);
            acc = acc + move_code(left as int, right as int, tmp as int, '+');
        }
        self.goto(left);
        proof {
            lemma_grow(c0, acc, moves(right as int, left as int), self.code@);
            acc = acc + moves(right as int, left as int);
        }
        proof {
            lemma_push_one(self.code@, ']');
        }
        self.push(CLOSE);
        proof {
            lemma_grow(c0, acc, seq![']'], self.code@);
            acc = acc + seq![']'];
        }
        self.clear(right);
        proof {
            lemma_grow(c0, acc, clear_code(left as int, right as int), self.code@);
            acc = acc + clear_code(left as int, right as int);
        }
        self.move_add(tmp, left);
        proof {
            lemma_grow(c0, acc, move_code(right as int, tmp as int, left as int, '+'), self.code@);
            acc = acc + move_code(right as int, tmp as int, left as int, '+');
        }
        proof {
            self.steps@ = steps0.push(CellStep::BothInto(left, right));
        }
    }

    fn logical_not(&mut self, cell: usize, tmp: usize)
        requires
            old(self).inv(),
        ensures
            final(self).steps@ == old(self).steps@.push(CellStep::Negate(cell)),
            final(self).keeps(old(self)),
            final(self).ptr == tmp,
            final(self).code@ == old(self).code@ + logical_not_code(old(self).ptr as int, cell as int, tmp as int),
    {
        let ghost steps0 = self.steps@;
        proof {
            reveal(logical_not_code);
        }
        let ghost c0 = self.code@;
        let ghost p0 = self.ptr as int;
        self.clear(tmp);
        let ghost mut acc: Seq<char> = clear_code(p0, tmp as int);
        self.goto(cell);
        proof {
            lemma_grow(c0, acc, moves(tmp as int, cell as int), self.code@);
            acc = acc + moves(tmp as int, cell as int);
        }
        proof {
            lemma_push_one(self.code@, '[');
        }
        self.push(OPEN);
        proof {
            lemma_grow(c0, acc, seq!['['], self.code@);
            acc = acc + seq!['['];
        }
        self.goto(tmp);
        proof {
            lemma_grow(c0, acc, moves(cell as int, tmp as int), self.code@);
            acc = acc + moves(cell as int, tmp as int);
        }
        proof {
            lemma_push_one(self.code@, '+');
        }
        self.push(INC);
        proof {
            lemma_grow(c0, acc, seq!['+'], self.code@);
            acc = acc + seq!['+'];
        }
        self.clear(cell);
        proof {
            lemma_grow(c0, acc, clear_code(tmp as int, cell as int), self.code@);
            acc = acc + clear_code(tmp as int, cell as int);
        }
        proof {
            lemma_push_two(self.code@, ']', '+');
        }
        self.push(CLOSE);
        self.push(INC);
        proof {
            lemma_grow(c0, acc, seq![']', '+'], self.code@);
            acc = acc + seq![']', '+'];
        }
        self.move_sub(tmp, cell);
        proof {
            lemma_grow(c0, acc, move_code(cell as int, tmp as int, cell as int, '-'), self.code@);
            acc = acc + move_code(cell as int, tmp as int, cell as int, '-');
        }
        proof {
            self.steps@ = steps0.push(CellStep::Negate(cell));
        }
    }

    fn boolify(&mut self, cell: usize, tmp: usize)
        requires
            old(self).inv(),
        ensures
            final(self).steps@ == old(self).steps@.push(CellStep::Boolify(cell)),
            final(self).keeps(old(self)),
            final(self).ptr == tmp,
            final(self).code@ == old(self).code@ + boolify_code(old(self).ptr as int, cell as int, tmp as int),
    {
        let ghost steps0 = self.steps@;
        proof {
            reveal(boolify_code);
        }
        let ghost c0 = self.code@;
        let ghost p0 = self.ptr as int;
        self.clear(tmp);
        let ghost mut acc: Seq<char> = clear_code(p0, tmp as int);
        self.goto(cell);
        proof {
            lemma_grow(c0, acc, moves(tmp as int, cell as int), self.code@);
            acc = acc + moves(tmp as int, cell as int);
        }
        proof {
            lemma_push_one(self.code@, '[');
        }
        self.push(OPEN);
        proof {
            lemma_grow(c0, acc, seq!['['], self.code@);
            acc = acc + seq!['['];
        }
        self.goto(tmp);
        proof {
            lemma_grow(c0, acc, moves(cell as int, tmp as int), self.code@);
            acc = acc + moves(cell as int, tmp as int);
        }
        proof {
            lemma_push_one(self.code@, '+');
        }
        self.push(INC);
        proof {
            lemma_grow(c0, acc, seq!['+'], self.code@);
            acc = acc + seq!['+'];
        }
        self.clear(cell);
        proof {
            lemma_grow(c0, acc, clear_code(tmp as int, cell as int), self.code@);
            acc = acc + clear_code(tmp as int, cell as int);
        }
        proof {
            lemma_push_one(self.code@, ']');
        }
        self.push(CLOSE);
        proof {
            lemma_grow(c0, acc, seq![']'], self.code@);
            acc = acc + seq![']'];
        }
        self.move_add(tmp, cell);
        proof {
            lemma_grow(c0, acc, move_code(cell as int, tmp as int, cell as int, '+'), self.code@);
            acc = acc + move_code(cell as int, tmp as int, cell as int, '+');
        }
        proof {
            self.steps@ = steps0.push(CellStep::Boolify(cell));
        }
    }

    #[verifier::spinoff_prover]
    fn eq(&mut self, left: usize, right: usize)
        requires
            old(self).inv(),
        ensures
            final(self).steps@ == old(self).steps@.push(CellStep::Equal(left, right)),
            final(self).keeps(old(self)),
            final(self).ptr == right,
            final(self).code@ == old(self).code@ + eq_code(old(self).ptr as int, left as int, right as int),
    {
        let ghost steps0 = self.steps@;
        proof {
            reveal(eq_code);
        }
        let ghost c0 = self.code@;
        let ghost p0 = self.ptr as int;
        self.move_sub(left, right);
        let ghost mut acc: Seq<char> = move_code(p0, left as int, right as int, '-');
        proof {
            lemma_push_one(self.code@, '+');
        }
        self.push(INC);
        proof {
            lemma_grow(c0, acc, seq!['+'], self.code@);
            acc = acc + seq!['+'];
        }
        self.goto(right);
        proof {
            lemma_grow(c0, acc, moves(left as int, right as int), self.code@);
            acc = acc + moves(left as int, right as int);
        }
        proof {
            lemma_push_one(self.code@, '[');
        }
        self.push(OPEN);
        proof {
            lemma_grow(c0, acc, seq!['['], self.code@);
            acc = acc + seq!['['];
        }
        self.goto(left);
        proof {
            lemma_grow(c0, acc, moves(right as int, left as int), self.code@);
            acc = acc + moves(right as int, left as int);
        }
        proof {
            lemma_push_one(self.code@, '-');
        }
        self.push(DEC);
        proof {
            lemma_grow(c0, acc, seq!['-'], self.code@);
            acc = acc + seq!['-'];
        }
        self.clear(right);
        proof {
            lemma_grow(c0, acc, clear_code(left as int, right as int), self.code@);
            acc = acc + clear_code(left as int, right as int);
        }
        proof {
            lemma_push_one(self.code@, ']');
        }
        self.push(CLOSE);
        proof {
            lemma_grow(c0, acc, seq![']'], self.code@);
            acc = acc + seq![']'];
        }
        proof {
            self.steps@ = steps0.push(CellStep::Equal(left, right));
        }
    }

    fn mul(&mut self, left: usize, right: usize, tmp0: usize, tmp1: usize)
        requires
            old(self).inv(),
        ensures
            final(self).steps@ == old(self).steps@.push(CellStep::MulInto(left, right)),
            final(self).keeps(old(self)),
            final(self).ptr == tmp1,
            final(self).code@ == old(self).code@ + mul_code(
                old(self).ptr as int,
                left as int,
                right as int,
                tmp0 as int,
                tmp1 as int,
            ),
    {
        let ghost steps0 = self.steps@;
        proof {
            reveal(mul_code);
        }
        let ghost c0 = self.code@;
        let ghost p0 = self.ptr as int;
        self.clear(tmp0);
        let ghost mut acc: Seq<char> = clear_code(p0, tmp0 as int);
        self.clear(tmp1);
        proof {
            lemma_grow(c0, acc, clear_code(tmp0 as int, tmp1 as int), self.code@);
            acc = acc + clear_code(tmp0 as int, tmp1 as int);
        }
        self.move_add(left, tmp1);
        proof {
            lemma_grow(c0, acc, move_code(tmp1 as int, left as int, tmp1 as int, '+'), self.code@);
            acc = acc + move_code(tmp1 as int, left as int, tmp1 as int, '+');
        }
        self.goto(tmp1);
        proof {
            lemma_grow(c0, acc, moves(left as int, tmp1 as int), self.code@);
            acc = acc + moves(left as int, tmp1 as int);
        }
        proof {
            lemma_push_one(self.code@, '[');
        }
        self.push(OPEN);
        proof {
            lemma_grow(c0, acc, seq!['['], self.code@);
            acc = acc + seq!['['];
        }
        self.split_add(right, left, tmp0);
        proof {
            lemma_grow(c0, acc, split_code(tmp1 as int, right as int, left as int, tmp0 as int), self.code@);
            acc = acc + split_code(tmp1 as int, right as int, left as int, tmp0 as int);
        }
        self.move_add(tmp0, right);
        proof {
            lemma_grow(c0, acc, move_code(right as int, tmp0 as int, right as int, '+'), self.code@);
            acc = acc + move_code(right as int, tmp0 as int, right as int, '+');
        }
        self.goto(tmp1);
        proof {
            lemma_grow(c0, acc, moves(tmp0 as int, tmp1 as int), self.code@);
            acc = acc + moves(tmp0 as int, tmp1 as int);
        }
        proof {
            lemma_push_two(self.code@, '-', ']');
        }
        self.push(DEC);
        self.push(CLOSE);
        proof {
            lemma_grow(c0, acc, seq!['-', ']'], self.code@);
            acc = acc + seq!['-', ']'];
        }
        proof {
            self.steps@ = steps0.push(CellStep::MulInto(left, right));
        }
    }

    #[verifier::spinoff_prover]
    fn mul_const(&mut self, cell: usize, value: u8, tmp: usize)
        requires
            old(self).inv(),
        ensures
            final(self).keeps(old(self)),
            final(self).code@ == old(self).code@ + mul_const_code(
                old(self).ptr as int,
                cell as int,
                value,
                tmp as int,
            ),
    {
        proof {
            reveal(mul_const_code);
        }
        if value == 0 {
            self.clear(cell);
        } else if value == 1 {
            assert(self.code@ =~= self.code@ + Seq::<char>::empty());
        } else {
            let ghost c0 = self.code@;
            let ghost p0 = self.ptr as int;
            self.clear(tmp);
            let ghost mut acc: Seq<char> = clear_code(p0, tmp as int);
            self.goto(cell);
            proof {
                lemma_grow(c0, acc, moves(tmp as int, cell as int), self.code@);
                acc = acc + moves(tmp as int, cell as int);
            }
            proof {
                lemma_push_one(self.code@, '[');
            }
            self.push(OPEN);
            proof {
                lemma_grow(c0, acc, seq!['['], self.code@);
                acc = acc + seq!['['];
            }
            self.goto(tmp);
            proof {
                lemma_grow(c0, acc, moves(cell as int, tmp as int), self.code@);
                acc = acc + moves(cell as int, tmp as int);
            }
            self.push_repeat(INC, value as usize);
            proof {
                lemma_grow(c0, acc, repeat_char('+', value as nat), self.code@);
                acc = acc + repeat_char('+', value as nat);
            }
            self.goto(cell);
            proof {
                lemma_grow(c0, acc, moves(tmp as int, cell as int), self.code@);
                acc = acc + moves(tmp as int, cell as int);
            }
            proof {
                lemma_push_two(self.code@, '-', ']');
            }
            self.push(DEC);
            self.push(CLOSE);
            proof {
                lemma_grow(c0, acc, seq!['-', ']'], self.code@);
                acc = acc + seq!['-', ']'];
            }
            self.move_add(tmp, cell);
            proof {
                lemma_grow(c0, acc, move_code(cell as int, tmp as int, cell as int, '+'), self.code@);
                acc = acc + move_code(cell as int, tmp as int, cell as int, '+');
            }
        }
    }

    /// Replaces `cell` with `value - cell`, using `tmp`.
    fn rsub_const(&mut self, cell: usize, value: u8, tmp: usize)
        requires
            old(self).inv(),
        ensures
            final(self).steps@ == old(self).steps@.push(CellStep::ConstMinus(cell, value)),
            final(self).keeps(old(self)),
            final(self).ptr == tmp,
            final(self).code@ == old(self).code@ + rsub_const_code(
                old(self).ptr as int,
                cell as int,
                value,
                tmp as int,
            ),
    {
        let ghost steps0 = self.steps@;
        proof {
            reveal(rsub_const_code);
        }
        let ghost c0 = self.code@;
        let ghost p0 = self.ptr as int;
        self.clear(tmp);
        let ghost mut acc: Seq<char> = clear_code(p0, tmp as int);
        self.add_const(tmp, value);
        proof {
            assert(self.code@ =~= (c0 + acc) + (moves(tmp as int, tmp as int) + repeat_char('+', value as nat)));
            lemma_grow(c0, acc, moves(tmp as int, tmp as int) + repeat_char('+', value as nat), self.code@);
            acc = acc + (moves(tmp as int, tmp as int) + repeat_char('+', value as nat));
        }
        self.move_sub(cell, tmp);
        proof {
            lemma_grow(c0, acc, move_code(tmp as int, cell as int, tmp as int, '-'), self.code@);
            acc = acc + move_code(tmp as int, cell as int, tmp as int, '-');
        }
        self.move_add(tmp, cell);
        proof {
            lemma_grow(c0, acc, move_code(cell as int, tmp as int, cell as int, '+'), self.code@);
            acc = acc + move_code(cell as int, tmp as int, cell as int, '+');
        }
        proof {
            self.steps@ = steps0.push(CellStep::ConstMinus(cell, value));
        }
    }
}

impl BfOut {
    /// Still well-formed with the same layout; when `ok`, also back at the same depth and
    /// control depth.
    spec fn after(&self, old: &Self, ok: bool) -> bool {
        &&& self.settled(old)
        &&& ok ==> self.keeps(old)
    }

    fn ordered_compare(&mut self, left: usize, right: usize, op: OrderedOp)
        requires
            old(self).inv(),
        ensures
            final(self).keeps(old(self)),
            final(self).steps@ == old(self).steps@ + compare_steps(op, left, right),
    {
        let t = self.w(7);
        match op {
            OrderedOp::Lt => self.less_cells(left, right, left),
            OrderedOp::Le => {
                self.less_cells(right, left, left);
                self.logical_not(left, t);
            },
            OrderedOp::Gt => self.less_cells(right, left, left),
            OrderedOp::Ge => {
                self.less_cells(left, right, left);
                self.logical_not(left, t);
            },
        }
        assert(self.steps@ =~= old(self).steps@ + compare_steps(op, left, right));
    }

    /// Sets `out` to 1 when `left < right` and to 0 otherwise, consuming both operands.
    #[verifier::spinoff_prover]
    fn less_cells(&mut self, left: usize, right: usize, out: usize)
        requires
            old(self).inv(),
        ensures
            final(self).steps@ == old(self).steps@.push(CellStep::Less(left, right, out)),
            final(self).keeps(old(self)),
    {
        let ghost steps0 = self.steps@;
        let w7 = self.w(7);
        let w8 = self.w(8);
        let w9 = self.w(9);
        let w10 = self.w(10);
        let w11 = self.w(11);
        self.clear(w8);
        self.move_add(left, w8);
        self.clear(w9);
        self.move_add(right, w9);
        self.clear(out);

        self.goto(w9);
        self.push(OPEN);

        self.clear(w10);
        self.copy_add(w8, w10, w7);
        self.logical_not(w10, w7);
        self.goto(w10);
        self.push(OPEN);
        self.clear(out);
        self.add_const(out, 1);
        self.clear(w9);
        self.clear(w10);
        self.goto(w10);
        self.push(CLOSE);

        self.clear(w11);
        self.copy_add(w9, w11, w7);
        self.boolify(w11, w7);
        self.goto(w11);
        self.push(OPEN);
        self.goto(w8);
        self.push(DEC);
        self.goto(w9);
        self.push(DEC);
        self.clear(w11);
        self.goto(w11);
        self.push(CLOSE);

        self.goto(w9);
        self.push(CLOSE);
        proof {
            self.steps@ = steps0.push(CellStep::Less(left, right, out));
        }
    }

    /// The division loop over the work cells starting at `w1`: counts `w1` down, counting
    /// quotient and remainder up beside it.
    #[verifier::spinoff_prover]
    fn divmod_loop(&mut self, w1: usize)
        requires
            old(self).inv(),
        ensures
            final(self).keeps(old(self)),
    {
        self.goto(w1);
        self.push(OPEN);
        self.push(DEC);
        self.push(RIGHT);
        self.push(DEC);
        self.push(OPEN);
        self.push(RIGHT);
        self.push(INC);
        self.push_repeat(RIGHT, 2);
        self.push(CLOSE);
        self.push(RIGHT);
        self.push(OPEN);
        self.push(INC);
        self.push(OPEN);
        self.push(DEC);
        self.push(LEFT);
        self.push(INC);
        self.push(RIGHT);
        self.push(CLOSE);
        self.push(RIGHT);
        self.push(INC);
        self.push_repeat(RIGHT, 2);
        self.push(CLOSE);
        self.push_repeat(LEFT, 5);
        self.push(CLOSE);
    }

    /// Replaces `left` with `left / right` or `left % right` (division by zero gives 0 and
    /// leaves the remainder `left`).
    #[verifier::spinoff_prover]
    #[verifier::rlimit(80)]
    fn divmod(&mut self, left: usize, right: usize, result: DivModResult)
        requires
            old(self).inv(),
        ensures
            final(self).steps@ == old(self).steps@.push(if result == DivModResult::Quotient { CellStep::DivInto(left, right) } else { CellStep::ModInto(left, right) }),
            final(self).keeps(old(self)),
    {
        let ghost steps0 = self.steps@;
        let w1 = self.w(1);
        let w2 = self.w(2);
        let w3 = self.w(3);
        let w4 = self.w(4);
        let w5 = self.w(5);
        let w6 = self.w(6);
        let w7 = self.w(7);
        self.clear(w1);
        self.copy_add(left, w1, w5);
        self.clear(w2);
        self.copy_add(right, w2, w5);
        self.clear(w7);
        self.copy_add(right, w7, w5);
        self.boolify(w7, w5);

        self.clear(w6);
        self.copy_add(right, w6, w5);
        self.sub_const(w6, 1);
        self.logical_not(w6, w5);

        if result == DivModResult::Quotient {
            self.clear(left);
        }

        self.goto(w6);
        self.push(OPEN);
        match result {
            DivModResult::Quotient => self.copy_add(w1, left, w5),
            DivModResult::Remainder => self.clear(left),
        }
        self.clear(w7);
        self.clear(w6);
        self.goto(w6);
        self.push(CLOSE);

        self.clear(w3);
        self.clear(w4);
        self.clear(w5);
        self.clear(w6);

        self.goto(w7);
        self.push(OPEN);

        self.divmod_loop(w1);

        match result {
            DivModResult::Quotient => self.move_add(w4, left),
            DivModResult::Remainder => {
                self.clear(left);
                self.move_add(w3, left);
            },
        }

        self.clear(w7);
        self.goto(w7);
        self.push(CLOSE);
        proof {
            self.steps@ = steps0.push(if result == DivModResult::Quotient { CellStep::DivInto(left, right) } else { CellStep::ModInto(left, right) });
        }
    }

    fn divmod_const(&mut self, cell: usize, divisor: u8, result: DivModResult)
        requires
            old(self).inv(),
        ensures
            final(self).keeps(old(self)),
    {
        if divisor == 0 {
            if result == DivModResult::Quotient {
                self.clear(cell);
            }
        } else if divisor == 1 {
            if result == DivModResult::Remainder {
                self.clear(cell);
            }
        } else {
            self.divmod_const_nonzero(cell, divisor, result);
        }
    }

    /// When the countdown in `w2` reaches zero: one more in the quotient `w0`, the remainder
    /// `w1` back to zero and the countdown back to `divisor`.
    #[verifier::spinoff_prover]
    fn divmod_const_wrap(&mut self, w0: usize, w1: usize, w2: usize, w3: usize, w5: usize, divisor: u8)
        requires
            old(self).inv(),
        ensures
            final(self).keeps(old(self)),
    {
        self.clear(w3);
        self.copy_add(w2, w3, w5);
        self.logical_not(w3, w5);
        self.goto(w3);
        self.push(OPEN);
        self.goto(w0);
        self.push(INC);
        self.clear(w1);
        self.clear(w2);
        self.add_const(w2, divisor);
        self.clear(w3);
        self.goto(w3);
        self.push(CLOSE);
    }

    #[verifier::spinoff_prover]
    fn divmod_const_nonzero(&mut self, cell: usize, divisor: u8, result: DivModResult)
        requires
            old(self).inv(),
        ensures
            final(self).keeps(old(self)),
    {
        let w0 = self.w(0);
        let w1 = self.w(1);
        let w2 = self.w(2);
        let w3 = self.w(3);
        let w5 = self.w(5);
        self.clear(w0);
        self.clear(w1);
        self.clear(w2);
        self.add_const(w2, divisor);

        self.goto(cell);
        self.push(OPEN);
        self.goto(cell);
        self.push(DEC);
        self.goto(w1);
        self.push(INC);
        self.goto(w2);
        self.push(DEC);

        self.divmod_const_wrap(w0, w1, w2, w3, w5, divisor);

        self.goto(cell);
        self.push(CLOSE);

        self.clear(cell);
        match result {
            DivModResult::Quotient => self.move_add(w0, cell),
            DivModResult::Remainder => self.move_add(w1, cell),
        }
    }

    fn put(&mut self, cell: usize)
        requires
            old(self).inv(),
        ensures
            final(self).keeps(old(self)),
            final(self).ptr == cell,
            final(self).code@ == old(self).code@ + moves(old(self).ptr as int, cell as int)
                + seq!['.'],
    {
        self.goto(cell);
        self.push(OUT);
        assert(self.code@ =~= old(self).code@ + moves(old(self).ptr as int, cell as int) + seq!['.']);
    }

    fn put_byte_const(&mut self, value: u8)
        requires
            old(self).inv(),
        ensures
            final(self).keeps(old(self)),
            final(self).ptr == T0,
            final(self).code@ == old(self).code@ + clear_code(old(self).ptr as int, T0 as int)
                + set_const_code(T0 as int, T0 as int, const_tmp_cell(old(self).scratch_base as int, T0 as int), value)
                + moves(
                set_const_end(T0 as int, T0 as int, const_tmp_cell(old(self).scratch_base as int, T0 as int), value),
                T0 as int,
            ) + seq!['.'],
    {
        let ghost c0 = self.code@;
        self.clear(T0);
        let ghost c1 = self.code@;
        self.set_const(T0, value);
        let ghost c2 = self.code@;
        let ghost p2 = self.ptr as int;
        self.put(T0);
        proof {
            let sc = set_const_code(T0 as int, T0 as int, const_tmp_cell(old(self).scratch_base as int, T0 as int), value);
            lemma_grow(c0, clear_code(old(self).ptr as int, T0 as int), sc, c2);
            assert(self.code@ =~= c2 + (moves(p2, T0 as int) + seq!['.']));
            lemma_grow(c0, clear_code(old(self).ptr as int, T0 as int) + sc, moves(p2, T0 as int) + seq!['.'], self.code@);
            assert(clear_code(old(self).ptr as int, T0 as int) + sc + (moves(p2, T0 as int) + seq!['.']) =~= clear_code(old(self).ptr as int, T0 as int) + sc + moves(p2, T0 as int) + seq!['.']);
        }
    }

    /// Prints the bytes by stepping one cell up or down to each next byte.
    fn put_bytes(&mut self, bytes: &Vec<u8>)
        requires
            old(self).inv(),
        ensures
            final(self).keeps(old(self)),
            final(self).ptr == T0,
            final(self).code@ == old(self).code@ + clear_code(old(self).ptr as int, T0 as int)
                + put_bytes_code(bytes@),
    {
        self.clear(T0);
        let ghost c1 = self.code@;
        proof {
            lemma_moves_same(T0 as int);
            assert(bytes@.take(0) =~= Seq::<u8>::empty());
            assert(c1 =~= c1 + put_bytes_code(bytes@.take(0)));
        }
        let mut current: u8 = 0;
        let mut i: usize = 0;
        while i < bytes.len()
            invariant
                self.keeps(old(self)),
                self.ptr == T0,
                i <= bytes@.len(),
                current == (if i == 0 { 0u8 } else { bytes@[i - 1] }),
                self.code@ == c1 + put_bytes_code(bytes@.take(i as int)),
                moves(T0 as int, T0 as int) == Seq::<char>::empty(),
            decreases bytes@.len() - i,
        {
            let byte = bytes[i];
            let up = byte.wrapping_sub(current);
            let down = current.wrapping_sub(byte);
            let ghost before = self.code@;
            if up <= down {
                self.add_const(T0, up);
            } else {
                self.sub_const(T0, down);
            }
            self.put(T0);
            proof {
                let t = bytes@.take(i + 1);
                assert(t.drop_last() =~= bytes@.take(i as int));
                assert(t.last() == byte);
                if i > 0 {
                    assert(t[t.len() - 2] == bytes@[i - 1]);
                }
                assert(self.code@ =~= before + put_step(current, byte));
                assert(self.code@ =~= c1 + put_bytes_code(t));
            }
            current = byte;
            i = i + 1;
        }
        proof {
            assert(bytes@.take(bytes@.len() as int) =~= bytes@);
        }
    }

    fn read(&mut self, cell: usize)
        requires
            old(self).inv(),
        ensures
            final(self).keeps(old(self)),
            final(self).ptr == cell,
            final(self).code@ == old(self).code@ + moves(old(self).ptr as int, cell as int)
                + seq![','],
    {
        self.goto(cell);
        self.push(IN);
        assert(self.code@ =~= old(self).code@ + moves(old(self).ptr as int, cell as int) + seq![',']);
    }

    /// Stores the value in `base + 3` at the index in `base + 1` (and `base + 2`) of the array
    /// whose header starts at `base`.
    #[verifier::spinoff_prover]
    #[verifier::spinoff_prover]
    #[verifier::rlimit(50)]
    fn tritonio_array_set(&mut self, base: usize)
        requires
            old(self).inv(),
        ensures
            final(self).keeps(old(self)),
    {
        self.goto(base);
        self.push(RIGHT);
        self.push(OPEN);
        self.push_repeat(RIGHT, 3);
        self.push(OPEN);
        self.push(DEC);
        self.push_repeat(LEFT, 4);
        self.push(INC);
        self.push_repeat(RIGHT, 4);
        self.push(CLOSE);
        self.push(LEFT);
        self.push(OPEN);
        self.push(DEC);
        self.push(RIGHT);
        self.push(INC);
        self.push(LEFT);
        self.push(CLOSE);
        self.push(LEFT);
        self.push(OPEN);
        self.push(DEC);
        self.push(RIGHT);
        self.push(INC);
        self.push(LEFT);
        self.push(CLOSE);
        self.push(LEFT);
        self.push(OPEN);
        self.push(DEC);
        self.push(RIGHT);
        self.push(INC);
        self.push(LEFT);
        self.push(CLOSE);
        self.push(RIGHT);
        self.push(DEC);
        self.push(CLOSE);
        self.push_repeat(RIGHT, 3);
        self.push(OPEN);
        self.push(DEC);
        self.push(CLOSE);
        self.push(LEFT);
        self.push(OPEN);
        self.push(DEC);
        self.push(RIGHT);
        self.push(INC);
        self.push(LEFT);
        self.push(CLOSE);
        self.push(LEFT);
        self.push(OPEN);
        self.push(OPEN);
        self.push(DEC);
        self.push(LEFT);
        self.push(INC);
        self.push(RIGHT);
        self.push(CLOSE);
        self.push_repeat(LEFT, 3);
        self.push(OPEN);
        self.push(DEC);
        self.push_repeat(RIGHT, 4);
        self.push(INC);
        self.push_repeat(LEFT, 4);
        self.push(CLOSE);
        self.push_repeat(RIGHT, 2);
        self.push(DEC);
        self.push(CLOSE);
        self.push_repeat(LEFT, 2);
    }

    /// Loads the element at the index in `base + 1` (and `base + 2`) of the array whose header
    /// starts at `base` into `base + 3`.
    #[verifier::spinoff_prover]
    #[verifier::spinoff_prover]
    #[verifier::rlimit(50)]
    fn tritonio_array_get(&mut self, base: usize)
        requires
            old(self).inv(),
        ensures
            final(self).keeps(old(self)),
    {
        self.goto(base);
        self.push(RIGHT);
        self.push(OPEN);
        self.push_repeat(RIGHT, 3);
        self.push(OPEN);
        self.push(DEC);
        self.push_repeat(LEFT, 4);
        self.push(INC);
        self.push_repeat(RIGHT, 4);
        self.push(CLOSE);
        self.push_repeat(LEFT, 2);
        self.push(OPEN);
        self.push(DEC);
        self.push(RIGHT);
        self.push(INC);
        self.push(LEFT);
        self.push(CLOSE);
        self.push(LEFT);
        self.push(OPEN);
        self.push(DEC);
        self.push(RIGHT);
        self.push(INC);
        self.push(LEFT);
        self.push(CLOSE);
        self.push(RIGHT);
        self.push(DEC);
        self.push(CLOSE);
        self.push_repeat(RIGHT, 3);
        self.push(OPEN);
        self.push(DEC);
        self.push(LEFT);
        self.push(INC);
        self.push_repeat(LEFT, 2);
        self.push(INC);
        self.push_repeat(RIGHT, 3);
        self.push(CLOSE);
        self.push_repeat(LEFT, 3);
        self.push(OPEN);
        self.push(DEC);
        self.push_repeat(RIGHT, 3);
        self.push(INC);
        self.push_repeat(LEFT, 3);
        self.push(CLOSE);
        self.push(RIGHT);
        self.push(OPEN);
        self.push(OPEN);
        self.push(DEC);
        self.push(LEFT);
        self.push(INC);
        self.push(RIGHT);
        self.push(CLOSE);
        self.push(RIGHT);
        self.push(OPEN);
        self.push(DEC);
        self.push(LEFT);
        self.push(INC);
        self.push(RIGHT);
        self.push(CLOSE);
        self.push_repeat(LEFT, 4);
        self.push(OPEN);
        self.push(DEC);
        self.push_repeat(RIGHT, 4);
        self.push(INC);
        self.push_repeat(LEFT, 4);
        self.push(CLOSE);
        self.push_repeat(RIGHT, 2);
        self.push(DEC);
        self.push(CLOSE);
        self.push_repeat(LEFT, 2);
    }
}

impl BfOut {
    /// One round of `bitwise`: takes the lowest bits of `a` and `b`, shifts both right, and
    /// adds `place` to `result` where the combined bit is one; `place` doubles.
    #[verifier::spinoff_prover]
    fn bitwise_round(
        &mut self,
        a: usize,
        b: usize,
        abit: usize,
        bbit: usize,
        outbit: usize,
        tmp: usize,
        place: usize,
        result: usize,
        op: BitOp,
    )
        requires
            old(self).inv(),
        ensures
            final(self).keeps(old(self)),
    {
        self.clear(abit);
        self.copy_add(a, abit, tmp);
        self.divmod_const(abit, 2, DivModResult::Remainder);
        self.divmod_const(a, 2, DivModResult::Quotient);

        self.clear(bbit);
        self.copy_add(b, bbit, tmp);
        self.divmod_const(bbit, 2, DivModResult::Remainder);
        self.divmod_const(b, 2, DivModResult::Quotient);

        self.clear(outbit);
        match op {
            BitOp::And => {
                self.move_add(abit, outbit);
                self.bool_and(outbit, bbit, tmp);
            },
            BitOp::Or => {
                self.move_add(abit, outbit);
                self.move_add(bbit, outbit);
                self.boolify(outbit, tmp);
            },
            BitOp::Xor => {
                self.move_add(abit, outbit);
                self.eq(outbit, bbit);
                self.logical_not(outbit, tmp);
            },
        }

        self.goto(outbit);
        self.push(OPEN);
        self.copy_add(place, result, tmp);
        self.clear(outbit);
        self.goto(outbit);
        self.push(CLOSE);

        self.mul_const(place, 2, tmp);
    }

    /// Replaces `left` with the bitwise combination of `left` and `right`, bit by bit from the
    /// lowest; `right` ends zero.
    #[verifier::spinoff_prover]
    fn bitwise(&mut self, left: usize, right: usize, op: BitOp) -> (r: Result<(), String>)
        requires
            old(self).inv(),
        ensures
            r is Ok ==> final(self).steps@ == old(self).steps@.push(match op { BitOp::Or => CellStep::OrInto(left, right), BitOp::Xor => CellStep::XorInto(left, right), BitOp::And => CellStep::AndInto(left, right) }),
            final(self).after(old(self), r is Ok),
            ok_or_internal(r),
    {
        let ghost steps0 = self.steps@;
        let a = self.alloc_control_cell()?;
        let b = self.alloc_control_cell()?;
        let result = self.alloc_control_cell()?;
        let place = self.alloc_control_cell()?;
        let abit = self.alloc_control_cell()?;
        let bbit = self.alloc_control_cell()?;
        let outbit = self.alloc_control_cell()?;
        let tmp = self.alloc_control_cell()?;
        let ghost start = *self;

        self.move_add(left, a);
        self.move_add(right, b);
        self.add_const(place, 1);

        let mut round: usize = 0;
        while round < 8
            invariant
                self.keeps(&start),
            decreases 8 - round,
        {
            self.bitwise_round(a, b, abit, bbit, outbit, tmp, place, result, op);
            round = round + 1;
        }

        self.clear(left);
        self.move_add(result, left);
        self.free_control_cells(8);
        proof {
            self.steps@ = steps0.push(match op { BitOp::Or => CellStep::OrInto(left, right), BitOp::Xor => CellStep::XorInto(left, right), BitOp::And => CellStep::AndInto(left, right) });
        }
        Ok(())
    }

    /// Shifts `left` by `right` places (one doubling or halving per step); `right` ends zero.
    #[verifier::spinoff_prover]
    fn shift(&mut self, left: usize, right: usize, op: ShiftOp) -> (r: Result<(), String>)
        requires
            old(self).inv(),
        ensures
            r is Ok ==> final(self).steps@ == old(self).steps@.push(match op { ShiftOp::Left => CellStep::ShlBy(left, right), ShiftOp::Right => CellStep::ShrBy(left, right) }),
            final(self).after(old(self), r is Ok),
            ok_or_internal(r),
    {
        let ghost steps0 = self.steps@;
        let count = self.alloc_control_cell()?;
        let tmp = self.alloc_control_cell()?;
        self.move_add(right, count);

        self.goto(count);
        self.push(OPEN);
        self.goto(count);
        self.push(DEC);
        match op {
            ShiftOp::Left => self.mul_const(left, 2, tmp),
            ShiftOp::Right => self.divmod_const(left, 2, DivModResult::Quotient),
        }
        self.goto(count);
        self.push(CLOSE);

        self.free_control_cells(2);
        proof {
            self.steps@ = steps0.push(match op { ShiftOp::Left => CellStep::ShlBy(left, right), ShiftOp::Right => CellStep::ShrBy(left, right) });
        }
        Ok(())
    }

    /// Prints the decimal digits held in `hundreds`, `tens` and `ones`, skipping leading zeros.
    #[verifier::spinoff_prover]
    fn print_digits(
        &mut self,
        hundreds: usize,
        tens: usize,
        ones: usize,
        flag: usize,
        tmp: usize,
        printed_hundreds: usize,
    )
        requires
            old(self).inv(),
        ensures
            final(self).keeps(old(self)),
    {
        self.clear(flag);
        self.copy_add(hundreds, flag, tmp);
        self.boolify(flag, tmp);
        self.goto(flag);
        self.push(OPEN);
        self.clear(printed_hundreds);
        self.add_const(printed_hundreds, 1);
        self.add_const(hundreds, 48);
        self.put(hundreds);
        self.clear(flag);
        self.goto(flag);
        self.push(CLOSE);

        self.clear(flag);
        self.copy_add(printed_hundreds, flag, tmp);
        self.copy_add(tens, flag, tmp);
        self.boolify(flag, tmp);
        self.goto(flag);
        self.push(OPEN);
        self.add_const(tens, 48);
        self.put(tens);
        self.clear(flag);
        self.goto(flag);
        self.push(CLOSE);

        self.add_const(ones, 48);
        self.put(ones);
    }

    /// Prints the byte in `cell` in decimal, without leading zeros.
    #[verifier::spinoff_prover]
    fn print_byte_decimal(&mut self, cell: usize) -> (r: Result<(), String>)
        requires
            old(self).inv(),
        ensures
            final(self).after(old(self), r is Ok),
            ok_or_internal(r),
    {
        let hundreds = self.alloc_control_cell()?;
        let rem = self.alloc_control_cell()?;
        let tens = self.alloc_control_cell()?;
        let ones = self.alloc_control_cell()?;
        let flag = self.alloc_control_cell()?;
        let tmp = self.alloc_control_cell()?;
        let printed_hundreds = self.alloc_control_cell()?;

        self.copy_add(cell, hundreds, tmp);
        self.divmod_const(hundreds, 100, DivModResult::Quotient);

        self.copy_add(cell, rem, tmp);
        self.divmod_const(rem, 100, DivModResult::Remainder);

        self.copy_add(rem, tens, tmp);
        self.divmod_const(tens, 10, DivModResult::Quotient);

        self.copy_add(rem, ones, tmp);
        self.divmod_const(ones, 10, DivModResult::Remainder);

        self.print_digits(hundreds, tens, ones, flag, tmp, printed_hundreds);

        self.free_control_cells(7);
        Ok(())
    }
}

/// `reserved` with `cell` added at the end.
fn with_cell(reserved: &Vec<usize>, cell: usize) -> (r: Vec<usize>)
    ensures
        r@ == reserved@.push(cell),
{
    let mut r: Vec<usize> = Vec::new();
    let mut i: usize = 0;
    while i < reserved.len()
        invariant
            i <= reserved@.len(),
            r@ == reserved@.take(i as int),
        decreases reserved@.len() - i,
    {
        r.push(reserved[i]);
        i = i + 1;
        assert(r@ =~= reserved@.take(i as int));
    }
    r.push(cell);
    assert(r@ =~= reserved@.push(cell));
    r
}

fn contains_cell(cells: &Vec<usize>, cell: usize) -> (b: bool)
    ensures
        b == cells@.contains(cell),
{
    let mut i: usize = 0;
    while i < cells.len()
        invariant
            i <= cells@.len(),
            forall|k: int| 0 <= k < i ==> cells@[k] != cell,
        decreases cells@.len() - i,
    {
        if cells[i] == cell {
            return true;
        }
        i = i + 1;
    }
    false
}

/// The lowest general temporary cell that `reserved` does not hold.
fn alloc_temp(reserved: &Vec<usize>) -> (r: Result<usize, String>)
    ensures
        r matches Ok(c) ==> c < GENERAL_TEMP_COUNT && !reserved@.contains(c) && forall|k: usize|
            k < c ==> reserved@.contains(k),
        r is Err ==> forall|k: usize| k < GENERAL_TEMP_COUNT ==> reserved@.contains(k),
        ok_or_internal(r),
{
    let mut cell: usize = 0;
    while cell < GENERAL_TEMP_COUNT
        invariant
            cell <= GENERAL_TEMP_COUNT,
            forall|k: usize| k < cell ==> reserved@.contains(k),
        decreases GENERAL_TEMP_COUNT - cell,
    {
        if !contains_cell(reserved, cell) {
            return Ok(cell);
        }
        cell = cell + 1;
    }
    Err(internal_error("out of temporary cells"))
}

fn cell_overflow() -> (s: String)
    ensures
        is_internal_error(s@),
{
    internal_error("cell index overflow")
}

/// `base + offset`, or an error when the sum does not fit.
fn cell_at(base: usize, offset: usize) -> (r: Result<usize, String>)
    ensures
        r matches Ok(c) ==> c == base + offset,
        r is Err <==> base + offset > usize::MAX,
        ok_or_internal(r),
{
    if base <= usize::MAX - offset {
        Ok(base + offset)
    } else {
        Err(cell_overflow())
    }
}

/// The cell of element `index` of the array whose header starts at `base`.
fn array_elem(base: usize, len: usize, index: usize) -> (r: Result<usize, String>)
    ensures
        r matches Ok(c) ==> index < len && c == base + 4 + index,
        index < len && base + 4 + index <= usize::MAX ==> r is Ok,
        ok_or_internal(r),
{
    if index < len {
        let first = cell_at(base, 4)?;
        cell_at(first, index)
    } else {
        let mut msg = internal_error("array index ");
        let ghost m0 = msg@;
        push_decimal(&mut msg, index as u64);
        let ghost m1 = msg@;
        msg.append(" out of bounds for length ");
        let ghost m2 = msg@;
        push_decimal(&mut msg, len as u64);
        proof {
            assert(msg@.take(internal_prefix().len() as int) =~= m0.take(internal_prefix().len() as int));
        }
        Err(msg)
    }
}

/// Code that stores the value of `expr` in `dst`, using general temporaries that `reserved`
/// does not hold.
fn emit_expr_to(expr: &Expr, dst: usize, out: &mut BfOut, reserved: &Vec<usize>) -> (r: Result<(), String>)
    requires
        old(out).inv(),
    ensures
        final(out).after(old(out), r is Ok),
        ok_or_internal(r),
        const_value(*expr) matches Some(v) ==> r is Ok && final(out).code@ == old(out).code@
            + const_to_code(old(out).ptr as int, dst as int, old(out).scratch_base as int, v)
            && final(out).ptr == set_const_end(
            dst as int,
            dst as int,
            const_tmp_cell(old(out).scratch_base as int, dst as int),
            v,
        ),
    decreases expr, 2nat,
{
    if let Some(value) = const_eval(expr) {
        let ghost c0 = out.code@;
        let ghost p0 = out.ptr as int;
        out.clear(dst);
        out.set_const(dst, value);
        proof {
            lemma_grow(
                c0,
                clear_code(p0, dst as int),
                set_const_code(dst as int, dst as int, const_tmp_cell(out.scratch_base as int, dst as int), value),
                out.code@,
            );
        }
        return Ok(());
    }
    match expr {
        Expr::Byte(value) => {
            out.clear(dst);
            out.set_const(dst, *value);
        },
        Expr::Var(src) => {
            if *src != dst {
                let tmp = alloc_temp(reserved)?;
                out.clear(dst);
                out.copy_add(*src, dst, tmp);
            }
        },
        Expr::ArrayGet { base, len, index } => {
            emit_array_get(*base, *len, index, dst, out, reserved)?;
        },
        Expr::Call { .. } => {
            return Err(internal_error("function call reached direct expression codegen"));
        },
        Expr::Unary { op, expr: inner } => {
            emit_expr_to(inner, dst, out, reserved)?;
            emit_unary_op(*op, dst, out, reserved)?;
        },
        Expr::Binary { left, op, right } => {
            if emit_const_binary_to(expr, dst, out, reserved)? {
                return Ok(());
            }
            if reads_cell(right, dst) {
                // The right operand reads `dst`: compute the whole operation in temporaries and
                // write `dst` only at the end.
                let mut res = with_cell(reserved, dst);
                let lhs_tmp = alloc_temp(&res)?;
                res.push(lhs_tmp);
                emit_expr_to(left, lhs_tmp, out, &res)?;
                let rhs_tmp = alloc_temp(&res)?;
                res.push(rhs_tmp);
                emit_expr_to(right, rhs_tmp, out, &res)?;
                emit_binary_op(*op, lhs_tmp, rhs_tmp, out, &res)?;
                out.clear(dst);
                out.move_add(lhs_tmp, dst);
            } else {
                emit_expr_to(left, dst, out, reserved)?;
                let mut rhs_reserved = with_cell(reserved, dst);
                let rhs_tmp = alloc_temp(&rhs_reserved)?;
                rhs_reserved.push(rhs_tmp);
                emit_expr_to(right, rhs_tmp, out, &rhs_reserved)?;
                emit_binary_op(*op, dst, rhs_tmp, out, &rhs_reserved)?;
            }
        },
    }
    Ok(())
}

/// Whether evaluating `e` may read `cell`: a variable at it, an array that spans it, or an
/// index or operand that does (a call counts as reading every cell).
pub open spec fn expr_reads(e: Expr, cell: usize) -> bool
    decreases e,
{
    match e {
        Expr::Byte(_) => false,
        Expr::Var(c) => c == cell,
        Expr::ArrayGet { base, len, index } => (base <= cell && cell - base < len) || expr_reads(
            *index,
            cell,
        ),
        Expr::Call { .. } => true,
        Expr::Unary { expr, .. } => expr_reads(*expr, cell),
        Expr::Binary { left, right, .. } => expr_reads(*left, cell) || expr_reads(*right, cell),
    }
}

fn reads_cell(e: &Expr, cell: usize) -> (b: bool)
    ensures
        b == expr_reads(*e, cell),
    decreases e,
{
    match e {
        Expr::Byte(_) => false,
        Expr::Var(c) => *c == cell,
        Expr::ArrayGet { base, len, index } => (*base <= cell && cell - *base < *len) || reads_cell(
            index,
            cell,
        ),
        Expr::Call { .. } => true,
        Expr::Unary { expr, .. } => reads_cell(expr, cell),
        Expr::Binary { left, right, .. } => reads_cell(left, cell) || reads_cell(right, cell),
    }
}

/// Applies a unary operator to `dst` in place.
fn emit_unary_op(op: UnOp, dst: usize, out: &mut BfOut, reserved: &Vec<usize>) -> (r: Result<(), String>)
    requires
        old(out).inv(),
    ensures
        final(out).after(old(out), r is Ok),
        ok_or_internal(r),
        r is Ok ==> final(out).steps@ == old(out).steps@ + unary_steps(op, dst),
{
    let tmp = alloc_temp(reserved)?;
    match op {
        UnOp::Not => out.logical_not(dst, tmp),
        UnOp::BitNot => out.rsub_const(dst, 255, tmp),
    }
    assert(out.steps@ =~= old(out).steps@ + unary_steps(op, dst));
    Ok(())
}

/// Combines `dst` with the right operand in `rhs` by `op`, leaving the result in `dst`.
fn emit_binary_op(op: BinOp, dst: usize, rhs: usize, out: &mut BfOut, reserved: &Vec<usize>) -> (r: Result<(), String>)
    requires
        old(out).inv(),
    ensures
        final(out).after(old(out), r is Ok),
        ok_or_internal(r),
        is_comparison(op) && r is Ok ==> final(out).steps@ == old(out).steps@ + comparison_steps(op, dst, rhs),
        r is Ok ==> final(out).steps@ == old(out).steps@ + binary_steps(op, dst, rhs),
{
    match op {
        BinOp::Or => {
            let tmp = alloc_temp(reserved)?;
            out.boolify(dst, tmp);
            out.boolify(rhs, tmp);
            out.move_add(rhs, dst);
            out.boolify(dst, tmp);
        },
        BinOp::And => {
            let tmp = alloc_temp(reserved)?;
            out.boolify(dst, tmp);
            out.boolify(rhs, tmp);
            out.bool_and(dst, rhs, tmp);
        },
        BinOp::BitOr => out.bitwise(dst, rhs, BitOp::Or)?,
        BinOp::BitXor => out.bitwise(dst, rhs, BitOp::Xor)?,
        BinOp::BitAnd => out.bitwise(dst, rhs, BitOp::And)?,
        BinOp::Shl => out.shift(dst, rhs, ShiftOp::Left)?,
        BinOp::Shr => out.shift(dst, rhs, ShiftOp::Right)?,
        BinOp::Add => out.move_add(rhs, dst),
        BinOp::Sub => out.move_sub(rhs, dst),
        BinOp::Mul => {
            let tmp = alloc_temp(reserved)?;
            let mul_reserved = with_cell(reserved, tmp);
            let tmp1 = alloc_temp(&mul_reserved)?;
            out.mul(dst, rhs, tmp, tmp1);
        },
        BinOp::Div => out.divmod(dst, rhs, DivModResult::Quotient),
        BinOp::Mod => out.divmod(dst, rhs, DivModResult::Remainder),
        BinOp::Eq => out.eq(dst, rhs),
        BinOp::Ne => {
            let tmp = alloc_temp(reserved)?;
            out.eq(dst, rhs);
            out.logical_not(dst, tmp);
        },
        BinOp::Lt => out.ordered_compare(dst, rhs, OrderedOp::Lt),
        BinOp::Le => out.ordered_compare(dst, rhs, OrderedOp::Le),
        BinOp::Gt => out.ordered_compare(dst, rhs, OrderedOp::Gt),
        BinOp::Ge => out.ordered_compare(dst, rhs, OrderedOp::Ge),
    }
    assert(is_comparison(op) ==> out.steps@ =~= old(out).steps@ + comparison_steps(op, dst, rhs));
    assert(out.steps@ =~= old(out).steps@ + binary_steps(op, dst, rhs));
    Ok(())
}

/// For a binary expression with one constant operand, code that applies the constant
/// directly; `Ok(false)` when no such shortcut applies (and nothing was emitted).
fn emit_const_binary_to(expr: &Expr, dst: usize, out: &mut BfOut, reserved: &Vec<usize>) -> (r: Result<bool, String>)
    requires
        old(out).inv(),
        expr is Binary,
    ensures
        final(out).after(old(out), r is Ok),
        ok_or_internal(r),
        r matches Ok(false) ==> *final(out) == *old(out),
    decreases expr, 1nat,
{
    match expr {
        Expr::Binary { left, op, right } => {
            if let Some(value) = const_eval(right) {
                match op {
                    BinOp::Add => {
                        emit_expr_to(left, dst, out, reserved)?;
                        out.add_const(dst, value);
                        return Ok(true);
                    },
                    BinOp::Sub => {
                        emit_expr_to(left, dst, out, reserved)?;
                        out.sub_const(dst, value);
                        return Ok(true);
                    },
                    BinOp::Mul => {
                        emit_expr_to(left, dst, out, reserved)?;
                        let tmp = alloc_temp(reserved)?;
                        out.mul_const(dst, value, tmp);
                        return Ok(true);
                    },
                    BinOp::Div => {
                        emit_expr_to(left, dst, out, reserved)?;
                        out.divmod_const(dst, value, DivModResult::Quotient);
                        return Ok(true);
                    },
                    BinOp::Mod => {
                        emit_expr_to(left, dst, out, reserved)?;
                        out.divmod_const(dst, value, DivModResult::Remainder);
                        return Ok(true);
                    },
                    _ => {},
                }
            }
            if let Some(value) = const_eval(left) {
                match op {
                    BinOp::Add => {
                        emit_expr_to(right, dst, out, reserved)?;
                        out.add_const(dst, value);
                        return Ok(true);
                    },
                    BinOp::Mul => {
                        emit_expr_to(right, dst, out, reserved)?;
                        let tmp = alloc_temp(reserved)?;
                        out.mul_const(dst, value, tmp);
                        return Ok(true);
                    },
                    BinOp::Sub => {
                        emit_expr_to(right, dst, out, reserved)?;
                        let tmp = alloc_temp(reserved)?;
                        out.rsub_const(dst, value, tmp);
                        return Ok(true);
                    },
                    _ => {},
                }
            }
            Ok(false)
        },
        _ => Ok(false),
    }
}

/// Loads element `index` of an array into `dst`: directly for a constant index, else through
/// the array's header cells.
fn emit_array_get(base: usize, len: usize, index: &Expr, dst: usize, out: &mut BfOut, reserved: &Vec<usize>) -> (r: Result<(), String>)
    requires
        old(out).inv(),
    ensures
        final(out).after(old(out), r is Ok),
        ok_or_internal(r),
    decreases index, 4nat,
{
    if let Some(i) = const_eval(index) {
        let cell = array_elem(base, len, i as usize)?;
        if cell != dst {
            let tmp = alloc_temp(reserved)?;
            out.clear(dst);
            out.copy_add(cell, dst, tmp);
        }
        return Ok(());
    }
    let value_cell = cell_at(base, 3)?;
    emit_array_index(index, base + 1, out, reserved)?;
    out.tritonio_array_get(base);
    if dst != value_cell {
        out.clear(dst);
        out.move_add(value_cell, dst);
    }
    Ok(())
}

/// Computes an array index into `index_cell` and copies it to the next cell, using the cell
/// before as the temporary.
fn emit_array_index(index: &Expr, index_cell: usize, out: &mut BfOut, reserved: &Vec<usize>) -> (r: Result<(), String>)
    requires
        old(out).inv(),
        1 <= index_cell < usize::MAX,
    ensures
        final(out).after(old(out), r is Ok),
        ok_or_internal(r),
    decreases index, 3nat,
{
    emit_expr_to(index, index_cell, out, reserved)?;
    out.clear(index_cell + 1);
    out.copy_add(index_cell, index_cell + 1, index_cell - 1);
    Ok(())
}

/// Stores a value in element `index` of an array.
fn emit_array_set(base: usize, len: usize, index: &Expr, expr: &Expr, out: &mut BfOut) -> (r: Result<(), String>)
    requires
        old(out).inv(),
    ensures
        final(out).after(old(out), r is Ok),
        ok_or_internal(r),
{
    if let Some(i) = const_eval(index) {
        let cell = array_elem(base, len, i as usize)?;
        emit_expr_to(expr, cell, out, &vec![cell])?;
        return Ok(());
    }
    let value_cell = cell_at(base, 3)?;
    emit_expr_to(expr, T0, out, &vec![T0, base, base + 1, base + 2, value_cell])?;
    out.clear(value_cell);
    out.move_add(T0, value_cell);
    emit_array_index(index, base + 1, out, &vec![base, base + 1, base + 2, value_cell])?;
    out.tritonio_array_set(base);
    Ok(())
}

/// Reads an input byte into element `index` of an array.
fn emit_array_read(base: usize, len: usize, index: &Expr, out: &mut BfOut) -> (r: Result<(), String>)
    requires
        old(out).inv(),
    ensures
        final(out).after(old(out), r is Ok),
        ok_or_internal(r),
{
    if let Some(i) = const_eval(index) {
        let cell = array_elem(base, len, i as usize)?;
        out.read(cell);
        return Ok(());
    }
    let value_cell = cell_at(base, 3)?;
    emit_array_index(index, base + 1, out, &vec![base, base + 1, base + 2, value_cell])?;
    out.read(value_cell);
    out.tritonio_array_set(base);
    Ok(())
}

/// The cells of the innermost loop that `break` and `continue` act on.
#[derive(Clone, Copy)]
struct LoopContext {
    guard: usize,
    active: usize,
    recheck: usize,
    continue_target: Option<usize>,
}

fn emit_let(cell: usize, init: &Option<Expr>, out: &mut BfOut) -> (r: Result<(), String>)
    requires
        old(out).inv(),
    ensures
        final(out).after(old(out), r is Ok),
        ok_or_internal(r),
{
    match init {
        Some(expr) => emit_expr_to(expr, cell, out, &vec![cell]),
        None => {
            out.clear(cell);
            Ok(())
        },
    }
}

/// Clears an array with its header cells and stores its initial bytes.
fn emit_let_array(base: usize, len: usize, init: &Vec<u8>, out: &mut BfOut) -> (r: Result<(), String>)
    requires
        old(out).inv(),
    ensures
        final(out).after(old(out), r is Ok),
        ok_or_internal(r),
{
    let first = cell_at(base, 4)?;
    let end = cell_at(first, len)?;
    let mut cell = base;
    while cell < end
        invariant
            out.keeps(old(out)),
            base <= cell <= end,
        decreases end - cell,
    {
        out.clear(cell);
        cell = cell + 1;
    }
    let mut offset: usize = 0;
    while offset < init.len()
        invariant
            out.keeps(old(out)),
        decreases init@.len() - offset,
    {
        let target = cell_at(first, offset)?;
        out.set_const(target, init[offset]);
        offset = offset + 1;
    }
    Ok(())
}

fn emit_put(expr: &Expr, out: &mut BfOut) -> (r: Result<(), String>)
    requires
        old(out).inv(),
    ensures
        final(out).after(old(out), r is Ok),
        ok_or_internal(r),
        const_value(*expr) matches Some(v) ==> r is Ok && final(out).code@ == old(out).code@
            + const_to_code(old(out).ptr as int, T0 as int, old(out).scratch_base as int, v) + moves(
            set_const_end(T0 as int, T0 as int, const_tmp_cell(old(out).scratch_base as int, T0 as int), v),
            T0 as int,
        ) + seq!['.'],
{
    emit_expr_to(expr, T0, out, &vec![T0])?;
    out.put(T0);
    Ok(())
}

fn emit_print(expr: &Expr, newline: bool, out: &mut BfOut) -> (r: Result<(), String>)
    requires
        old(out).inv(),
    ensures
        final(out).after(old(out), r is Ok),
        ok_or_internal(r),
{
    emit_expr_to(expr, T0, out, &vec![T0])?;
    out.print_byte_decimal(T0)?;
    if newline {
        out.put_byte_const(10);
    }
    Ok(())
}

/// The code has an output instruction `.`.
pub open spec fn has_output(s: Seq<char>) -> bool {
    exists|i: int| 0 <= i < s.len() && s[i] == '.'
}

/// One of the statements prints a non-empty string.
pub open spec fn prints_text(stmts: Seq<Stmt>) -> bool {
    exists|j: int| 0 <= j < stmts.len() && (#[trigger] stmts[j] matches Stmt::Puts(b) && b@.len() > 0)
}

proof fn lemma_put_bytes_output(bytes: Seq<u8>)
    requires
        bytes.len() > 0,
    ensures
        put_bytes_code(bytes).last() == '.',
        put_bytes_code(bytes).len() > 0,
{
    let cur = if bytes.len() >= 2 { bytes[bytes.len() - 2] } else { 0u8 };
    let step = put_step(cur, bytes.last());
    assert(step.last() == '.');
}

proof fn lemma_output_kept(a: Seq<char>, b: Seq<char>)
    requires
        has_output(a),
        begins_with(b, a),
    ensures
        has_output(b),
{
    let i = choose|i: int| 0 <= i < a.len() && a[i] == '.';
    assert(b[i] == '.');
}

/// Collapsing clear loops keeps every output instruction.
proof fn lemma_collapse_keeps_output(s: Seq<char>)
    requires
        has_output(s),
    ensures
        has_output(collapse_clears(s)),
    decreases s.len(),
{
    let p = s.drop_last();
    let c = s.last();
    let o = collapse_clears(p).push(c);
    if c == '.' {
        if o.len() >= 6 && is_double_clear_at(o, o.len() - 6) {
            assert(o[o.len() - 1] == ']');
        }
        assert(o[o.len() - 1] == '.');
    } else {
        let i = choose|i: int| 0 <= i < s.len() && s[i] == '.';
        assert(p[i] == '.');
        lemma_collapse_keeps_output(p);
        let k = choose|k: int| 0 <= k < collapse_clears(p).len() && collapse_clears(p)[k] == '.';
        assert(o[k] == '.');
        if o.len() >= 6 && is_double_clear_at(o, o.len() - 6) {
            assert(k != o.len() - 3 && k != o.len() - 2);
            assert(o.take(o.len() - 3)[k] == '.');
        }
    }
}

fn emit_stmts(stmts: &Vec<Stmt>, out: &mut BfOut, loop_ctx: Option<LoopContext>) -> (r: Result<(), String>)
    requires
        old(out).inv(),
    ensures
        final(out).after(old(out), r is Ok),
        ok_or_internal(r),
        stmts@.len() == 0 ==> r is Ok && *final(out) == *old(out),
        loop_ctx is None && prints_text(stmts@) ==> (r is Ok ==> has_output(final(out).code@)),
    decreases stmts, 3nat,
{
    let mut i: usize = 0;
    while i < stmts.len()
        invariant
            out.keeps(old(out)),
            stmts@.len() == 0 ==> *out == *old(out),
            loop_ctx is None && (exists|j: int| 0 <= j < i && (#[trigger] stmts@[j] matches Stmt::Puts(b)
                && b@.len() > 0)) ==> has_output(out.code@),
            i <= stmts@.len(),
        decreases stmts@.len() - i,
    {
        proof {
            vstd::std_specs::vec::axiom_vec_index_decreases(*stmts, i as int);
        }
        let ghost before = *out;
        match loop_ctx {
            Some(ctx) => emit_controlled_stmt(&stmts[i], out, ctx)?,
            None => emit_stmt(&stmts[i], out, None)?,
        }
        proof {
            if loop_ctx is None {
                if has_output(before.code@) {
                    lemma_output_kept(before.code@, out.code@);
                }
                if let Stmt::Puts(b) = stmts@[i as int] {
                    if b@.len() > 0 {
                        lemma_put_bytes_output(b@);
                        let tail = clear_code(before.ptr as int, T0 as int) + put_bytes_code(b@);
                        assert(out.code@ == before.code@ + tail);
                        assert(out.code@[out.code@.len() - 1] == '.');
                    }
                }
            }
        }
        i = i + 1;
    }
    Ok(())
}

/// Runs a statement of a loop body only while the loop's `active` flag is set, so that a
/// `break` or `continue` skips the rest of the body.
fn emit_controlled_stmt(stmt: &Stmt, out: &mut BfOut, ctx: LoopContext) -> (r: Result<(), String>)
    requires
        old(out).inv(),
    ensures
        final(out).after(old(out), r is Ok),
        ok_or_internal(r),
    decreases stmt, 2nat,
{
    let exec = out.alloc_control_cell()?;
    out.clear(exec);
    out.copy_add(ctx.active, exec, T0);
    out.goto(exec);
    out.push(OPEN);
    out.clear(exec);
    emit_stmt(stmt, out, Some(ctx))?;
    out.goto(exec);
    out.push(CLOSE);
    out.free_control_cells(1);
    Ok(())
}

fn emit_stmt(stmt: &Stmt, out: &mut BfOut, loop_ctx: Option<LoopContext>) -> (r: Result<(), String>)
    requires
        old(out).inv(),
    ensures
        final(out).after(old(out), r is Ok),
        ok_or_internal(r),
        *stmt matches Stmt::Puts(bytes) ==> r is Ok && final(out).code@ == old(out).code@
            + clear_code(old(out).ptr as int, T0 as int) + put_bytes_code(bytes@),
        *stmt matches Stmt::Read(cell) ==> r is Ok && final(out).code@ == old(out).code@ + moves(
            old(out).ptr as int,
            cell as int,
        ) + seq![','],
        *stmt matches Stmt::Put(e) ==> (const_value(e) matches Some(v) ==> (r is Ok
            && final(out).code@ == old(out).code@ + const_to_code(
            old(out).ptr as int,
            T0 as int,
            old(out).scratch_base as int,
            v,
        ) + moves(
            set_const_end(T0 as int, T0 as int, const_tmp_cell(old(out).scratch_base as int, T0 as int), v),
            T0 as int,
        ) + seq!['.'])),
        *stmt is Call || *stmt is Return ==> r is Err,
        (*stmt is Break || *stmt is Continue) && loop_ctx is None ==> r is Err,
    decreases stmt, 1nat,
{
    match stmt {
        Stmt::Let { cell, init } => emit_let(*cell, init, out),
        Stmt::LetArray { base, len, init } => emit_let_array(*base, *len, init, out),
        Stmt::Assign { cell, expr } => emit_expr_to(expr, *cell, out, &vec![*cell]),
        Stmt::ArraySet { base, len, index, expr } => emit_array_set(*base, *len, index, expr, out),
        Stmt::Put(expr) => emit_put(expr, out),
        Stmt::Puts(bytes) => {
            out.put_bytes(bytes);
            Ok(())
        },
        Stmt::Print(expr) => emit_print(expr, false, out),
        Stmt::Println(expr) => emit_print(expr, true, out),
        Stmt::Read(cell) => {
            out.read(*cell);
            Ok(())
        },
        Stmt::ReadArray { base, len, index } => emit_array_read(*base, *len, index, out),
        Stmt::Call { .. } => Err(internal_error("call reached structured backend")),
        Stmt::Return(_) => Err(internal_error("return reached structured backend")),
        Stmt::Break => match loop_ctx {
            Some(ctx) => {
                out.clear(ctx.active);
                out.clear(ctx.recheck);
                out.clear(ctx.guard);
                if let Some(target) = ctx.continue_target {
                    out.clear(target);
                }
                Ok(())
            },
            None => Err(internal_error("break outside loop")),
        },
        Stmt::Continue => match loop_ctx {
            Some(ctx) => {
                out.clear(ctx.active);
                if let Some(target) = ctx.continue_target {
                    out.clear(target);
                    out.add_const(target, 1);
                }
                Ok(())
            },
            None => Err(internal_error("continue outside loop")),
        },
        Stmt::Block(stmts) => emit_stmts(stmts, out, loop_ctx),
        Stmt::If { .. } => emit_if(stmt, out, loop_ctx),
        Stmt::While { .. } => emit_while(stmt, out),
        Stmt::Loop { .. } => emit_for(stmt, out),
        Stmt::For { .. } => emit_for(stmt, out),
    }
}

/// An `if` statement: the guard runs the then-branch at most once, and an else flag, cleared
/// by the then-branch, runs the else-branch.
fn emit_if(stmt: &Stmt, out: &mut BfOut, loop_ctx: Option<LoopContext>) -> (r: Result<(), String>)
    requires
        old(out).inv(),
    ensures
        final(out).after(old(out), r is Ok),
        ok_or_internal(r),
    decreases stmt, 0nat,
{
    let (cond, then_branch, else_branch) = match stmt {
        Stmt::If { cond, then_branch, else_branch } => (cond, then_branch, else_branch),
        _ => return Err(internal_error("not an if statement")),
    };
    if else_branch.len() == 0 {
        let guard = out.alloc_control_cell()?;
        emit_expr_to(cond, guard, out, &vec![guard])?;
        out.boolify(guard, T0);
        out.goto(guard);
        out.push(OPEN);
        out.clear(guard);
        emit_stmts(then_branch, out, loop_ctx)?;
        out.goto(guard);
        out.push(CLOSE);
        out.free_control_cells(1);
        return Ok(());
    }

    let guard = out.alloc_control_cell()?;
    let else_flag = out.alloc_control_cell()?;
    emit_expr_to(cond, guard, out, &vec![guard, else_flag])?;
    out.boolify(guard, T0);
    out.clear(else_flag);
    out.add_const(else_flag, 1);

    out.goto(guard);
    out.push(OPEN);
    out.clear(guard);
    emit_stmts(then_branch, out, loop_ctx)?;
    out.clear(else_flag);
    out.goto(guard);
    out.push(CLOSE);

    out.goto(else_flag);
    out.push(OPEN);
    out.clear(else_flag);
    emit_stmts(else_branch, out, loop_ctx)?;
    out.goto(else_flag);
    out.push(CLOSE);

    out.free_control_cells(2);
    Ok(())
}

/// A `while` loop: the guard holds the condition; `active` and `recheck` let `break` and
/// `continue` skip the rest of the body and the re-evaluation of the condition.
fn emit_while(stmt: &Stmt, out: &mut BfOut) -> (r: Result<(), String>)
    requires
        old(out).inv(),
    ensures
        final(out).after(old(out), r is Ok),
        ok_or_internal(r),
    decreases stmt, 0nat,
{
    let (cond, body) = match stmt {
        Stmt::While { cond, body } => (cond, body),
        _ => return Err(internal_error("not a while loop")),
    };
    let guard = out.alloc_control_cell()?;
    let active = out.alloc_control_cell()?;
    let recheck = out.alloc_control_cell()?;
    let ctx = LoopContext { guard, active, recheck, continue_target: None };

    emit_expr_to(cond, guard, out, &vec![guard])?;
    out.boolify(guard, T0);

    out.goto(guard);
    out.push(OPEN);
    out.clear(active);
    out.add_const(active, 1);
    out.clear(recheck);
    out.add_const(recheck, 1);
    emit_stmts(body, out, Some(ctx))?;
    out.goto(recheck);
    out.push(OPEN);
    out.clear(recheck);
    emit_expr_to(cond, guard, out, &vec![guard, active, recheck])?;
    out.boolify(guard, T0);
    out.goto(recheck);
    out.push(CLOSE);
    out.goto(guard);
    out.push(CLOSE);

    out.free_control_cells(3);
    Ok(())
}

/// A `for` loop, or a `loop` (a `for` with no parts): a step flag, cleared by `break`, runs
/// the step after the body and after `continue`.
#[verifier::rlimit(100)]
#[verifier::spinoff_prover]
fn emit_for(stmt: &Stmt, out: &mut BfOut) -> (r: Result<(), String>)
    requires
        old(out).inv(),
    ensures
        final(out).after(old(out), r is Ok),
        ok_or_internal(r),
    decreases stmt, 0nat,
{
    let (init, cond, step, body) = match stmt {
        Stmt::For { init, cond, step, body } => (init, cond, step, body),
        Stmt::Loop { body } => (&None, &None, &None, body),
        _ => return Err(internal_error("not a loop")),
    };
    if let Some(init) = init {
        emit_stmt(init, out, None)?;
    }

    let guard = out.alloc_control_cell()?;
    let active = out.alloc_control_cell()?;
    let recheck = out.alloc_control_cell()?;
    let step_flag = out.alloc_control_cell()?;
    let ctx = LoopContext { guard, active, recheck, continue_target: Some(step_flag) };

    emit_loop_cond(cond, guard, out, &vec![guard])?;

    out.goto(guard);
    out.push(OPEN);
    out.clear(active);
    out.add_const(active, 1);
    out.clear(recheck);
    out.add_const(recheck, 1);
    out.clear(step_flag);

    emit_stmts(body, out, Some(ctx))?;

    out.copy_add(active, step_flag, T0);
    out.goto(step_flag);
    out.push(OPEN);
    out.clear(step_flag);
    if let Some(step) = step {
        emit_stmt(step, out, None)?;
    }
    out.goto(step_flag);
    out.push(CLOSE);

    out.goto(recheck);
    out.push(OPEN);
    out.clear(recheck);
    emit_loop_cond(cond, guard, out, &vec![guard, active, recheck, step_flag])?;
    out.goto(recheck);
    out.push(CLOSE);
    out.goto(guard);
    out.push(CLOSE);

    out.free_control_cells(4);
    Ok(())
}

/// The loop condition into `guard` as 0 or 1; an absent condition is always true.
fn emit_loop_cond(cond: &Option<Expr>, guard: usize, out: &mut BfOut, reserved: &Vec<usize>) -> (r: Result<(), String>)
    requires
        old(out).inv(),
    ensures
        final(out).after(old(out), r is Ok),
        ok_or_internal(r),
{
    match cond {
        Some(cond) => {
            emit_expr_to(cond, guard, out, reserved)?;
            out.boolify(guard, T0);
        },
        None => {
            out.clear(guard);
            out.add_const(guard, 1);
        },
    }
    Ok(())
}

proof fn lemma_depth_concat(a: Seq<char>, b: Seq<char>)
    ensures
        depth(a + b) == depth(a) + depth(b),
    decreases b.len(),
{
    if b.len() == 0 {
        assert(a + b =~= a);
    } else {
        assert((a + b).drop_last() =~= a + b.drop_last());
        lemma_depth_concat(a, b.drop_last());
    }
}

proof fn lemma_prefix_never_negative(s: Seq<char>, k: int)
    requires
        never_negative(s),
        0 <= k <= s.len(),
    ensures
        never_negative(s.take(k)),
{
    assert forall|i: int| 0 <= i <= s.take(k).len() implies #[trigger] depth(s.take(k).take(i)) >= 0 by {
        assert(s.take(k).take(i) =~= s.take(i));
    }
}

proof fn lemma_prefix_no_double_clear(s: Seq<char>, k: int)
    requires
        !has_double_clear(s),
        0 <= k <= s.len(),
    ensures
        !has_double_clear(s.take(k)),
{
    assert forall|i: int| 0 <= i && i + 6 <= s.take(k).len() implies !#[trigger] is_double_clear_at(s.take(k), i) by {
        assert(!is_double_clear_at(s, i));
    }
}

/// Whether the code ends with two clear loops `[-][-]`.
fn ends_with_double_clear(code: &Vec<char>) -> (b: bool)
    ensures
        b == (code@.len() >= 6 && is_double_clear_at(code@, code@.len() - 6)),
{
    let n = code.len();
    if n < 6 {
        return false;
    }
    code[n - 6] == '[' && code[n - 5] == '-' && code[n - 4] == ']' && code[n - 3] == '['
        && code[n - 2] == '-' && code[n - 1] == ']'
}

/// `s` with every run of adjacent clear loops `[-][-]...` collapsed into one `[-]`, reading
/// left to right: each character is appended, and a `[-]` that follows another is dropped.
pub open spec fn collapse_clears(s: Seq<char>) -> Seq<char>
    decreases s.len(),
{
    if s.len() == 0 {
        Seq::empty()
    } else {
        let o = collapse_clears(s.drop_last()).push(s.last());
        if o.len() >= 6 && is_double_clear_at(o, o.len() - 6) {
            o.take(o.len() - 3)
        } else {
            o
        }
    }
}

/// Code without two adjacent clear loops is left as it is by collapsing, so collapsing what
/// the optimizer produced (which has none) changes nothing: the optimization is idempotent.
pub proof fn law_collapse_fixes_clean_code(s: Seq<char>)
    requires
        !has_double_clear(s),
    ensures
        collapse_clears(s) == s,
    decreases s.len(),
{
    if s.len() > 0 {
        let p = s.drop_last();
        assert(!has_double_clear(p)) by {
            if has_double_clear(p) {
                let i = choose|i: int| 0 <= i && i + 6 <= p.len() && #[trigger] is_double_clear_at(p, i);
                assert(is_double_clear_at(s, i));
            }
        }
        law_collapse_fixes_clean_code(p);
        assert(p.push(s.last()) =~= s);
        if s.len() >= 6 && is_double_clear_at(s, s.len() - 6) {
            assert(has_double_clear(s));
        }
    }
}

/// Collapses every run of adjacent clear loops `[-][-]...` into a single `[-]`.
#[verifier::spinoff_prover]
#[verifier::rlimit(50)]
fn optimize_bf(code: &Vec<char>) -> (r: Vec<char>)
    requires
        valid_bf(code@),
    ensures
        valid_bf(r@),
        !has_double_clear(r@),
        r@ == collapse_clears(code@),
{
    let mut out: Vec<char> = Vec::new();
    let mut i: usize = 0;
    while i < code.len()
        invariant
            valid_bf(code@),
            i <= code@.len(),
            all_bf(out@),
            never_negative(out@),
            depth(out@) == depth(code@.take(i as int)),
            !has_double_clear(out@),
            out@ == collapse_clears(code@.take(i as int)),
        decreases code@.len() - i,
    {
        let c = code[i];
        proof {
            assert(code@.take(i + 1).drop_last() =~= code@.take(i as int));
            assert(code@.take(i + 1).last() == c);
            lemma_take_push(code@, i as int);
            assert(depth(code@.take(i + 1)) >= 0);
            lemma_push(out@, c);
        }
        let ghost before = out@;
        out.push(c);
        if ends_with_double_clear(&out) {
            let ghost pushed = out@;
            let keep = out.len() - 3;
            out.truncate(keep);
            proof {
                assert(pushed.take(keep as int) =~= out@);
                lemma_prefix_never_negative(pushed, keep as int);
                assert(pushed =~= out@ + pushed.skip(keep as int));
                assert(pushed.skip(keep as int) =~= seq!['[', '-', ']']);
                lemma_depth_concat(out@, pushed.skip(keep as int));
                assert(depth(seq!['[', '-', ']']) == 0) by {
                    let t3 = seq!['[', '-', ']'];
                    let t2 = seq!['[', '-'];
                    let t1 = seq!['['];
                    assert(t3.drop_last() =~= t2);
                    assert(t2.drop_last() =~= t1);
                    assert(t1.drop_last() =~= Seq::<char>::empty());
                    assert(depth(Seq::<char>::empty()) == 0);
                    assert(t1.last() == '[');
                    assert(bracket_delta('[') == 1);
                    assert(depth(t1) == 1);
                    assert(depth(t2) == 1);
                }
                assert(before.take(keep as int) =~= out@);
                lemma_prefix_no_double_clear(before, keep as int);
            }
        } else {
            proof {
                assert forall|k: int| 0 <= k && k + 6 <= out@.len() implies !#[trigger] is_double_clear_at(out@, k) by {
                    if k + 6 < out@.len() {
                        assert(!is_double_clear_at(before, k));
                    }
                }
            }
        }
        proof {
            assert forall|k: int| 0 <= k < out@.len() implies is_bf_char(#[trigger] out@[k]) by {
                if k < before.len() {
                } else {
                }
            }
        }
        i = i + 1;
    }
    proof {
        assert(code@.take(code@.len() as int) =~= code@);
        assert(out@.take(out@.len() as int) =~= out@);
    }
    out
}

/// The error when the structured backend is asked to compile functions.
pub open spec fn functions_need_pc_msg() -> Seq<char> {
    "functions require the pc backend (`-b pc`)"@
}

/// Compiles a resolved program without functions to Brainfuck with structured control flow:
/// every `if` and loop becomes Brainfuck loops over guard cells. The output is a valid
/// Brainfuck program with no two adjacent clear loops.
pub fn compile(program: &ResolvedProgram) -> (r: Result<String, String>)
    requires
        program.symbols.wf(),
    ensures
        program.functions@.len() > 0 <==> (r matches Err(e) && e@ == functions_need_pc_msg()),
        r matches Ok(code) ==> valid_bf(code@) && !has_double_clear(code@),
        r matches Err(e) ==> e@ == functions_need_pc_msg() || is_internal_error(e@),
        program.functions@.len() == 0 && program.stmts@.len() == 0 ==> (r matches Ok(code)
            && code@.len() == 0),
        prints_text(program.stmts@) ==> (r matches Ok(code) ==> has_output(code@)),
{
    proof {
        lemma_internal_differs();
    }
    if program.functions.len() > 0 {
        return Err("functions require the pc backend (`-b pc`)".to_string());
    }
    let mut out = BfOut::with_control_depth(program.symbols.scratch_base(), 0);
    emit_stmts(&program.stmts, &mut out, None)?;
    proof {
        if prints_text(program.stmts@) {
            lemma_collapse_keeps_output(out.code@);
        }
    }
    Ok(finish(&out))
}

/// The finished program text: the optimized code as a string.
fn finish(out: &BfOut) -> (s: String)
    requires
        out.inv(),
        depth(out.code@) == 0,
    ensures
        valid_bf(s@),
        !has_double_clear(s@),
        s@ == collapse_clears(out.code@),
{
    let code = optimize_bf(&out.code);
    string_of(code.as_slice())
}

/// The cells of the program-counter runtime, above the scratch cells.
#[derive(Clone, Copy)]
struct PcRuntime {
    pc: usize,
    running: usize,
    dispatch_pc: usize,
    matched: usize,
    expected: usize,
    rv: usize,
    call_depth: usize,
    ret_base: usize,
}

/// Cells the runtime keeps below the control cells: seven registers and one return slot
/// per call level.
const PC_RESERVED_CELLS: usize = 23;

pub open spec fn too_many_blocks_msg() -> Seq<char> {
    "pc backend supports at most 256 basic blocks"@
}

/// A loop on `c` that clears it, sets cell `pc` to `v` and clears `c + 1`.
spec fn then_select_code(c: int, pc: int, scratch_base: int, v: u8) -> Seq<char> {
    let tmp = const_tmp_cell(scratch_base, pc);
    seq!['['] + clear_code(c, c) + set_const_code(c, pc, tmp, v) + clear_code(
        set_const_end(c, pc, tmp, v),
        c + 1,
    ) + moves(c + 1, c) + seq![']']
}

/// A loop on `e` that clears it and sets cell `pc` to `v`.
spec fn else_select_code(e: int, pc: int, scratch_base: int, v: u8) -> Seq<char> {
    let tmp = const_tmp_cell(scratch_base, pc);
    seq!['['] + clear_code(e, e) + set_const_code(e, pc, tmp, v) + moves(set_const_end(e, pc, tmp, v), e)
        + seq![']']
}

/// The end of a branch, once its condition is a 0 or 1 in cell `c` and cell `c + 1` holds
/// 1: a loop on `c` that sets the program counter to `then_v` and clears `c + 1`, then a loop
/// on `c + 1` that sets it to `else_v`.
spec fn branch_select_code(c: int, pc: int, scratch_base: int, then_v: u8, else_v: u8) -> Seq<char> {
    then_select_code(c, pc, scratch_base, then_v) + moves(c, c + 1) + else_select_code(
        c + 1,
        pc,
        scratch_base,
        else_v,
    )
}

impl BfOut {
    /// A loop on `c` that clears it, sets cell `pc` to `value` and clears `c + 1`.
    #[verifier::spinoff_prover]
    #[verifier::rlimit(50)]
    fn select_then(&mut self, c: usize, pc: usize, value: u8)
        requires
            old(self).inv(),
            c < usize::MAX,
        ensures
            final(self).keeps(old(self)),
            final(self).ptr == c,
            final(self).code@ == old(self).code@ + moves(old(self).ptr as int, c as int)
                + then_select_code(c as int, pc as int, old(self).scratch_base as int, value),
    {
        let e = c + 1;
        let ghost m0 = self.code@;
        let ghost p0 = self.ptr as int;
        self.goto(c);
        self.push(OPEN);
        let ghost m1 = self.code@;
        self.clear(c);
        let ghost m2 = self.code@;
        self.set_const(pc, value);
        let ghost m3 = self.code@;
        let ghost p3 = self.ptr as int;
        self.clear(e);
        let ghost m4 = self.code@;
        self.goto(c);
        self.push(CLOSE);
        proof {
            let tmp = const_tmp_cell(self.scratch_base as int, pc as int);
            assert(m1 =~= m0 + (moves(p0, c as int) + seq![OPEN]));
            assert(m4 =~= m1 + (clear_code(c as int, c as int) + set_const_code(c as int, pc as int, tmp, value)
                + clear_code(p3, e as int)));
            assert(self.code@ =~= m4 + (moves(e as int, c as int) + seq![CLOSE]));
            assert(self.code@ =~= m0 + moves(p0, c as int) + then_select_code(
                c as int,
                pc as int,
                self.scratch_base as int,
                value,
            ));
        }
    }

    /// A loop on `e` that clears it and sets cell `pc` to `value`.
    #[verifier::spinoff_prover]
    #[verifier::rlimit(50)]
    fn select_else(&mut self, e: usize, pc: usize, value: u8)
        requires
            old(self).inv(),
        ensures
            final(self).keeps(old(self)),
            final(self).code@ == old(self).code@ + moves(old(self).ptr as int, e as int)
                + else_select_code(e as int, pc as int, old(self).scratch_base as int, value),
    {
        let ghost m0 = self.code@;
        let ghost p0 = self.ptr as int;
        self.goto(e);
        self.push(OPEN);
        let ghost m1 = self.code@;
        self.clear(e);
        self.set_const(pc, value);
        let ghost m3 = self.code@;
        let ghost p3 = self.ptr as int;
        self.goto(e);
        self.push(CLOSE);
        proof {
            let tmp = const_tmp_cell(self.scratch_base as int, pc as int);
            assert(m1 =~= m0 + (moves(p0, e as int) + seq![OPEN]));
            assert(m3 =~= m1 + (clear_code(e as int, e as int) + set_const_code(e as int, pc as int, tmp, value)));
            assert(self.code@ =~= m3 + (moves(p3, e as int) + seq![CLOSE]));
            assert(self.code@ =~= m0 + moves(p0, e as int) + else_select_code(
                e as int,
                pc as int,
                self.scratch_base as int,
                value,
            ));
        }
    }

    /// The end of a branch: with the condition, 0 or 1, in `c` and 1 in `c + 1`, sets the
    /// program counter `pc` to `then_value` when the condition holds and to `else_value`
    /// otherwise.
    fn select_branch(&mut self, c: usize, pc: usize, then_value: u8, else_value: u8)
        requires
            old(self).inv(),
            c < usize::MAX,
        ensures
            final(self).keeps(old(self)),
            final(self).code@ == old(self).code@ + moves(old(self).ptr as int, c as int)
                + branch_select_code(c as int, pc as int, old(self).scratch_base as int, then_value, else_value),
    {
        let ghost m0 = self.code@;
        let ghost p0 = self.ptr as int;
        self.select_then(c, pc, then_value);
        let ghost m1 = self.code@;
        self.select_else(c + 1, pc, else_value);
        proof {
            assert(self.code@ =~= m0 + moves(p0, c as int) + branch_select_code(
                c as int,
                pc as int,
                self.scratch_base as int,
                then_value,
                else_value,
            ));
        }
    }
}

/// The number a block has in the program counter.
fn block_value(block: BlockId) -> (r: Result<u8, String>)
    ensures
        block.0 < 256 ==> r == Ok::<u8, String>(block.0 as u8),
        block.0 >= 256 ==> (r matches Err(e) && e@ == too_many_blocks_msg()),
{
    if block.0 < 256 {
        Ok(block.0 as u8)
    } else {
        Err("pc backend supports at most 256 basic blocks".to_string())
    }
}

/// Compiles a resolved program, functions included, to Brainfuck that dispatches on a
/// program counter: one guarded section per basic block, inside one loop that runs until the
/// program halts. The output is a valid Brainfuck program with no two adjacent clear loops.
pub fn compile_pc(program: &ResolvedProgram) -> (r: Result<String, String>)
    requires
        program.symbols.wf(),
    ensures
        r matches Ok(code) ==> valid_bf(code@) && !has_double_clear(code@),
        r matches Err(e) ==> e@ == too_many_blocks_msg() || is_internal_error(e@),
{
    if !is_lowerable(program) {
        return Err(internal_error("program cannot be lowered to basic blocks"));
    }
    let ir = lower(program);
    if ir.blocks.len() > 256 {
        return Err("pc backend supports at most 256 basic blocks".to_string());
    }
    let mut out = BfOut::with_control_depth(program.symbols.scratch_base(), PC_RESERVED_CELLS);
    let base = out.control_base();
    let rt = PcRuntime {
        pc: base,
        running: base + 1,
        dispatch_pc: base + 2,
        matched: base + 3,
        expected: base + 4,
        rv: base + 5,
        call_depth: base + 6,
        ret_base: base + 7,
    };

    let entry = block_value(ir.entry)?;
    out.clear(rt.pc);
    out.set_const(rt.pc, entry);
    out.clear(rt.running);
    out.add_const(rt.running, 1);
    out.clear(rt.call_depth);
    out.clear(rt.rv);
    let mut d: usize = 0;
    while d < MAX_CALL_DEPTH
        invariant
            out.inv(),
            depth(out.code@) == 0,
            out.scratch_base == program.symbols.spec_scratch_base(),
            out.control_depth == PC_RESERVED_CELLS,
            rt.ret_base == out.scratch_base + WORK_CELL_COUNT + 7,
        decreases MAX_CALL_DEPTH - d,
    {
        out.clear(rt.ret_base + d);
        d = d + 1;
    }

    out.goto(rt.running);
    out.push(OPEN);
    out.clear(rt.dispatch_pc);
    out.copy_add(rt.pc, rt.dispatch_pc, T0);

    let ghost start = out;
    let mut index: usize = 0;
    while index < ir.blocks.len()
        invariant
            out.keeps(&start),
            ir.blocks@.len() <= 256,
            rt.ret_base == out.scratch_base + WORK_CELL_COUNT + 7,
            rt.matched == out.scratch_base + WORK_CELL_COUNT + 3,
        decreases ir.blocks@.len() - index,
    {
        let block = &ir.blocks[index];
        out.clear(rt.matched);
        out.copy_add(rt.dispatch_pc, rt.matched, T0);
        out.clear(rt.expected);
        out.set_const(rt.expected, index as u8);
        out.eq(rt.matched, rt.expected);

        out.goto(rt.matched);
        out.push(OPEN);
        out.clear(rt.matched);
        let mut k: usize = 0;
        while k < block.ops.len()
            invariant
                out.inv(),
                depth(out.code@) == depth(start.code@) + 1,
                begins_with(out.code@, start.code@),
                out.scratch_base == start.scratch_base,
                out.control_depth == start.control_depth,
                rt.ret_base == out.scratch_base + WORK_CELL_COUNT + 7,
            decreases block.ops@.len() - k,
        {
            emit_op(&block.ops[k], &mut out, rt)?;
            k = k + 1;
        }
        emit_terminator(&block.terminator, &ir, program, &mut out, rt)?;
        out.goto(rt.matched);
        out.push(CLOSE);
        index = index + 1;
    }

    out.goto(rt.running);
    out.push(CLOSE);
    Ok(finish(&out))
}

fn emit_op(op: &Op, out: &mut BfOut, rt: PcRuntime) -> (r: Result<(), String>)
    requires
        old(out).inv(),
    ensures
        final(out).after(old(out), r is Ok),
        ok_or_internal(r),
        *op matches Op::Puts(bytes) ==> r is Ok && final(out).code@ == old(out).code@ + clear_code(
            old(out).ptr as int,
            T0 as int,
        ) + put_bytes_code(bytes@),
        *op matches Op::Read(cell) ==> r is Ok && final(out).code@ == old(out).code@ + moves(
            old(out).ptr as int,
            cell as int,
        ) + seq![','],
        *op is PutReturn ==> r is Ok && final(out).code@ == old(out).code@ + moves(
            old(out).ptr as int,
            rt.rv as int,
        ) + seq!['.'],
        *op matches Op::StoreReturn(cell) ==> r is Ok && final(out).code@ == old(out).code@
            + clear_code(old(out).ptr as int, cell as int) + copy_add_code(
            cell as int,
            rt.rv as int,
            cell as int,
            T0 as int,
        ),
        *op matches Op::Put(e) ==> (const_value(e) matches Some(v) ==> (r is Ok
            && final(out).code@ == old(out).code@ + const_to_code(
            old(out).ptr as int,
            T0 as int,
            old(out).scratch_base as int,
            v,
        ) + moves(
            set_const_end(T0 as int, T0 as int, const_tmp_cell(old(out).scratch_base as int, T0 as int), v),
            T0 as int,
        ) + seq!['.'])),
{
    match op {
        Op::Let { cell, init } => emit_let(*cell, init, out),
        Op::LetArray { base, len, init } => emit_let_array(*base, *len, init, out),
        Op::Assign { cell, expr } => emit_expr_to(expr, *cell, out, &vec![*cell]),
        Op::ArraySet { base, len, index, expr } => emit_array_set(*base, *len, index, expr, out),
        Op::Put(expr) => emit_put(expr, out),
        Op::Puts(bytes) => {
            out.put_bytes(bytes);
            Ok(())
        },
        Op::Print(expr) => emit_print(expr, false, out),
        Op::Println(expr) => emit_print(expr, true, out),
        Op::Read(cell) => {
            out.read(*cell);
            Ok(())
        },
        Op::ReadArray { base, len, index } => emit_array_read(*base, *len, index, out),
        Op::StoreReturn(cell) => {
            let ghost c0 = out.code@;
            let ghost p0 = out.ptr as int;
            out.clear(*cell);
            out.copy_add(rt.rv, *cell, T0);
            proof {
                lemma_grow(
                    c0,
                    clear_code(p0, *cell as int),
                    copy_add_code(*cell as int, rt.rv as int, *cell as int, T0 as int),
                    out.code@,
                );
            }
            Ok(())
        },
        Op::PutReturn => {
            out.put(rt.rv);
            Ok(())
        },
        Op::PrintReturn => out.print_byte_decimal(rt.rv),
        Op::PrintlnReturn => {
            out.print_byte_decimal(rt.rv)?;
            out.put_byte_const(10);
            Ok(())
        },
    }
}

/// Sets the program counter for the block that runs next.
fn emit_terminator(
    terminator: &Terminator,
    ir: &IrProgram,
    program: &ResolvedProgram,
    out: &mut BfOut,
    rt: PcRuntime,
) -> (r: Result<(), String>)
    requires
        old(out).inv(),
        rt.ret_base <= usize::MAX - MAX_CALL_DEPTH,
    ensures
        final(out).after(old(out), r is Ok),
        r matches Err(e) ==> e@ == too_many_blocks_msg() || is_internal_error(e@),
        *terminator is Halt ==> r is Ok && final(out).code@ == old(out).code@ + clear_code(
            old(out).ptr as int,
            rt.pc as int,
        ) + clear_code(rt.pc as int, rt.running as int),
        *terminator matches Terminator::Jump(t) ==> (t.0 >= 256 ==> (r matches Err(e) && e@
            == too_many_blocks_msg())),
        *terminator matches Terminator::Branch { then_target, else_target, .. } ==> ((then_target.0
            >= 256 || else_target.0 >= 256) ==> (r matches Err(e) && e@ == too_many_blocks_msg())),
        *terminator matches Terminator::Branch { then_target, else_target, .. } ==> (r is Ok
            ==> branch_select_code(
            old(out).scratch_base + WORK_CELL_COUNT + old(out).control_depth,
            rt.pc as int,
            old(out).scratch_base as int,
            then_target.0 as u8,
            else_target.0 as u8,
        ).is_suffix_of(final(out).code@)),
        *terminator matches Terminator::Jump(t) ==> (t.0 < 256 ==> (r is Ok && final(out).code@
            == old(out).code@ + const_to_code(
            old(out).ptr as int,
            rt.pc as int,
            old(out).scratch_base as int,
            t.0 as u8,
        ))),
{
    match terminator {
        Terminator::Jump(target) => {
            let value = block_value(*target)?;
            let ghost c0 = out.code@;
            let ghost p0 = out.ptr as int;
            out.clear(rt.pc);
            out.set_const(rt.pc, value);
            proof {
                lemma_grow(
                    c0,
                    clear_code(p0, rt.pc as int),
                    set_const_code(rt.pc as int, rt.pc as int, const_tmp_cell(out.scratch_base as int, rt.pc as int), value),
                    out.code@,
                );
            }
        },
        Terminator::Branch { cond, then_target, else_target } => {
            let then_value = block_value(*then_target)?;
            let else_value = block_value(*else_target)?;
            let cond_cell = out.alloc_control_cell()?;
            let else_flag = out.alloc_control_cell()?;
            emit_expr_to(cond, cond_cell, out, &vec![cond_cell, else_flag])?;
            out.boolify(cond_cell, T0);
            out.clear(rt.pc);
            out.clear(else_flag);
            out.add_const(else_flag, 1);
            out.select_branch(cond_cell, rt.pc, then_value, else_value);
            proof {
                let sel = branch_select_code(
                    cond_cell as int,
                    rt.pc as int,
                    out.scratch_base as int,
                    then_value,
                    else_value,
                );
                assert(out.code@.subrange(out.code@.len() - sel.len(), out.code@.len() as int) =~= sel);
            }
            out.free_control_cells(2);
        },
        Terminator::Call { function, args, return_target } => {
            let return_value = block_value(*return_target)?;
            set_ret_pc(out, rt, return_value);
            out.add_const(rt.call_depth, 1);
            if *function >= program.functions.len() {
                return Err(internal_error("invalid function index"));
            }
            let callee = &program.functions[*function];
            if callee.params.len() != args.len() {
                return Err(internal_error("argument count mismatch"));
            }
            let mut i: usize = 0;
            while i < args.len()
                invariant
                    out.keeps(old(out)),
                    callee.params@.len() == args@.len(),
                    *terminator is Call,
                decreases args@.len() - i,
            {
                let param = callee.params[i];
                emit_expr_to(&args[i], param, out, &vec![param])?;
                i = i + 1;
            }
            if *function >= ir.function_entries.len() {
                return Err(internal_error("missing function entry"));
            }
            let entry = block_value(ir.function_entries[*function])?;
            out.clear(rt.pc);
            out.set_const(rt.pc, entry);
        },
        Terminator::Return(expr) => {
            emit_expr_to(expr, rt.rv, out, &vec![rt.rv])?;
            out.sub_const(rt.call_depth, 1);
            load_ret_pc(out, rt);
        },
        Terminator::ReturnValue => {
            out.sub_const(rt.call_depth, 1);
            load_ret_pc(out, rt);
        },
        Terminator::Halt => {
            out.clear(rt.pc);
            out.clear(rt.running);
        },
    }
    Ok(())
}

/// Stores `value` in the return slot of the current call depth.
fn set_ret_pc(out: &mut BfOut, rt: PcRuntime, value: u8)
    requires
        old(out).inv(),
        rt.ret_base <= usize::MAX - MAX_CALL_DEPTH,
    ensures
        final(out).keeps(old(out)),
{
    let mut d: usize = 0;
    while d < MAX_CALL_DEPTH
        invariant
            out.keeps(old(out)),
            rt.ret_base <= usize::MAX - MAX_CALL_DEPTH,
        decreases MAX_CALL_DEPTH - d,
    {
        out.clear(rt.matched);
        out.copy_add(rt.call_depth, rt.matched, T0);
        out.clear(rt.expected);
        out.set_const(rt.expected, d as u8);
        out.eq(rt.matched, rt.expected);
        out.goto(rt.matched);
        out.push(OPEN);
        out.clear(rt.matched);
        out.clear(rt.ret_base + d);
        out.set_const(rt.ret_base + d, value);
        out.goto(rt.matched);
        out.push(CLOSE);
        d = d + 1;
    }
}

/// Loads the program counter from the return slot of the current call depth.
fn load_ret_pc(out: &mut BfOut, rt: PcRuntime)
    requires
        old(out).inv(),
        rt.ret_base <= usize::MAX - MAX_CALL_DEPTH,
    ensures
        final(out).keeps(old(out)),
{
    out.clear(rt.pc);
    let mut d: usize = 0;
    while d < MAX_CALL_DEPTH
        invariant
            out.keeps(old(out)),
            rt.ret_base <= usize::MAX - MAX_CALL_DEPTH,
        decreases MAX_CALL_DEPTH - d,
    {
        out.clear(rt.matched);
        out.copy_add(rt.call_depth, rt.matched, T0);
        out.clear(rt.expected);
        out.set_const(rt.expected, d as u8);
        out.eq(rt.matched, rt.expected);
        out.goto(rt.matched);
        out.push(OPEN);
        out.clear(rt.matched);
        out.copy_add(rt.ret_base + d, rt.pc, T0);
        out.goto(rt.matched);
        out.push(CLOSE);
        d = d + 1;
    }
}

} // verus!
