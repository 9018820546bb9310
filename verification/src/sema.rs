use vstd::prelude::*;
use crate::ast::{
    apply_binop, apply_unop, binop_value, unop_value, ArrayInit, ArrayLen, BinOp, Expr,
    FormatSegment, Function, Program, ReturnType, Stmt, UnOp,
};
use crate::parser::placeholder_count;
use crate::diagnostic::{Diagnostic, Span};
use crate::text::push_decimal;
use crate::ir::{functions_free_jump, stmt_free_jump, stmts_free_jump};

verus! {

/// Cells `0..TEMP_COUNT` hold expression temporaries.
pub const TEMP_COUNT: usize = 8;
/// Number of primitive scratch cells placed after the program's storage.
pub const WORK_CELL_COUNT: usize = 12;
/// Most simultaneously active function calls the return-address stack holds.
pub const MAX_CALL_DEPTH: usize = 16;
/// Largest tape layout (in cells) the compiler produces.
pub const MAX_LAYOUT_CELLS: usize = 0x1000_0000;

/// The public symbol table: top-level variables and arrays with their tape cells.
#[derive(Debug, Clone)]
pub struct Symbols {
    entries: Vec<SymbolInfo>,
    scratch_base: usize,
}

#[derive(Debug, Clone, PartialEq, Eq)]
pub enum SymbolInfo {
    Scalar { name: String, cell: usize },
    Array { name: String, base: usize, len: usize },
}

/// Whether a symbol's cells lie between the temporaries and `limit`.
pub open spec fn info_in_range(s: SymbolInfo, limit: nat) -> bool {
    match s {
        SymbolInfo::Scalar { cell, .. } => TEMP_COUNT <= cell < limit,
        SymbolInfo::Array { base, len, .. } => TEMP_COUNT <= base && base + 4 + len <= limit,
    }
}

/// The cells a symbol occupies: a scalar's cell, or an array's header and elements.
pub open spec fn info_cells(s: SymbolInfo) -> Set<usize> {
    match s {
        SymbolInfo::Scalar { cell, .. } => set![cell],
        SymbolInfo::Array { base, len, .. } => Set::new(|c: usize| base <= c < base + 4 + len),
    }
}

/// A symbol on cells `first..first + count`, which no symbol of `entries` uses and which
/// `owned` holds, shares no cell with them.
proof fn lemma_fresh_info(
    entries: Seq<SymbolInfo>,
    info: SymbolInfo,
    first: usize,
    count: usize,
    apply: bool,
    owned: Seq<usize>,
)
    requires
        apply ==> forall|k: int, c: usize|
            0 <= k < entries.len() && #[trigger] info_cells(entries[k]).contains(c) ==> !(first <= c
                < first + count),
        apply ==> forall|c: usize| first <= c < first + count ==> #[trigger] owned.contains(c),
        forall|c: usize| #[trigger] info_cells(info).contains(c) ==> first <= c < first + count,
    ensures
        apply ==> forall|k: int|
            0 <= k < entries.len() ==> info_cells(#[trigger] entries[k]).disjoint(info_cells(info)),
        apply ==> forall|c: usize| #[trigger] info_cells(info).contains(c) ==> owned.contains(c),
{
    if apply {
        assert forall|k: int| 0 <= k < entries.len() implies info_cells(#[trigger] entries[k]).disjoint(
            info_cells(info),
        ) by {
            assert forall|c: usize| !(info_cells(entries[k]).contains(c) && info_cells(info).contains(c)) by {
            }
        }
    }
}

/// No two symbols of the list share a cell.
pub open spec fn cells_apart(s: Seq<SymbolInfo>) -> bool {
    forall|a: int, b: int|
        0 <= a < b < s.len() ==> (#[trigger] info_cells(s[a])).disjoint(#[trigger] info_cells(s[b]))
}

/// No two entries carry the same name.
pub open spec fn names_distinct(e: Seq<SymbolInfo>) -> bool {
    forall|i: int, j: int| 0 <= i < j < e.len() ==> info_name(#[trigger] e[i]) != info_name(#[trigger] e[j])
}

pub open spec fn info_name(s: SymbolInfo) -> Seq<char> {
    match s {
        SymbolInfo::Scalar { name, .. } => name@,
        SymbolInfo::Array { name, .. } => name@,
    }
}

pub open spec fn info_cell(s: SymbolInfo) -> usize {
    match s {
        SymbolInfo::Scalar { cell, .. } => cell,
        SymbolInfo::Array { base, .. } => base,
    }
}

impl Symbols {
    pub closed spec fn spec_entries(&self) -> Seq<SymbolInfo> {
        self.entries@
    }

    pub closed spec fn spec_scratch_base(&self) -> usize {
        self.scratch_base
    }

    /// The symbol table's layout invariant: the scratch area starts after the temporaries and
    /// within the layout limit, each symbol's cells lie between the two, no two symbols share a
    /// cell, and no two carry the same name.
    pub closed spec fn wf(&self) -> bool {
        &&& TEMP_COUNT <= self.scratch_base <= MAX_LAYOUT_CELLS
        &&& names_distinct(self.entries@)
        &&& forall|k: int|
            0 <= k < self.entries@.len() ==> info_in_range(
                #[trigger] self.entries@[k],
                self.scratch_base as nat,
            )
        &&& cells_apart(self.entries@)
    }

    /// The cell of the first top-level symbol with this name (an array's base cell).
    pub fn cell(&self, name: &str) -> (r: Option<usize>)
        ensures
            r matches Some(c) ==> exists|k: int|
                0 <= k < self.spec_entries().len() && info_name(#[trigger] self.spec_entries()[k])
                    == name@ && info_cell(self.spec_entries()[k]) == c && forall|j: int|
                    0 <= j < k ==> info_name(self.spec_entries()[j]) != name@,
            r is None ==> forall|k: int|
                0 <= k < self.spec_entries().len() ==> info_name(#[trigger] self.spec_entries()[k])
                    != name@,
    {
        let wanted = name.to_string();
        let mut i: usize = 0;
        while i < self.entries.len()
            invariant
                i <= self.entries@.len(),
                wanted@ == name@,
                forall|j: int| 0 <= j < i ==> info_name(#[trigger] self.entries@[j]) != name@,
            decreases self.entries@.len() - i,
        {
            match &self.entries[i] {
                SymbolInfo::Scalar { name: n, cell } => {
                    if *n == wanted {
                        assert(info_name(self.spec_entries()[i as int]) == name@ && info_cell(self.spec_entries()[i as int]) == info_cell(self.entries@[i as int]));
                        return Some(*cell);
                    }
                },
                SymbolInfo::Array { name: n, base, .. } => {
                    if *n == wanted {
                        assert(info_name(self.spec_entries()[i as int]) == name@ && info_cell(self.spec_entries()[i as int]) == info_cell(self.entries@[i as int]));
                        return Some(*base);
                    }
                },
            }
            i = i + 1;
        }
        None
    }

    /// First cell after the program's storage, where the scratch cells begin.
    pub fn scratch_base(&self) -> (c: usize)
        ensures
            c == self.spec_scratch_base(),
            self.wf() ==> TEMP_COUNT <= c <= MAX_LAYOUT_CELLS,
    {
        self.scratch_base
    }

    /// First cell after the scratch cells, where control-flow cells begin.
    pub fn control_base(&self) -> (c: usize)
        requires
            self.wf(),
        ensures
            c == self.spec_scratch_base() + WORK_CELL_COUNT,
    {
        self.scratch_base + WORK_CELL_COUNT
    }

    /// A well-formed table keeps every symbol between the temporaries and the scratch cells,
    /// and gives distinct symbols disjoint cells.
    pub proof fn lemma_wf_ranges(&self)
        requires
            self.wf(),
        ensures
            TEMP_COUNT <= self.spec_scratch_base() <= MAX_LAYOUT_CELLS,
            forall|k: int|
                0 <= k < self.spec_entries().len() ==> info_in_range(
                    #[trigger] self.spec_entries()[k],
                    self.spec_scratch_base() as nat,
                ),
            cells_apart(self.spec_entries()),
    {
    }

    /// The top-level symbols in declaration order.
    pub fn entries(&self) -> (e: &[SymbolInfo])
        ensures
            e@ == self.spec_entries(),
    {
        self.entries.as_slice()
    }
}

#[derive(Debug)]
pub struct ResolvedProgram {
    pub stmts: Vec<ResolvedStmt>,
    pub functions: Vec<ResolvedFunction>,
    /// Cells that receive the results of function calls inside expressions.
    pub spills: Vec<usize>,
    pub symbols: Symbols,
}

#[derive(Debug)]
pub struct ResolvedFunction {
    /// The cells of the parameters, in order.
    pub params: Vec<usize>,
    pub body: Vec<ResolvedStmt>,
    pub returns_byte: bool,
}

#[derive(Debug, PartialEq, Eq)]
pub enum ResolvedStmt {
    Let { cell: usize, init: Option<ResolvedExpr> },
    LetArray { base: usize, len: usize, init: Vec<u8> },
    Assign { cell: usize, expr: ResolvedExpr },
    ArraySet { base: usize, len: usize, index: ResolvedExpr, expr: ResolvedExpr },
    Put(ResolvedExpr),
    Puts(Vec<u8>),
    Print(ResolvedExpr),
    Println(ResolvedExpr),
    Read(usize),
    ReadArray { base: usize, len: usize, index: ResolvedExpr },
    /// A call whose result, if any, is discarded.
    Call { function: usize, args: Vec<ResolvedExpr> },
    /// Leaves the current function with a value (0 for a void function).
    Return(ResolvedExpr),
    Break,
    Continue,
    Block(Vec<ResolvedStmt>),
    If { cond: ResolvedExpr, then_branch: Vec<ResolvedStmt>, else_branch: Vec<ResolvedStmt> },
    While { cond: ResolvedExpr, body: Vec<ResolvedStmt> },
    Loop { body: Vec<ResolvedStmt> },
    For {
        init: Option<Box<ResolvedStmt>>,
        cond: Option<ResolvedExpr>,
        step: Option<Box<ResolvedStmt>>,
        body: Vec<ResolvedStmt>,
    },
}

#[derive(Debug, PartialEq, Eq)]
pub enum ResolvedExpr {
    Byte(u8),
    Var(usize),
    ArrayGet { base: usize, len: usize, index: Box<ResolvedExpr> },
    Call { function: usize, args: Vec<ResolvedExpr> },
    Unary { op: UnOp, expr: Box<ResolvedExpr> },
    Binary { left: Box<ResolvedExpr>, op: BinOp, right: Box<ResolvedExpr> },
}

/// The byte a resolved expression always evaluates to, when it reads no cell and calls no
/// function.
pub open spec fn const_value(e: ResolvedExpr) -> Option<u8>
    decreases e,
{
    match e {
        ResolvedExpr::Byte(v) => Some(v),
        ResolvedExpr::Var(_) => None,
        ResolvedExpr::ArrayGet { .. } => None,
        ResolvedExpr::Call { .. } => None,
        ResolvedExpr::Unary { op, expr } => match const_value(*expr) {
            Some(v) => Some(unop_value(op, v)),
            None => None,
        },
        ResolvedExpr::Binary { left, op, right } => match (const_value(*left), const_value(*right)) {
            (Some(l), Some(r)) => Some(binop_value(op, l, r)),
            _ => None,
        },
    }
}

/// Folding a binary operator over two byte literals gives the operator's value, as
/// `law_binop_meaning` states it bit by bit, modulo 256 or as a truth value: for instance
/// `6 ^ 3` folds to a byte whose bits are set exactly where the bits of 6 and 3 differ.
pub proof fn law_constant_folding(l: u8, op: BinOp, r: u8)
    ensures
        const_value(ResolvedExpr::Binary {
            left: Box::new(ResolvedExpr::Byte(l)),
            op,
            right: Box::new(ResolvedExpr::Byte(r)),
        }) == Some(binop_value(op, l, r)),
        forall|i: u8| i < 8 ==> crate::ast::bit(binop_value(BinOp::BitXor, l, r), i) == (crate::ast::bit(l, i)
            != crate::ast::bit(r, i)),
{
    reveal_with_fuel(const_value, 2);
    crate::ast::law_binop_meaning(l, r);
}

/// The functions an expression calls, in its arguments too.
pub open spec fn expr_callees(e: ResolvedExpr) -> Set<usize>
    decreases e,
{
    match e {
        ResolvedExpr::Byte(_) => Set::empty(),
        ResolvedExpr::Var(_) => Set::empty(),
        ResolvedExpr::ArrayGet { index, .. } => expr_callees(*index),
        ResolvedExpr::Call { function, args } => exprs_callees(args@).insert(function),
        ResolvedExpr::Unary { expr, .. } => expr_callees(*expr),
        ResolvedExpr::Binary { left, right, .. } => expr_callees(*left).union(expr_callees(*right)),
    }
}

pub open spec fn exprs_callees(es: Seq<ResolvedExpr>) -> Set<usize>
    decreases es,
{
    if es.len() == 0 {
        Set::empty()
    } else {
        exprs_callees(es.drop_last()).union(expr_callees(es.last()))
    }
}

pub open spec fn opt_expr_callees(e: Option<ResolvedExpr>) -> Set<usize> {
    match e {
        Some(e) => expr_callees(e),
        None => Set::empty(),
    }
}

/// The functions a statement calls, in nested statements too.
pub open spec fn stmt_callees(s: ResolvedStmt) -> Set<usize>
    decreases s,
{
    match s {
        ResolvedStmt::Let { init, .. } => match init {
            Some(e) => expr_callees(e),
            None => Set::empty(),
        },
        ResolvedStmt::LetArray { .. } => Set::empty(),
        ResolvedStmt::Assign { expr, .. } => expr_callees(expr),
        ResolvedStmt::ArraySet { index, expr, .. } => expr_callees(index).union(expr_callees(expr)),
        ResolvedStmt::Put(e) => expr_callees(e),
        ResolvedStmt::Puts(_) => Set::empty(),
        ResolvedStmt::Print(e) => expr_callees(e),
        ResolvedStmt::Println(e) => expr_callees(e),
        ResolvedStmt::Read(_) => Set::empty(),
        ResolvedStmt::ReadArray { index, .. } => expr_callees(index),
        ResolvedStmt::Call { function, args } => exprs_callees(args@).insert(function),
        ResolvedStmt::Return(e) => expr_callees(e),
        ResolvedStmt::Break => Set::empty(),
        ResolvedStmt::Continue => Set::empty(),
        ResolvedStmt::Block(body) => stmts_callees(body@),
        ResolvedStmt::If { cond, then_branch, else_branch } => expr_callees(cond).union(
            stmts_callees(then_branch@),
        ).union(stmts_callees(else_branch@)),
        ResolvedStmt::While { cond, body } => expr_callees(cond).union(stmts_callees(body@)),
        ResolvedStmt::Loop { body } => stmts_callees(body@),
        ResolvedStmt::For { init, cond, step, body } => (match init {
            Some(b) => stmt_callees(*b),
            None => Set::empty(),
        }).union(match cond {
            Some(e) => expr_callees(e),
            None => Set::empty(),
        }).union(match step {
            Some(b) => stmt_callees(*b),
            None => Set::empty(),
        }).union(stmts_callees(body@)),
    }
}

pub open spec fn opt_stmt_callees(s: Option<Box<ResolvedStmt>>) -> Set<usize> {
    match s {
        Some(b) => stmt_callees(*b),
        None => Set::empty(),
    }
}

pub open spec fn stmts_callees(ss: Seq<ResolvedStmt>) -> Set<usize>
    decreases ss,
{
    if ss.len() == 0 {
        Set::empty()
    } else {
        stmts_callees(ss.drop_last()).union(stmt_callees(ss.last()))
    }
}

/// A ranking of the functions under which every call from a function body goes to a lower
/// rank, ranks are at least 1, and every function the top level calls has rank at most
/// `MAX_CALL_DEPTH`; every callee is a function of the program.
pub open spec fn calls_ranked(p: ResolvedProgram, rank: Seq<int>) -> bool {
    let n = p.functions@.len();
    &&& rank.len() == n
    &&& forall|g: int| 0 <= g < n ==> #[trigger] rank[g] >= 1
    &&& forall|f: int, g: usize|
        0 <= f < n && #[trigger] stmts_callees(p.functions@[f].body@).contains(g) ==> g < n && rank[f]
            >= rank[g as int] + 1
    &&& forall|g: usize| #[trigger] stmts_callees(p.stmts@).contains(g) ==> g < n && rank[g as int]
        <= MAX_CALL_DEPTH
}

/// Some ranking of `p`'s functions ranks its calls.
pub open spec fn has_ranked_calls(p: ResolvedProgram) -> bool {
    exists|rank: Seq<int>| calls_ranked(p, rank)
}

/// In program `p`, `a` calls `b`: `a` is a function whose body calls `b`, or `a` is the number
/// of functions, standing for the top level, whose statements call `b`.
pub open spec fn program_calls(p: ResolvedProgram, a: int, b: int) -> bool {
    ||| 0 <= a < p.functions@.len() && 0 <= b <= usize::MAX && stmts_callees(
        p.functions@[a].body@,
    ).contains(b as usize)
    ||| a == p.functions@.len() && 0 <= b <= usize::MAX && stmts_callees(p.stmts@).contains(
        b as usize,
    )
}

/// A chain of calls `w[0] -> w[1] -> ...` in program `p`.
pub open spec fn is_program_chain(p: ResolvedProgram, w: Seq<int>) -> bool {
    forall|k: int| #![trigger w[k]] 0 <= k < w.len() - 1 ==> program_calls(p, w[k], w[k + 1])
}

proof fn lemma_program_chain_ranks(p: ResolvedProgram, rank: Seq<int>, w: Seq<int>, k: int)
    requires
        calls_ranked(p, rank),
        is_program_chain(p, w),
        0 <= w[0] < p.functions@.len(),
        0 <= k < w.len(),
    ensures
        0 <= w[k] < p.functions@.len(),
        rank[w[0]] >= rank[w[k]] + k,
    decreases k,
{
    if k > 0 {
        lemma_program_chain_ranks(p, rank, w, k - 1);
        let prev = w[k - 1];
        assert(program_calls(p, prev, w[k]));
        assert(stmts_callees(p.functions@[prev].body@).contains(w[k] as usize));
    }
}

/// In a program whose calls are ranked, as `resolve` ensures of every program it accepts, no
/// function reaches itself through a chain of calls, and no chain of calls that the top level
/// starts holds more than `MAX_CALL_DEPTH` functions.
pub proof fn law_ranked_programs_have_no_recursion(p: ResolvedProgram, w: Seq<int>)
    requires
        has_ranked_calls(p),
        is_program_chain(p, w),
        w.len() >= 2,
    ensures
        0 <= w[0] < p.functions@.len() ==> w[0] != w[w.len() - 1],
        w[0] == p.functions@.len() ==> w.len() - 1 <= MAX_CALL_DEPTH,
{
    let rank = choose|rank: Seq<int>| calls_ranked(p, rank);
    let n = p.functions@.len() as int;
    if 0 <= w[0] < n {
        lemma_program_chain_ranks(p, rank, w, w.len() - 1);
    }
    if w[0] == n {
        let first = w[0];
        assert(program_calls(p, first, w[1]));
        assert(stmts_callees(p.stmts@).contains(w[1] as usize));
        let t = w.subrange(1, w.len() as int);
        assert forall|k: int| 0 <= k < t.len() - 1 implies program_calls(p, #[trigger] t[k], t[k + 1]) by {
            assert(t[k] == w[k + 1] && t[k + 1] == w[k + 2]);
            let a = w[k + 1];
            assert(program_calls(p, a, w[k + 2]));
        }
        lemma_program_chain_ranks(p, rank, t, t.len() - 1);
        assert(rank[t[t.len() - 1]] >= 1);
    }
}

/// Every function in `s` is below `n` and a recorded call of `caller`.
pub open spec fn all_recorded(calls: Seq<(usize, usize)>, caller: usize, n: nat, s: Set<usize>) -> bool {
    forall|g: usize| #[trigger] s.contains(g) ==> g < n && has_call(calls, caller as int, g as int)
}

/// `b` extends `a`.
pub open spec fn extends(a: Seq<(usize, usize)>, b: Seq<(usize, usize)>) -> bool {
    a.len() <= b.len() && forall|i: int| 0 <= i < a.len() ==> #[trigger] b[i] == a[i]
}

proof fn lemma_recorded_grows(a: Seq<(usize, usize)>, b: Seq<(usize, usize)>, caller: usize, n: nat, s: Set<usize>)
    requires
        all_recorded(a, caller, n, s),
        extends(a, b),
    ensures
        all_recorded(b, caller, n, s),
{
    assert forall|g: usize| #[trigger] s.contains(g) implies g < n && has_call(b, caller as int, g as int) by {
        assert(has_call(a, caller as int, g as int));
        let e = choose|e: int| 0 <= e < a.len() && #[trigger] a[e] == (caller, g);
        assert(b[e] == a[e]);
    }
}

/// A binary expression over two byte literals.
pub open spec fn literal_binary(l: u8, op: BinOp, r: u8) -> ResolvedExpr {
    ResolvedExpr::Binary {
        left: Box::new(ResolvedExpr::Byte(l)),
        op,
        right: Box::new(ResolvedExpr::Byte(r)),
    }
}

/// Constant arithmetic wraps modulo 256, as runtime arithmetic does.
pub proof fn law_constant_arithmetic_wraps(l: u8, r: u8)
    ensures
        const_value(literal_binary(l, BinOp::Add, r)) == Some(((l + r) % 256) as u8),
        const_value(literal_binary(l, BinOp::Sub, r)) == Some(((l - r + 256) % 256) as u8),
        const_value(literal_binary(l, BinOp::Mul, r)) == Some(((l * r) % 256) as u8),
{
    reveal_with_fuel(const_value, 2);
}

/// Division by zero is defined: `x / 0 == 0` and `x % 0 == x`.
pub proof fn law_constant_division_by_zero(x: u8)
    ensures
        const_value(literal_binary(x, BinOp::Div, 0)) == Some(0u8),
        const_value(literal_binary(x, BinOp::Mod, 0)) == Some(x),
{
    reveal_with_fuel(const_value, 2);
}

/// Shifting by eight or more places gives zero.
pub proof fn law_constant_large_shifts(l: u8, r: u8)
    requires
        r >= 8,
    ensures
        const_value(literal_binary(l, BinOp::Shl, r)) == Some(0u8),
        const_value(literal_binary(l, BinOp::Shr, r)) == Some(0u8),
{
    reveal_with_fuel(const_value, 2);
}

/// Logical and comparison operators give 0 or 1.
pub proof fn law_constant_truth_values(l: u8, op: BinOp, r: u8)
    requires
        op is Or || op is And || op is Eq || op is Ne || op is Lt || op is Le || op is Gt
            || op is Ge,
    ensures
        const_value(literal_binary(l, op, r)) matches Some(v) && v <= 1,
{
    reveal_with_fuel(const_value, 2);
}

/// `!` gives 1 for zero and 0 otherwise; `~` flips all eight bits.
pub proof fn law_constant_unary(v: u8)
    ensures
        const_value(ResolvedExpr::Unary { op: UnOp::Not, expr: Box::new(ResolvedExpr::Byte(v)) })
            == Some(if v == 0 { 1u8 } else { 0u8 }),
        const_value(ResolvedExpr::Unary { op: UnOp::BitNot, expr: Box::new(ResolvedExpr::Byte(v)) })
            == Some((255 - v) as u8),
{
    reveal_with_fuel(const_value, 2);
}

/// Folds a resolved expression to a byte when it is constant.
pub fn const_eval(e: &ResolvedExpr) -> (r: Option<u8>)
    ensures
        r == const_value(*e),
    decreases e,
{
    match e {
        ResolvedExpr::Byte(v) => Some(*v),
        ResolvedExpr::Var(_) => None,
        ResolvedExpr::ArrayGet { .. } => None,
        ResolvedExpr::Call { .. } => None,
        ResolvedExpr::Unary { op, expr } => match const_eval(expr) {
            Some(v) => Some(apply_unop(*op, v)),
            None => None,
        },
        ResolvedExpr::Binary { left, op, right } => {
            let l = const_eval(left);
            let r = const_eval(right);
            match (l, r) {
                (Some(l), Some(r)) => Some(apply_binop(*op, l, r)),
                _ => None,
            }
        },
    }
}

pub fn analyze(program: &Program) -> (r: Result<Symbols, Diagnostic>)
    ensures
        r matches Ok(s) ==> s.wf(),
        program.functions@.len() == 0 && program.stmts@.len() == 0 ==> r is Ok,
{
    match resolve(program) {
        Ok(rp) => Ok(rp.symbols),
        Err(e) => Err(e),
    }
}

#[derive(Clone, Copy)]
enum Symbol {
    Scalar(usize),
    Array { base: usize, len: usize },
    Const(u8),
}

struct Scope {
    names: Vec<(String, Symbol)>,
    owned_cells: Vec<usize>,
}

/// A name first found at `i` is found there in the whole list.
proof fn lemma_first_named_prefix(names: Seq<String>, name: Seq<char>, i: int)
    requires
        0 <= i < names.len(),
        first_named(names.subrange(0, i), name) is None,
        names[i]@ == name,
    ensures
        first_named(names, name) == Some(i as usize),
    decreases names.len(),
{
    let p1 = names.subrange(0, i + 1);
    assert(p1.drop_last() =~= names.subrange(0, i));
    if i + 1 < names.len() {
        let d = names.drop_last();
        assert(d.subrange(0, i) =~= names.subrange(0, i));
        lemma_first_named_prefix(d, name, i);
    }
    assert(names.subrange(0, names.len() as int) =~= names);
}

/// The symbol the first entry named `name` in a scope stands for.
spec fn scope_find(names: Seq<(String, Symbol)>, name: Seq<char>) -> Option<Symbol>
    decreases names.len(),
{
    if names.len() == 0 {
        None
    } else if names[0].0@ == name {
        Some(names[0].1)
    } else {
        scope_find(names.drop_first(), name)
    }
}

/// The names each open scope declares, outermost first.
spec fn names_view(scopes: Seq<Scope>) -> Seq<Seq<(String, Symbol)>> {
    scopes.map_values(|s: Scope| s.names@)
}

/// The error for reading or writing `name` as a scalar variable: undeclared (with the
/// statement's `prefix`), a temporary cell, an array or a constant.
spec fn scalar_lookup_error(found: Option<Symbol>, prefix: Seq<char>, name: Seq<char>) -> Seq<char> {
    match found {
        None => prefix + "`"@ + name + "`"@,
        Some(Symbol::Scalar(_)) => "`"@ + name + "`"@ + " is not a variable"@,
        Some(Symbol::Array { .. }) => "`"@ + name + "`"@ + " is an array"@,
        Some(Symbol::Const(_)) => "`"@ + name + "`"@ + " is a constant"@,
    }
}

/// A statement that is no block, branch, loop, array store, array read or formatted print.
pub open spec fn is_simple_stmt(s: Stmt) -> bool {
    s is Let || s is LetArray || s is Const || s is Assign || s is Put || s is Puts || s is Print
        || s is Println || s is Read || s is Call || s is Return || s is Break || s is Continue
}

/// A simple statement obeys the static rules as the only statement of a program without
/// functions: in one empty scope, with no function to call, outside any function and loop,
/// its new variable taking the first cell after the temporaries.
pub closed spec fn first_simple_stmt_ok(s: Stmt) -> bool {
    simple_stmt_ok(
        seq![Seq::<(String, Symbol)>::empty()],
        Seq::empty(),
        Seq::empty(),
        false,
        TEMP_COUNT as int,
        None,
        false,
        s,
    )
}

/// The error a `return` gets at the top level (`ret` is `None`), with no value in a byte
/// function, or with one in a void function.
pub open spec fn return_error(ret: Option<bool>, value: Option<Expr>) -> Option<Seq<char>> {
    match ret {
        None => Some("`return` outside function"@),
        Some(true) => if value is None {
            Some("byte function must return a value"@)
        } else {
            None
        },
        Some(false) => if value is Some {
            Some("void function cannot return a value"@)
        } else {
            None
        },
    }
}

/// Function `j` has the name of an earlier function.
pub open spec fn repeated_function(fs: Seq<Function>, j: int) -> bool {
    0 <= j < fs.len() && exists|i: int| 0 <= i < j && fs[i].name@ == fs[j].name@
}

/// Function `j` is the first whose name repeats an earlier one.
pub open spec fn first_repeated_function(fs: Seq<Function>, j: int) -> bool {
    repeated_function(fs, j) && forall|k: int| 0 <= k < j ==> !repeated_function(fs, k)
}

/// The cell a new variable takes: the smallest freed cell, if any (the last of the freed
/// cells, which are kept largest first), else the next cell never used.
spec fn next_free_cell(free_cells: Seq<usize>, next_cell: usize) -> usize {
    if free_cells.len() > 0 {
        free_cells.last()
    } else {
        next_cell
    }
}

/// `name` is a variable of the program (no constant, array or temporary).
spec fn scalar_ok(nv: Seq<Seq<(String, Symbol)>>, name: Seq<char>) -> bool {
    stack_find(nv, name) matches Some(Symbol::Scalar(c)) && TEMP_COUNT <= c
}

/// Whether a simple statement passes the static rules in the given scopes: its names are
/// declared and of the right kind, a new name is new in its scope, a constant's expression is
/// constant, a call names a function with that many arguments, a return matches the
/// function, `break` and `continue` stand in a loop, and a new variable finds a cell.
spec fn simple_stmt_ok(
    nv: Seq<Seq<(String, Symbol)>>,
    names: Seq<String>,
    sigs: Seq<Signature>,
    cell_free: bool,
    next_cell: int,
    ret: Option<bool>,
    in_loop: bool,
    s: Stmt,
) -> bool {
    match s {
        Stmt::Let { name, init, .. } => scope_find(nv.last(), name@) is None && match init {
            None => true,
            Some(x) => expr_ok(nv, names, sigs, x),
        } && (cell_free || next_cell < MAX_LAYOUT_CELLS),
        Stmt::LetArray { name, len, init, .. } => scope_find(nv.last(), name@) is None && (array_len_of(
            nv,
            len,
        ) matches Some(l) && l <= MAX_LAYOUT_CELLS && init_ok(nv, names, sigs, init, l) && 4 + l
            <= MAX_LAYOUT_CELLS - next_cell),
        Stmt::Const { name, expr, .. } => const_src(nv, expr) is Some && scope_find(nv.last(), name@)
            is None,
        Stmt::Assign { name, expr, .. } => scalar_ok(nv, name@) && expr_ok(nv, names, sigs, expr),
        Stmt::Put(e, _) => expr_ok(nv, names, sigs, e),
        Stmt::Print(e, _) => expr_ok(nv, names, sigs, e),
        Stmt::Println(e, _) => expr_ok(nv, names, sigs, e),
        Stmt::Read(name, _) => scalar_ok(nv, name@),
        Stmt::Call { name, args, .. } => first_named(names, name@) matches Some(f) && sigs[f as int].param_count
            == args@.len() && forall|k: int| 0 <= k < args@.len() ==> expr_ok(nv, names, sigs, #[trigger] args@[k]),
        Stmt::Return(expr, _) => match ret {
            None => false,
            Some(true) => expr matches Some(x) && expr_ok(nv, names, sigs, x),
            Some(false) => expr is None,
        },
        Stmt::Break(_) => in_loop,
        Stmt::Continue(_) => in_loop,
        _ => true,
    }
}

/// The symbol a name stands for: its entry in the innermost scope that has one.
spec fn stack_find(nv: Seq<Seq<(String, Symbol)>>, name: Seq<char>) -> Option<Symbol>
    decreases nv.len(),
{
    if nv.len() == 0 {
        None
    } else {
        match scope_find(nv.last(), name) {
            Some(s) => Some(s),
            None => stack_find(nv.drop_last(), name),
        }
    }
}

/// The byte a constant expression of the source stands for, with the symbols of `scopes`:
/// literals, named constants and operators (wrapping as at run time); none when it reads a
/// variable or an array, calls a function, or names nothing visible.
spec fn const_src(scopes: Seq<Seq<(String, Symbol)>>, e: Expr) -> Option<u8>
    decreases e,
{
    match e {
        Expr::Byte(v, _) => Some(v),
        Expr::Var(name, _) => match stack_find(scopes, name@) {
            Some(Symbol::Const(v)) => Some(v),
            _ => None,
        },
        Expr::ArrayGet { .. } => None,
        Expr::Call { .. } => None,
        Expr::Unary { op, expr, .. } => match const_src(scopes, *expr) {
            Some(v) => Some(unop_value(op, v)),
            None => None,
        },
        Expr::Binary { left, op, right, .. } => match (const_src(scopes, *left), const_src(scopes, *right)) {
            (Some(l), Some(r)) => Some(binop_value(op, l, r)),
            _ => None,
        },
    }
}

/// The index of the first function named `name`.
spec fn first_named(names: Seq<String>, name: Seq<char>) -> Option<usize>
    decreases names.len(),
{
    if names.len() == 0 {
        None
    } else {
        match first_named(names.drop_last(), name) {
            Some(i) => Some(i),
            None => if names.last()@ == name {
                Some((names.len() - 1) as usize)
            } else {
                None
            },
        }
    }
}

/// `res` is source expression `src` with its names resolved in `scopes`: constants become
/// their bytes, variables their cells, arrays their base and length (a constant index in
/// bounds), calls the first function of the name, of the right arity and returning a byte;
/// operators stay as they are.
spec fn expr_resolved(
    scopes: Seq<Seq<(String, Symbol)>>,
    names: Seq<String>,
    sigs: Seq<Signature>,
    src: Expr,
    res: ResolvedExpr,
) -> bool
    decreases src,
{
    match src {
        Expr::Byte(v, _) => res == ResolvedExpr::Byte(v),
        Expr::Var(name, _) => match stack_find(scopes, name@) {
            Some(Symbol::Const(v)) => res == ResolvedExpr::Byte(v),
            Some(Symbol::Scalar(c)) => TEMP_COUNT <= c && res == ResolvedExpr::Var(c),
            _ => false,
        },
        Expr::ArrayGet { name, index, .. } => match stack_find(scopes, name@) {
            Some(Symbol::Array { base, len }) => res matches ResolvedExpr::ArrayGet {
                base: b,
                len: l,
                index: ri,
            } && b == base && l == len && expr_resolved(scopes, names, sigs, *index, *ri) && !(
            const_value(*ri) matches Some(v) && v as nat >= len),
            _ => false,
        },
        Expr::Call { name, args, .. } => res matches ResolvedExpr::Call { function, args: ra }
            && first_named(names, name@) == Some(function) && function < sigs.len()
            && sigs[function as int].returns_byte && sigs[function as int].param_count
            == args@.len() && ra@.len() == args@.len() && forall|k: int|
            0 <= k < args@.len() ==> expr_resolved(scopes, names, sigs, #[trigger] args@[k], ra@[k]),
        Expr::Unary { op, expr, .. } => res matches ResolvedExpr::Unary { op: o2, expr: r2 } && o2
            == op && expr_resolved(scopes, names, sigs, *expr, *r2),
        Expr::Binary { left, op, right, .. } => res matches ResolvedExpr::Binary {
            left: l2,
            op: o2,
            right: r2,
        } && o2 == op && expr_resolved(scopes, names, sigs, *left, *l2) && expr_resolved(
            scopes,
            names,
            sigs,
            *right,
            *r2,
        ),
    }
}

/// Source expression `src` can be resolved in `scopes`: every name stands for what its use
/// needs (a constant or variable, an array with a constant index in bounds, a function of
/// the right arity that returns a byte).
spec fn expr_ok(
    scopes: Seq<Seq<(String, Symbol)>>,
    names: Seq<String>,
    sigs: Seq<Signature>,
    src: Expr,
) -> bool
    decreases src,
{
    match src {
        Expr::Byte(..) => true,
        Expr::Var(name, _) => match stack_find(scopes, name@) {
            Some(Symbol::Const(_)) => true,
            Some(Symbol::Scalar(c)) => TEMP_COUNT <= c,
            _ => false,
        },
        Expr::ArrayGet { name, index, .. } => match stack_find(scopes, name@) {
            Some(Symbol::Array { len, .. }) => expr_ok(scopes, names, sigs, *index) && !(const_src(
                scopes,
                *index,
            ) matches Some(v) && v as nat >= len),
            _ => false,
        },
        Expr::Call { name, args, .. } => first_named(names, name@) matches Some(f) && f < sigs.len()
            && sigs[f as int].returns_byte && sigs[f as int].param_count == args@.len() && forall|k: int|
            0 <= k < args@.len() ==> expr_ok(scopes, names, sigs, #[trigger] args@[k]),
        Expr::Unary { expr, .. } => expr_ok(scopes, names, sigs, *expr),
        Expr::Binary { left, right, .. } => expr_ok(scopes, names, sigs, *left) && expr_ok(
            scopes,
            names,
            sigs,
            *right,
        ),
    }
}

/// An array initializer gives an array of length `len` its bytes: a string of that length,
/// or that many constant expressions.
spec fn init_ok(
    scopes: Seq<Seq<(String, Symbol)>>,
    names: Seq<String>,
    sigs: Seq<Signature>,
    init: Option<ArrayInit>,
    len: nat,
) -> bool {
    match init {
        None => true,
        Some(ArrayInit::Bytes(b, _)) => b@.len() == len,
        Some(ArrayInit::Items(items)) => items@.len() == len && forall|k: int|
            0 <= k < items@.len() ==> expr_ok(scopes, names, sigs, #[trigger] items@[k]) && const_src(
                scopes,
                items@[k],
            ) is Some,
    }
}

/// A resolved expression folds to a constant exactly when its source is a constant
/// expression, and to the same byte.
proof fn lemma_resolved_const(
    nv: Seq<Seq<(String, Symbol)>>,
    fnames: Seq<String>,
    sigs: Seq<Signature>,
    src: Expr,
    res: ResolvedExpr,
)
    requires
        expr_resolved(nv, fnames, sigs, src, res),
    ensures
        const_value(res) == const_src(nv, src),
    decreases src,
{
    match src {
        Expr::Unary { expr, .. } => {
            let r2 = res->Unary_expr;
            lemma_resolved_const(nv, fnames, sigs, *expr, *r2);
        },
        Expr::Binary { left, right, .. } => {
            lemma_resolved_const(nv, fnames, sigs, *left, *res->Binary_left);
            lemma_resolved_const(nv, fnames, sigs, *right, *res->Binary_right);
        },
        _ => {},
    }
}

/// The names in scope after `name` is declared as `sym` in the innermost scope.
spec fn declare_view(nv: Seq<Seq<(String, Symbol)>>, name: String, sym: Symbol) -> Seq<
    Seq<(String, Symbol)>,
> {
    nv.update(nv.len() - 1, nv.last().push((name, sym)))
}

/// The names in scope after statement `src`, resolved as `res`: a declaration adds its name
/// to the innermost scope; any other statement leaves the names as they were.
spec fn decl_after(nv: Seq<Seq<(String, Symbol)>>, src: Stmt, res: ResolvedStmt) -> Seq<
    Seq<(String, Symbol)>,
> {
    match src {
        Stmt::Const { name, expr, .. } => match const_src(nv, expr) {
            Some(v) => declare_view(nv, name, Symbol::Const(v)),
            None => nv,
        },
        Stmt::Let { name, .. } => match res {
            ResolvedStmt::Let { cell, .. } => declare_view(nv, name, Symbol::Scalar(cell)),
            _ => nv,
        },
        Stmt::LetArray { name, .. } => match res {
            ResolvedStmt::LetArray { base, len, .. } => declare_view(
                nv,
                name,
                Symbol::Array { base, len },
            ),
            _ => nv,
        },
        _ => nv,
    }
}

/// The names in scope after a run of statements.
spec fn stmts_after(nv: Seq<Seq<(String, Symbol)>>, srcs: Seq<Stmt>, ress: Seq<ResolvedStmt>) -> Seq<
    Seq<(String, Symbol)>,
>
    decreases srcs.len(),
{
    if srcs.len() == 0 || ress.len() == 0 {
        nv
    } else {
        decl_after(
            stmts_after(nv, srcs.drop_last(), ress.drop_last()),
            srcs.last(),
            ress.last(),
        )
    }
}

/// The length an array declaration gives: a constant expression greater than zero, or the
/// initializer's length.
spec fn array_len_of(nv: Seq<Seq<(String, Symbol)>>, len: ArrayLen) -> Option<nat> {
    match len {
        ArrayLen::Explicit(e) => match const_src(nv, e) {
            Some(v) => if v > 0 {
                Some(v as nat)
            } else {
                None
            },
            None => None,
        },
        ArrayLen::Inferred(n) => Some(n as nat),
    }
}

/// The bytes an array initializer gives an array of length `len`: none without one, the
/// string's bytes, or the constant value of each listed expression; the count must match.
spec fn init_bytes_ok(
    nv: Seq<Seq<(String, Symbol)>>,
    init: Option<ArrayInit>,
    len: nat,
    bytes: Seq<u8>,
) -> bool {
    match init {
        None => bytes.len() == 0,
        Some(ArrayInit::Bytes(b, _)) => b@.len() == len && bytes == b@,
        Some(ArrayInit::Items(items)) => items@.len() == len && bytes.len() == len && forall|k: int|
            0 <= k < len ==> const_src(nv, #[trigger] items@[k]) == Some(bytes[k]),
    }
}

/// An optional expression resolved as an optional expression.
spec fn opt_resolved(
    nv: Seq<Seq<(String, Symbol)>>,
    fnames: Seq<String>,
    sigs: Seq<Signature>,
    src: Option<Expr>,
    res: Option<ResolvedExpr>,
) -> bool {
    match src {
        None => res is None,
        Some(e) => res matches Some(r) && expr_resolved(nv, fnames, sigs, e, r),
    }
}

/// One segment of a format string as the statement it becomes: a literal run written as it
/// is, a decimal placeholder printing its argument, a byte placeholder putting it.
spec fn segment_resolved(
    nv: Seq<Seq<(String, Symbol)>>,
    fnames: Seq<String>,
    sigs: Seq<Signature>,
    seg: FormatSegment,
    arg: Expr,
    res: ResolvedStmt,
) -> bool {
    match seg {
        FormatSegment::Literal(b) => res matches ResolvedStmt::Puts(rb) && rb@ == b@,
        FormatSegment::Decimal => res matches ResolvedStmt::Print(re) && expr_resolved(
            nv,
            fnames,
            sigs,
            arg,
            re,
        ),
        FormatSegment::Byte => res matches ResolvedStmt::Put(re) && expr_resolved(nv, fnames, sigs, arg, re),
    }
}

/// Statement `src`, in scopes `nv`, within a function returning a byte (`ret == Some(true)`),
/// a void function (`Some(false)`) or the top level (`None`), inside a loop or not, resolves
/// to `res`: names become symbols as `expr_resolved` says, a declaration's name is new in
/// its scope, constants vanish, a formatted print becomes its pieces, and nested
/// statements resolve in scopes of their own.
spec fn stmt_resolved(
    nv: Seq<Seq<(String, Symbol)>>,
    fnames: Seq<String>,
    sigs: Seq<Signature>,
    ret: Option<bool>,
    in_loop: bool,
    src: Stmt,
    res: ResolvedStmt,
) -> bool
    decreases src, 1nat,
{
    match src {
        Stmt::Const { name, expr, .. } => res matches ResolvedStmt::Block(v) && v@.len() == 0
            && scope_find(nv.last(), name@) is None && const_src(nv, expr) is Some,
        Stmt::Let { name, init, .. } => res matches ResolvedStmt::Let { cell, init: ri }
            && scope_find(nv.last(), name@) is None && TEMP_COUNT <= cell && opt_resolved(
            nv,
            fnames,
            sigs,
            init,
            ri,
        ),
        Stmt::LetArray { name, len, init, .. } => res matches ResolvedStmt::LetArray {
            base,
            len: l,
            init: bytes,
        } && scope_find(nv.last(), name@) is None && TEMP_COUNT <= base && array_len_of(nv, len)
            == Some(l as nat) && l <= MAX_LAYOUT_CELLS && init_bytes_ok(nv, init, l as nat, bytes@),
        Stmt::Assign { name, expr, .. } => res matches ResolvedStmt::Assign { cell, expr: re }
            && stack_find(nv, name@) == Some(Symbol::Scalar(cell)) && TEMP_COUNT <= cell
            && expr_resolved(nv, fnames, sigs, expr, re),
        Stmt::ArrayAssign { name, index, expr, .. } => res matches ResolvedStmt::ArraySet {
            base,
            len,
            index: ri,
            expr: re,
        } && stack_find(nv, name@) == Some(Symbol::Array { base, len }) && expr_resolved(
            nv,
            fnames,
            sigs,
            index,
            ri,
        ) && !(const_value(ri) matches Some(v) && v as nat >= len) && expr_resolved(
            nv,
            fnames,
            sigs,
            expr,
            re,
        ),
        Stmt::Put(e, _) => res matches ResolvedStmt::Put(re) && expr_resolved(nv, fnames, sigs, e, re),
        Stmt::Puts(b, _) => res matches ResolvedStmt::Puts(rb) && rb@ == b@,
        Stmt::Print(e, _) => res matches ResolvedStmt::Print(re) && expr_resolved(nv, fnames, sigs, e, re),
        Stmt::Println(e, _) => res matches ResolvedStmt::Println(re) && expr_resolved(
            nv,
            fnames,
            sigs,
            e,
            re,
        ),
        Stmt::PrintFormat { segments, args, .. } => res matches ResolvedStmt::Block(out)
            && placeholder_count(segments@) == args@.len() && out@.len() == segments@.len()
            && forall|i: int|
            0 <= i < segments@.len() ==> segment_resolved(
                nv,
                fnames,
                sigs,
                #[trigger] segments@[i],
                args@[placeholder_count(segments@.take(i)) as int],
                out@[i],
            ),
        Stmt::Read(name, _) => res matches ResolvedStmt::Read(cell) && stack_find(nv, name@) == Some(
            Symbol::Scalar(cell),
        ) && TEMP_COUNT <= cell,
        Stmt::ReadArray { name, index, .. } => res matches ResolvedStmt::ReadArray {
            base,
            len,
            index: ri,
        } && stack_find(nv, name@) == Some(Symbol::Array { base, len }) && expr_resolved(
            nv,
            fnames,
            sigs,
            index,
            ri,
        ) && !(const_value(ri) matches Some(v) && v as nat >= len),
        Stmt::Call { name, args, .. } => res matches ResolvedStmt::Call { function, args: ra }
            && first_named(fnames, name@) == Some(function) && function < sigs.len()
            && sigs[function as int].param_count == args@.len() && ra@.len() == args@.len()
            && forall|k: int|
            0 <= k < args@.len() ==> expr_resolved(nv, fnames, sigs, #[trigger] args@[k], ra@[k]),
        Stmt::Return(e, _) => match ret {
            None => false,
            Some(true) => e matches Some(x) && res matches ResolvedStmt::Return(rx) && expr_resolved(
                nv,
                fnames,
                sigs,
                x,
                rx,
            ),
            Some(false) => e is None && res == ResolvedStmt::Return(ResolvedExpr::Byte(0)),
        },
        Stmt::Break(_) => in_loop && res == ResolvedStmt::Break,
        Stmt::Continue(_) => in_loop && res == ResolvedStmt::Continue,
        Stmt::Block(stmts, _) => res matches ResolvedStmt::Block(rs) && stmts_resolved(
            nv.push(Seq::empty()),
            fnames,
            sigs,
            ret,
            in_loop,
            stmts@,
            rs@,
        ),
        Stmt::If { cond, then_branch, else_branch, .. } => res matches ResolvedStmt::If {
            cond: rc,
            then_branch: rt,
            else_branch: re,
        } && expr_resolved(nv, fnames, sigs, cond, rc) && stmts_resolved(
            nv.push(Seq::empty()),
            fnames,
            sigs,
            ret,
            in_loop,
            then_branch@,
            rt@,
        ) && stmts_resolved(nv.push(Seq::empty()), fnames, sigs, ret, in_loop, else_branch@, re@),
        Stmt::While { cond, body, .. } => res matches ResolvedStmt::While { cond: rc, body: rb }
            && expr_resolved(nv, fnames, sigs, cond, rc) && stmts_resolved(
            nv.push(Seq::empty()),
            fnames,
            sigs,
            ret,
            true,
            body@,
            rb@,
        ),
        Stmt::Loop { body, .. } => res matches ResolvedStmt::Loop { body: rb } && stmts_resolved(
            nv.push(Seq::empty()),
            fnames,
            sigs,
            ret,
            true,
            body@,
            rb@,
        ),
        Stmt::For { .. } => for_resolved(nv.push(Seq::empty()), fnames, sigs, ret, in_loop, src, res),
    }
}

/// A `for` statement resolves in its own scope `n1`: its initializer first, then the
/// condition and the step in the names the initializer leaves, then the body, in a scope of
/// its own within the names the step leaves, inside the loop.
spec fn for_resolved(
    n1: Seq<Seq<(String, Symbol)>>,
    fnames: Seq<String>,
    sigs: Seq<Signature>,
    ret: Option<bool>,
    in_loop: bool,
    src: Stmt,
    res: ResolvedStmt,
) -> bool
    decreases src, 0nat,
{
    match src {
        Stmt::For { init, cond, step, body, .. } => res matches ResolvedStmt::For {
            init: ri,
            cond: rc,
            step: rs,
            body: rb,
        } && {
            let n2 = match (init, ri) {
                (Some(b), Some(r)) => decl_after(n1, *b, *r),
                _ => n1,
            };
            let n3 = match (step, rs) {
                (Some(b), Some(r)) => decl_after(n2, *b, *r),
                _ => n2,
            };
            &&& match init {
                None => ri is None,
                Some(b) => ri matches Some(r) && (*b is Let || *b is Assign || *b is ArrayAssign)
                    && stmt_resolved(n1, fnames, sigs, ret, in_loop, *b, *r),
            }
            &&& opt_resolved(n2, fnames, sigs, cond, rc)
            &&& match step {
                None => rs is None,
                Some(b) => rs matches Some(r) && (*b is Let || *b is Assign || *b is ArrayAssign)
                    && stmt_resolved(n2, fnames, sigs, ret, in_loop, *b, *r),
            }
            &&& stmts_resolved(n3.push(Seq::empty()), fnames, sigs, ret, true, body@, rb@)
        },
        _ => false,
    }
}

/// A run of statements resolves one by one, each in the names the ones before it leave.
spec fn stmts_resolved(
    nv: Seq<Seq<(String, Symbol)>>,
    fnames: Seq<String>,
    sigs: Seq<Signature>,
    ret: Option<bool>,
    in_loop: bool,
    srcs: Seq<Stmt>,
    ress: Seq<ResolvedStmt>,
) -> bool
    decreases srcs, 1nat,
{
    &&& srcs.len() == ress.len()
    &&& srcs.len() > 0 ==> stmts_resolved(
        nv,
        fnames,
        sigs,
        ret,
        in_loop,
        srcs.drop_last(),
        ress.drop_last(),
    ) && stmt_resolved(
        stmts_after(nv, srcs.drop_last(), ress.drop_last()),
        fnames,
        sigs,
        ret,
        in_loop,
        srcs.last(),
        ress.last(),
    )
}

/// A run of statements holds a `break` or `continue` outside any loop exactly where one of
/// its statements does.
proof fn lemma_free_jump_at(ss: Seq<ResolvedStmt>, from: int)
    requires
        0 <= from,
    ensures
        stmts_free_jump(ss, from) <==> exists|i: int| from <= i < ss.len() && stmt_free_jump(#[trigger] ss[i]),
    decreases ss.len() - from,
{
    if from < ss.len() {
        lemma_free_jump_at(ss, from + 1);
        if stmts_free_jump(ss, from) {
            if !stmt_free_jump(ss[from]) {
                let i = choose|i: int| from + 1 <= i < ss.len() && stmt_free_jump(#[trigger] ss[i]);
                assert(from <= i < ss.len() && stmt_free_jump(ss[i]));
            }
        }
        if exists|i: int| from <= i < ss.len() && stmt_free_jump(#[trigger] ss[i]) {
            let i = choose|i: int| from <= i < ss.len() && stmt_free_jump(#[trigger] ss[i]);
            if i > from {
                assert(from + 1 <= i < ss.len() && stmt_free_jump(ss[i]));
            }
        }
    }
}

/// A statement resolved outside any loop leaves no `break` or `continue` outside a loop.
proof fn lemma_resolved_no_free_jump(
    nv: Seq<Seq<(String, Symbol)>>,
    fnames: Seq<String>,
    sigs: Seq<Signature>,
    ret: Option<bool>,
    src: Stmt,
    res: ResolvedStmt,
)
    requires
        stmt_resolved(nv, fnames, sigs, ret, false, src, res),
    ensures
        !stmt_free_jump(res),
    decreases src, 1nat,
{
    match src {
        Stmt::Const { .. } => {
            if let ResolvedStmt::Block(v) = res {
                lemma_free_jump_at(v@, 0);
            }
        },
        Stmt::PrintFormat { segments, args, .. } => {
            if let ResolvedStmt::Block(out) = res {
                lemma_free_jump_at(out@, 0);
                assert forall|i: int| 0 <= i < out@.len() implies !stmt_free_jump(#[trigger] out@[i]) by {
                    assert(segment_resolved(
                        nv,
                        fnames,
                        sigs,
                        segments@[i],
                        args@[placeholder_count(segments@.take(i)) as int],
                        out@[i],
                    ));
                }
            }
        },
        Stmt::Block(stmts, _) => {
            if let ResolvedStmt::Block(rs) = res {
                lemma_stmts_resolved_no_free_jump(nv.push(Seq::empty()), fnames, sigs, ret, stmts@, rs@);
            }
        },
        Stmt::If { then_branch, else_branch, .. } => {
            if let ResolvedStmt::If { then_branch: rt, else_branch: re, .. } = res {
                lemma_stmts_resolved_no_free_jump(nv.push(Seq::empty()), fnames, sigs, ret, then_branch@, rt@);
                lemma_stmts_resolved_no_free_jump(nv.push(Seq::empty()), fnames, sigs, ret, else_branch@, re@);
            }
        },
        Stmt::For { init, step, .. } => {
            let n1 = nv.push(Seq::empty());
            if let ResolvedStmt::For { init: ri, step: rs, .. } = res {
                if let Some(b) = init {
                    if let Some(r) = ri {
                        lemma_resolved_no_free_jump(n1, fnames, sigs, ret, *b, *r);
                    }
                }
                let n2 = match (init, ri) {
                    (Some(b), Some(r)) => decl_after(n1, *b, *r),
                    _ => n1,
                };
                if let Some(b) = step {
                    if let Some(r) = rs {
                        lemma_resolved_no_free_jump(n2, fnames, sigs, ret, *b, *r);
                    }
                }
            }
        },
        _ => {},
    }
}

/// Statements resolved outside any loop leave no `break` or `continue` outside a loop.
proof fn lemma_stmts_resolved_no_free_jump(
    nv: Seq<Seq<(String, Symbol)>>,
    fnames: Seq<String>,
    sigs: Seq<Signature>,
    ret: Option<bool>,
    srcs: Seq<Stmt>,
    ress: Seq<ResolvedStmt>,
)
    requires
        stmts_resolved(nv, fnames, sigs, ret, false, srcs, ress),
    ensures
        !stmts_free_jump(ress, 0),
    decreases srcs, 1nat,
{
    lemma_free_jump_at(ress, 0);
    if srcs.len() > 0 {
        lemma_stmts_resolved_no_free_jump(nv, fnames, sigs, ret, srcs.drop_last(), ress.drop_last());
        lemma_resolved_no_free_jump(
            stmts_after(nv, srcs.drop_last(), ress.drop_last()),
            fnames,
            sigs,
            ret,
            srcs.last(),
            ress.last(),
        );
        lemma_free_jump_at(ress.drop_last(), 0);
        assert forall|i: int| 0 <= i < ress.len() implies !stmt_free_jump(#[trigger] ress[i]) by {
            if i < ress.len() - 1 {
                assert(ress[i] == ress.drop_last()[i]);
                assert(!stmt_free_jump(ress.drop_last()[i]));
            }
        }
    }
}

/// A function's signature as calls see it.
struct Signature {
    param_count: usize,
    returns_byte: bool,
}

struct Resolver {
    scopes: Vec<Scope>,
    public_entries: Vec<SymbolInfo>,
    /// Freed cells, largest first, so that the smallest is reused first.
    free_cells: Vec<usize>,
    next_cell: usize,
    high_water: usize,
    signatures: Vec<Signature>,
    function_names: Vec<String>,
    /// Call edges (caller, callee); the caller index equal to the number of functions stands
    /// for the top-level program.
    calls: Vec<(usize, usize)>,
    /// Index into `calls` of the code being resolved.
    caller: usize,
    /// Return kind of the function being resolved; `None` at top level.
    current_return: Option<bool>,
    /// Number of calls that appear inside expressions.
    expr_calls: usize,
    /// Top-level constants: name, value, and where the declaration starts.
    global_consts: Vec<(String, u8, usize)>,
    in_main: bool,
}

fn err_at(msg: &str, span: Span) -> (d: Diagnostic)
    ensures
        d.span == Some(span),
        d.message@ == msg@,
{
    let m = msg.to_string();
    proof {
        broadcast use vstd::string::to_string_from_display_ensures_for_str;
    }
    Diagnostic::new(m, span)
}

/// `prefix` + "`" + name + "`" + `suffix`.
fn named_msg(prefix: &str, name: &String, suffix: &str) -> (m: String)
    ensures
        m@ == prefix@ + "`"@ + name@ + "`"@ + suffix@,
{
    let mut m = prefix.to_string();
    m.append("`");
    m.append(name.as_str());
    m.append("`");
    m.append(suffix);
    m
}

fn layout_error() -> (d: Diagnostic)
    ensures
        d.message@ == "program needs too many tape cells"@,
        d.span is None,
{
    Diagnostic::bare("program needs too many tape cells".to_string())
}

impl Resolver {
    fn new(signatures: Vec<Signature>, function_names: Vec<String>) -> (r: Self)
        requires
            function_names@.len() == signatures@.len(),
        ensures
            r.inv(),
            r.scopes@.len() == 1,
            r.signatures@ == signatures@,
            r.caller == signatures@.len(),
            r.calls@.len() == 0,
            r.expr_calls == 0,
            r.free_cells@.len() == 0,
            r.next_cell == TEMP_COUNT,
            names_view(r.scopes@) == seq![Seq::<(String, Symbol)>::empty()],
            r.function_names@ == function_names@,
            r.current_return == None::<bool>,
    {
        let mut scopes: Vec<Scope> = Vec::new();
        scopes.push(Scope { names: Vec::new(), owned_cells: Vec::new() });
        let calls: Vec<(usize, usize)> = Vec::new();
        let caller = signatures.len();
        Self {
            scopes,
            public_entries: Vec::new(),
            free_cells: Vec::new(),
            next_cell: TEMP_COUNT,
            high_water: TEMP_COUNT,
            signatures,
            function_names,
            calls,
            caller,
            current_return: None,
            expr_calls: 0,
            global_consts: Vec::new(),
            in_main: true,
        }
    }

    /// Every cell owned by a scope, in any scope, once; and every free cell once, owned by
    /// none; the top-level symbols, while the top level is being resolved, are owned by the
    /// outermost scope and share no cell.
    spec fn cells_inv(&self) -> bool {
        &&& self.next_cell == self.high_water
        &&& forall|j: int| 0 <= j < self.scopes@.len() ==> (#[trigger] self.scopes@[j]).owned_cells@.no_duplicates()
        &&& forall|j1: int, j2: int, c: usize|
            0 <= j1 < j2 < self.scopes@.len() && #[trigger] self.scopes@[j1].owned_cells@.contains(c)
                ==> !#[trigger] self.scopes@[j2].owned_cells@.contains(c)
        &&& self.free_cells@.no_duplicates()
        &&& forall|j: int, c: usize|
            0 <= j < self.scopes@.len() && #[trigger] self.scopes@[j].owned_cells@.contains(c)
                ==> !self.free_cells@.contains(c)
        &&& cells_apart(self.public_entries@)
        &&& self.in_main ==> forall|k: int, c: usize|
            0 <= k < self.public_entries@.len() && #[trigger] info_cells(self.public_entries@[k]).contains(c)
                ==> self.scopes@[0].owned_cells@.contains(c)
    }

    /// Cell `c` is owned by some open scope.
    spec fn owns(&self, c: usize) -> bool {
        exists|j: int| 0 <= j < self.scopes@.len() && #[trigger] self.scopes@[j].owned_cells@.contains(c)
    }

    spec fn inv(&self) -> bool {
        &&& self.cells_inv()
        &&& TEMP_COUNT <= self.next_cell <= self.high_water <= MAX_LAYOUT_CELLS
        &&& forall|k: int|
            0 <= k < self.free_cells@.len() ==> TEMP_COUNT <= #[trigger] self.free_cells@[k]
                < self.high_water
        &&& self.scopes@.len() >= 1
        &&& forall|j: int, k: int|
            0 <= j < self.scopes@.len() && 0 <= k < self.scopes@[j].owned_cells@.len()
                ==> TEMP_COUNT <= #[trigger] self.scopes@[j].owned_cells@[k] < self.high_water
        &&& forall|k: int|
            0 <= k < self.public_entries@.len() ==> info_in_range(
                #[trigger] self.public_entries@[k],
                self.high_water as nat,
            )
        &&& self.caller <= self.signatures@.len()
        &&& self.function_names@.len() == self.signatures@.len()
        &&& names_distinct(self.public_entries@)
        &&& self.signatures@.len() == 0 ==> self.expr_calls == 0
    }

    fn alloc_cell(&mut self) -> (r: Result<usize, Diagnostic>)
        requires
            old(self).inv(),
        ensures
            final(self).calls@ == old(self).calls@,
            final(self).caller == old(self).caller,
            final(self).inv(),
            final(self).scopes@ == old(self).scopes@,
            final(self).high_water >= old(self).high_water,
            r matches Ok(c) ==> TEMP_COUNT <= c < final(self).high_water,
            final(self).signatures@ == old(self).signatures@,
            r matches Ok(c) ==> !final(self).owns(c) && !final(self).free_cells@.contains(c),
            final(self).public_entries@ == old(self).public_entries@,
            final(self).in_main == old(self).in_main,
            final(self).function_names@ == old(self).function_names@,
            final(self).current_return == old(self).current_return,
            r is Ok <==> old(self).free_cells@.len() > 0 || old(self).next_cell < MAX_LAYOUT_CELLS,
            r matches Ok(c) ==> c == if old(self).free_cells@.len() > 0 {
                old(self).free_cells@.last()
            } else {
                old(self).next_cell
            },
    {
        proof {
            assert forall|x: usize| #[trigger] self.owns(x) implies TEMP_COUNT <= x < self.high_water by {
                let j = choose|j: int| 0 <= j < self.scopes@.len() && #[trigger] self.scopes@[j].owned_cells@.contains(x);
                let k = choose|k: int| 0 <= k < self.scopes@[j].owned_cells@.len() && self.scopes@[j].owned_cells@[k] == x;
                assert(TEMP_COUNT <= self.scopes@[j].owned_cells@[k] < self.high_water);
            }
        }
        match self.free_cells.pop() {
            Some(cell) => {
                proof {
                    let f = old(self).free_cells@;
                    assert(self.free_cells@ =~= f.drop_last());
                    assert(cell == f[f.len() - 1]);
                    assert(f.contains(cell));
                    assert(!self.free_cells@.contains(cell)) by {
                        if self.free_cells@.contains(cell) {
                            let k = choose|k: int| 0 <= k < self.free_cells@.len() && self.free_cells@[k] == cell;
                            assert(f[k] == f[f.len() - 1]);
                        }
                    }
                    assert(!self.owns(cell)) by {
                        if self.owns(cell) {
                            let j = choose|j: int| 0 <= j < self.scopes@.len() && #[trigger] self.scopes@[j].owned_cells@.contains(cell);
                        }
                    }
                    assert forall|x: usize| #[trigger] self.free_cells@.contains(x) implies f.contains(x) by {
                        let k = choose|k: int| 0 <= k < self.free_cells@.len() && self.free_cells@[k] == x;
                        assert(f[k] == x);
                    }
                }
                Ok(cell)
            },
            None => {
                if self.next_cell >= MAX_LAYOUT_CELLS {
                    return Err(layout_error());
                }
                let cell = self.next_cell;
                self.next_cell = self.next_cell + 1;
                if self.next_cell > self.high_water {
                    self.high_water = self.next_cell;
                }
                Ok(cell)
            },
        }
    }

    fn alloc_block(&mut self, len: usize) -> (r: Result<usize, Diagnostic>)
        requires
            old(self).inv(),
        ensures
            final(self).calls@ == old(self).calls@,
            final(self).caller == old(self).caller,
            final(self).inv(),
            final(self).scopes@ == old(self).scopes@,
            final(self).high_water >= old(self).high_water,
            r matches Ok(b) ==> TEMP_COUNT <= b && b + len <= final(self).high_water,
            final(self).signatures@ == old(self).signatures@,
            r matches Ok(b) ==> forall|c: usize|
                b <= c < b + len ==> !final(self).owns(c) && !final(self).free_cells@.contains(c),
            final(self).public_entries@ == old(self).public_entries@,
            final(self).in_main == old(self).in_main,
            final(self).free_cells@ == old(self).free_cells@,
            final(self).function_names@ == old(self).function_names@,
            final(self).current_return == old(self).current_return,
            r is Ok <==> len <= MAX_LAYOUT_CELLS - old(self).next_cell,
            r matches Ok(b) ==> b == old(self).next_cell,
    {
        proof {
            assert forall|x: usize| #[trigger] self.owns(x) implies TEMP_COUNT <= x < self.high_water by {
                let j = choose|j: int| 0 <= j < self.scopes@.len() && #[trigger] self.scopes@[j].owned_cells@.contains(x);
                let k = choose|k: int| 0 <= k < self.scopes@[j].owned_cells@.len() && self.scopes@[j].owned_cells@[k] == x;
                assert(TEMP_COUNT <= self.scopes@[j].owned_cells@[k] < self.high_water);
            }
            assert forall|x: usize| #[trigger] self.free_cells@.contains(x) implies TEMP_COUNT <= x < self.high_water by {
                let k = choose|k: int| 0 <= k < self.free_cells@.len() && self.free_cells@[k] == x;
                assert(TEMP_COUNT <= self.free_cells@[k] < self.high_water);
            }
        }
        if len > MAX_LAYOUT_CELLS - self.next_cell {
            return Err(layout_error());
        }
        let base = self.next_cell;
        self.next_cell = self.next_cell + len;
        if self.next_cell > self.high_water {
            self.high_water = self.next_cell;
        }
        Ok(base)
    }

    fn push_scope(&mut self)
        requires
            old(self).inv(),
        ensures
            final(self).calls@ == old(self).calls@,
            final(self).caller == old(self).caller,
            final(self).inv(),
            final(self).scopes@.len() == old(self).scopes@.len() + 1,
            final(self).high_water == old(self).high_water,
            final(self).signatures@ == old(self).signatures@,
            final(self).function_names@ == old(self).function_names@,
            final(self).current_return == old(self).current_return,
            names_view(final(self).scopes@) == names_view(old(self).scopes@).push(Seq::empty()),
    {
        self.scopes.push(Scope { names: Vec::new(), owned_cells: Vec::new() });
    }

    /// Closes the innermost scope; its cells become free for reuse.
    fn pop_scope(&mut self)
        requires
            old(self).inv(),
            old(self).scopes@.len() >= 2,
        ensures
            final(self).calls@ == old(self).calls@,
            final(self).caller == old(self).caller,
            final(self).inv(),
            final(self).scopes@.len() == old(self).scopes@.len() - 1,
            final(self).scopes@ == old(self).scopes@.drop_last(),
            names_view(final(self).scopes@) == names_view(old(self).scopes@).drop_last(),
            final(self).high_water == old(self).high_water,
            final(self).signatures@ == old(self).signatures@,
            final(self).public_entries@ == old(self).public_entries@,
            final(self).in_main == old(self).in_main,
            final(self).function_names@ == old(self).function_names@,
            final(self).current_return == old(self).current_return,
    {
        let ghost before = self.scopes@;
        let scope = self.scopes.pop().unwrap();
        let owned = scope.owned_cells;
        assert(forall|k: int| 0 <= k < owned@.len() ==> #[trigger] owned@[k] == before[before.len() - 1].owned_cells@[k]);
        proof {
            let last = before.len() - 1;
            assert(self.scopes@ =~= before.drop_last());
            assert(names_view(self.scopes@) =~= names_view(before).drop_last());
            assert(owned@ =~= before[last].owned_cells@);
            assert forall|k: int| 0 <= k < owned@.len() implies !self.free_cells@.contains(
                #[trigger] owned@[k],
            ) && !self.owns(owned@[k]) by {
                assert(before[last].owned_cells@.contains(owned@[k]));
                if self.owns(owned@[k]) {
                    let j = choose|j: int| 0 <= j < self.scopes@.len() && #[trigger] self.scopes@[j].owned_cells@.contains(owned@[k]);
                    assert(before[j].owned_cells@.contains(owned@[k]));
                }
            }
        }
        let mut i: usize = 0;
        while i < owned.len()
            invariant
                self.inv(),
                i <= owned@.len(),
                forall|k: int|
                    0 <= k < owned@.len() ==> TEMP_COUNT <= #[trigger] owned@[k] < self.high_water,
                self.high_water == old(self).high_water,
                self.scopes@.len() == old(self).scopes@.len() - 1,
                self.scopes@ == before.drop_last(),
                self.signatures@ == old(self).signatures@,
                self.caller == old(self).caller,
                self.calls@ == old(self).calls@,
                self.public_entries@ == old(self).public_entries@,
                self.in_main == old(self).in_main,
                self.function_names@ == old(self).function_names@,
                self.current_return == old(self).current_return,
                owned@.no_duplicates(),
                forall|k: int|
                    i <= k < owned@.len() ==> !self.free_cells@.contains(#[trigger] owned@[k])
                        && !self.owns(owned@[k]),
            decreases owned@.len() - i,
        {
            self.free_insert(owned[i]);
            proof {
                assert forall|k: int| i + 1 <= k < owned@.len() implies !self.free_cells@.contains(
                    #[trigger] owned@[k],
                ) && !self.owns(owned@[k]) by {
                    assert(owned@[k] != owned@[i as int]);
                }
            }
            i = i + 1;
        }
    }

    /// Adds a cell to the free list, keeping it ordered largest first.
    fn free_insert(&mut self, cell: usize)
        requires
            old(self).inv(),
            TEMP_COUNT <= cell < old(self).high_water,
            !old(self).free_cells@.contains(cell),
            !old(self).owns(cell),
        ensures
            final(self).calls@ == old(self).calls@,
            final(self).caller == old(self).caller,
            final(self).inv(),
            final(self).scopes@ == old(self).scopes@,
            final(self).high_water == old(self).high_water,
            final(self).free_cells@.len() == old(self).free_cells@.len() + 1,
            final(self).signatures@ == old(self).signatures@,
            final(self).public_entries@ == old(self).public_entries@,
            final(self).in_main == old(self).in_main,
            forall|c: usize|
                #[trigger] final(self).free_cells@.contains(c) <==> old(self).free_cells@.contains(c)
                    || c == cell,
            final(self).function_names@ == old(self).function_names@,
            final(self).current_return == old(self).current_return,
    {
        let mut pos: usize = 0;
        while pos < self.free_cells.len() && self.free_cells[pos] > cell
            invariant
                pos <= self.free_cells@.len(),
            decreases self.free_cells@.len() - pos,
        {
            pos = pos + 1;
        }
        let ghost f = self.free_cells@;
        self.free_cells.insert(pos, cell);
        proof {
            f.insert_ensures(pos as int, cell);
            let nf = self.free_cells@;
            assert forall|i: int| 0 <= i < nf.len() implies (i < pos ==> nf[i] == f[i]) && (i
                == pos ==> nf[i] == cell) && (i > pos ==> nf[i] == f[i - 1]) by {
                if i > pos {
                    assert(nf[(i - 1) + 1] == f[i - 1]);
                }
            }
            assert forall|c: usize| #[trigger] nf.contains(c) <==> f.contains(c) || c == cell by {
                if nf.contains(c) {
                    let i = choose|i: int| 0 <= i < nf.len() && nf[i] == c;
                    if i < pos {
                        assert(f[i] == c);
                    } else if i > pos {
                        assert(f[i - 1] == c);
                    }
                }
                if f.contains(c) {
                    let i = choose|i: int| 0 <= i < f.len() && f[i] == c;
                    if i < pos {
                        assert(nf[i] == c);
                    } else {
                        assert(nf[i + 1] == c);
                    }
                }
                if c == cell {
                    assert(nf[pos as int] == c);
                }
            }
            assert forall|i: int, j: int| 0 <= i < nf.len() && 0 <= j < nf.len() && i != j implies nf[i]
                != nf[j] by {
                if i != pos && j != pos {
                    let fi = if i < pos { i } else { i - 1 };
                    let fj = if j < pos { j } else { j - 1 };
                    assert(f[fi] != f[fj]);
                } else if i == pos {
                    let fj = if j < pos { j } else { j - 1 };
                    assert(f.contains(f[fj]));
                } else {
                    let fi = if i < pos { i } else { i - 1 };
                    assert(f.contains(f[fi]));
                }
            }
            assert forall|j: int, c: usize|
                0 <= j < self.scopes@.len() && #[trigger] self.scopes@[j].owned_cells@.contains(c)
                    implies !nf.contains(c) by {
                if c == cell {
                    assert(self.owns(c));
                }
            }
        }
    }

    fn current_scope_has(&self, name: &String) -> (b: bool)
        requires
            self.inv(),
        ensures
            b <==> scope_find(names_view(self.scopes@).last(), name@) is Some,
    {
        let scope = &self.scopes[self.scopes.len() - 1];
        let mut i: usize = 0;
        assert(scope.names@.subrange(0, scope.names@.len() as int) =~= scope.names@);
        assert(names_view(self.scopes@).last() == scope.names@);
        while i < scope.names.len()
            invariant
                i <= scope.names@.len(),
                *scope == self.scopes@.last(),
                names_view(self.scopes@).last() == scope.names@,
                scope_find(scope.names@, name@) == scope_find(
                    scope.names@.subrange(i as int, scope.names@.len() as int),
                    name@,
                ),
            decreases scope.names@.len() - i,
        {
            let ghost rest = scope.names@.subrange(i as int, scope.names@.len() as int);
            assert(rest.drop_first() =~= scope.names@.subrange(i + 1, scope.names@.len() as int));
            if scope.names[i].0 == *name {
                assert(rest[0] == scope.names@[i as int]);
                return true;
            }
            i = i + 1;
        }
        false
    }

    fn declare(&mut self, name: &String, symbol: Symbol)
        requires
            old(self).inv(),
        ensures
            final(self).calls@ == old(self).calls@,
            final(self).caller == old(self).caller,
            final(self).inv(),
            final(self).scopes@.len() == old(self).scopes@.len(),
            final(self).high_water == old(self).high_water,
            final(self).signatures@ == old(self).signatures@,
            forall|j: int|
                0 <= j < old(self).scopes@.len() - 1 ==> final(self).scopes@[j] == old(
                    self,
                ).scopes@[j],
            final(self).scopes@.last().owned_cells@ == old(self).scopes@.last().owned_cells@,
            final(self).scopes@.last().names@.len() == old(self).scopes@.last().names@.len() + 1,
            final(self).free_cells@ == old(self).free_cells@,
            final(self).public_entries@ == old(self).public_entries@,
            final(self).in_main == old(self).in_main,
            forall|c: usize| final(self).owns(c) <==> old(self).owns(c),
            forall|j: int|
                0 <= j < old(self).scopes@.len() ==> (#[trigger] final(self).scopes@[j]).owned_cells@
                    == old(self).scopes@[j].owned_cells@,
            final(self).function_names@ == old(self).function_names@,
            final(self).current_return == old(self).current_return,
            names_view(final(self).scopes@) == declare_view(names_view(old(self).scopes@), *name, symbol),
            names_view(final(self).scopes@).drop_last() == names_view(old(self).scopes@).drop_last(),
    {
        let last = self.scopes.len() - 1;
        let ghost before = self.scopes@;
        let mut scope = self.scopes.remove(last);
        scope.names.push((name.clone(), symbol));
        self.scopes.push(scope);
        assert(self.scopes@ =~= before.update(last as int, self.scopes@[last as int]));
        proof {
            assert(names_view(self.scopes@).drop_last() =~= names_view(before).drop_last());
            assert(names_view(self.scopes@) =~= declare_view(names_view(before), *name, symbol));
            assert forall|j: int| 0 <= j < before.len() implies (#[trigger] self.scopes@[j]).owned_cells@
                == before[j].owned_cells@ by {
                if j < last {
                    assert(self.scopes@[j] == before[j]);
                }
            }
            assert forall|c: usize| self.owns(c) <==> old(self).owns(c) by {
                if self.owns(c) {
                    let j = choose|j: int| 0 <= j < self.scopes@.len() && #[trigger] self.scopes@[j].owned_cells@.contains(c);
                    assert(before[j].owned_cells@.contains(c));
                }
                if old(self).owns(c) {
                    let j = choose|j: int| 0 <= j < before.len() && #[trigger] before[j].owned_cells@.contains(c);
                    assert(self.scopes@[j].owned_cells@.contains(c));
                }
            }
        }
    }

    /// Gives the innermost scope cells `first..first + count`, which no scope owns and which
    /// are not free.
    #[verifier::spinoff_prover]
    fn own_cells(&mut self, first: usize, count: usize)
        requires
            old(self).inv(),
            TEMP_COUNT <= first,
            first + count <= old(self).high_water,
            forall|c: usize|
                first <= c < first + count ==> !old(self).owns(c) && !old(
                    self,
                ).free_cells@.contains(c),
        ensures
            final(self).calls@ == old(self).calls@,
            final(self).caller == old(self).caller,
            final(self).inv(),
            final(self).scopes@.len() == old(self).scopes@.len(),
            final(self).high_water == old(self).high_water,
            final(self).signatures@ == old(self).signatures@,
            final(self).free_cells@ == old(self).free_cells@,
            final(self).public_entries@ == old(self).public_entries@,
            final(self).in_main == old(self).in_main,
            forall|j: int|
                0 <= j < old(self).scopes@.len() - 1 ==> final(self).scopes@[j] == old(
                    self,
                ).scopes@[j],
            forall|c: usize|
                #[trigger] final(self).scopes@.last().owned_cells@.contains(c) <==> old(
                    self,
                ).scopes@.last().owned_cells@.contains(c) || first <= c < first + count,
            old(self).in_main ==> forall|k: int, c: usize|
                0 <= k < old(self).public_entries@.len() && #[trigger] info_cells(
                    old(self).public_entries@[k],
                ).contains(c) ==> !(first <= c < first + count),
            final(self).function_names@ == old(self).function_names@,
            final(self).current_return == old(self).current_return,
            names_view(final(self).scopes@) == names_view(old(self).scopes@),
    {
        proof {
            if self.in_main {
                assert forall|k: int, c: usize|
                    0 <= k < self.public_entries@.len() && #[trigger] info_cells(self.public_entries@[k]).contains(c)
                        implies !(first <= c < first + count) by {
                    assert(self.scopes@[0].owned_cells@.contains(c));
                    assert(self.owns(c));
                }
            }
        }
        let last = self.scopes.len() - 1;
        let ghost before = self.scopes@;
        let ghost prev = before[last as int].owned_cells@;
        let mut scope = self.scopes.remove(last);
        assert(forall|k: int| 0 <= k < scope.owned_cells@.len() ==> #[trigger] scope.owned_cells@[k] == before[last as int].owned_cells@[k]);
        assert(scope.owned_cells@ =~= prev);
        assert(forall|j: int| 0 <= j < last ==> self.scopes@[j] == before[j]);
        assert forall|x: usize| first <= x < first + count implies !prev.contains(x) by {
            if prev.contains(x) {
                assert(before[last as int].owned_cells@.contains(x));
                assert(old(self).owns(x));
            }
        }
        let mut c: usize = first;
        while c < first + count
            invariant
                first <= c <= first + count,
                first + count <= self.high_water,
                TEMP_COUNT <= first,
                forall|k: int|
                    0 <= k < scope.owned_cells@.len() ==> TEMP_COUNT
                        <= #[trigger] scope.owned_cells@[k] < self.high_water,
                forall|x: usize|
                    #[trigger] scope.owned_cells@.contains(x) <==> prev.contains(x) || first <= x < c,
                scope.owned_cells@.no_duplicates(),
                scope.names@ == before[last as int].names@,
                prev.no_duplicates(),
                forall|x: usize| first <= x < first + count ==> !prev.contains(x),
            decreases first + count - c,
        {
            let ghost o = scope.owned_cells@;
            scope.owned_cells.push(c);
            proof {
                assert forall|x: usize| #[trigger] scope.owned_cells@.contains(x) <==> prev.contains(x)
                    || first <= x < c + 1 by {
                    if scope.owned_cells@.contains(x) {
                        let k = choose|k: int| 0 <= k < scope.owned_cells@.len() && scope.owned_cells@[k] == x;
                        if k < o.len() {
                            assert(o[k] == x);
                            assert(o.contains(x));
                        }
                    }
                    if prev.contains(x) || first <= x < c {
                        assert(o.contains(x));
                        let k = choose|k: int| 0 <= k < o.len() && o[k] == x;
                        assert(scope.owned_cells@[k] == x);
                    }
                    if x == c {
                        assert(scope.owned_cells@[o.len() as int] == x);
                    }
                }
                assert(!o.contains(c));
                assert forall|i: int, j: int|
                    0 <= i < scope.owned_cells@.len() && 0 <= j < scope.owned_cells@.len() && i != j
                        implies scope.owned_cells@[i] != scope.owned_cells@[j] by {
                    if i < o.len() && j < o.len() {
                        assert(o[i] != o[j]);
                    } else if i < o.len() {
                        assert(o.contains(o[i]));
                    } else if j < o.len() {
                        assert(o.contains(o[j]));
                    }
                }
            }
            c = c + 1;
        }
        self.scopes.push(scope);
        proof {
            let sc = self.scopes@;
            assert(forall|j: int| 0 <= j < last ==> sc[j] == before[j]);
            assert(sc[last as int] == scope);
            assert(names_view(sc) =~= names_view(before));
            assert forall|j: int| 0 <= j < sc.len() implies (#[trigger] sc[j]).owned_cells@.no_duplicates() by {
                if j < last {
                    assert(sc[j] == before[j]);
                }
            }
            assert forall|j1: int, j2: int, x: usize|
                0 <= j1 < j2 < sc.len() && #[trigger] sc[j1].owned_cells@.contains(x) implies !#[trigger] sc[j2].owned_cells@.contains(x) by {
                assert(sc[j1] == before[j1]);
                if j2 < last {
                    assert(sc[j2] == before[j2]);
                } else if sc[j2].owned_cells@.contains(x) {
                    if !prev.contains(x) {
                        assert(old(self).owns(x));
                    }
                }
            }
            assert forall|j: int, x: usize|
                0 <= j < sc.len() && #[trigger] sc[j].owned_cells@.contains(x) implies !self.free_cells@.contains(x) by {
                if j < last {
                    assert(sc[j] == before[j]);
                } else {
                    assert(sc[j].owned_cells@ == scope.owned_cells@);
                    assert(scope.owned_cells@.contains(x));
                    assert(self.free_cells@ == old(self).free_cells@);
                    if prev.contains(x) {
                        assert(old(self).scopes@[last as int].owned_cells@.contains(x));
                        assert(!old(self).free_cells@.contains(x));
                    } else {
                        assert(first <= x < first + count);
                        assert(!old(self).owns(x));
                        assert(!old(self).free_cells@.contains(x));
                    }
                }
            }
            if self.in_main {
                assert forall|k: int, x: usize|
                    0 <= k < self.public_entries@.len() && #[trigger] info_cells(self.public_entries@[k]).contains(x)
                        implies sc[0].owned_cells@.contains(x) by {
                    assert(before[0].owned_cells@.contains(x));
                    if last > 0 {
                        assert(sc[0] == before[0]);
                    }
                }
            }
            assert forall|j: int, k: int| 0 <= j < sc.len() && 0 <= k < sc[j].owned_cells@.len()
                implies TEMP_COUNT <= #[trigger] sc[j].owned_cells@[k] < self.high_water by {
                if j < last {
                    assert(sc[j] == before[j]);
                }
            }
        }
    }

    fn lookup_symbol(&self, name: &String) -> (r: Option<Symbol>)
        requires
            self.inv(),
        ensures
            r == stack_find(names_view(self.scopes@), name@),
    {
        let mut s = self.scopes.len();
        assert(self.scopes@.subrange(0, s as int) =~= self.scopes@);
        while s > 0
            invariant
                s <= self.scopes@.len(),
                stack_find(names_view(self.scopes@), name@) == stack_find(names_view(self.scopes@.subrange(0, s as int)), name@),
            decreases s,
        {
            let ghost outer = self.scopes@.subrange(0, s as int);
            assert(outer.drop_last() =~= self.scopes@.subrange(0, s - 1));
            assert(names_view(outer).drop_last() =~= names_view(outer.drop_last()));
            assert(names_view(outer).last() == outer.last().names@);
            s = s - 1;
            let scope = &self.scopes[s];
            assert(outer.last() == *scope);
            let mut i: usize = 0;
            assert(scope.names@.subrange(0, scope.names@.len() as int) =~= scope.names@);
            while i < scope.names.len()
                invariant
                    i <= scope.names@.len(),
                    scope_find(scope.names@, name@) == scope_find(
                        scope.names@.subrange(i as int, scope.names@.len() as int),
                        name@,
                    ),
                    stack_find(names_view(self.scopes@), name@) == stack_find(names_view(outer), name@),
                    outer.len() >= 1,
                    outer.last() == *scope,
                    outer.drop_last() == self.scopes@.subrange(0, s as int),
                decreases scope.names@.len() - i,
            {
                let ghost rest = scope.names@.subrange(i as int, scope.names@.len() as int);
                assert(rest.drop_first() =~= scope.names@.subrange(i + 1, scope.names@.len() as int));
                if scope.names[i].0 == *name {
                    assert(rest[0] == scope.names@[i as int]);
                    assert(scope_find(scope.names@, name@) == Some(scope.names@[i as int].1));
                    return Some(scope.names[i].1);
                }
                i = i + 1;
            }
            assert(scope.names@.subrange(scope.names@.len() as int, scope.names@.len() as int).len() == 0);
            assert(scope_find(scope.names@, name@) is None);
        }
        None
    }

    fn lookup_scalar(&self, name: &String, span: Span, prefix: &str) -> (r: Result<usize, Diagnostic>)
        requires
            self.inv(),
        ensures
            r matches Ok(c) ==> TEMP_COUNT <= c,
            r matches Ok(c) ==> stack_find(names_view(self.scopes@), name@) == Some(Symbol::Scalar(c)),
            r is Ok <==> (stack_find(names_view(self.scopes@), name@) matches Some(Symbol::Scalar(c))
                && TEMP_COUNT <= c),
            r matches Err(d) ==> d.span == Some(span) && d.message@ == scalar_lookup_error(
                stack_find(names_view(self.scopes@), name@),
                prefix@,
                name@,
            ),
    {
        proof {
            reveal_strlit("");
            assert(forall|x: Seq<char>| x + ""@ =~= x && ""@ + x =~= x);
        }
        match self.lookup_symbol(name) {
            None => Err(Diagnostic::new(named_msg(prefix, name, ""), span)),
            Some(Symbol::Scalar(cell)) => {
                if cell < TEMP_COUNT {
                    return Err(Diagnostic::new(named_msg("", name, " is not a variable"), span));
                }
                Ok(cell)
            },
            Some(Symbol::Array { .. }) => Err(Diagnostic::new(named_msg("", name, " is an array"), span)),
            Some(Symbol::Const(_)) => Err(Diagnostic::new(named_msg("", name, " is a constant"), span)),
        }
    }

    fn lookup_array(&self, name: &String, span: Span) -> (r: Result<(usize, usize), Diagnostic>)
        requires
            self.inv(),
        ensures
            r matches Ok((b, l)) ==> stack_find(names_view(self.scopes@), name@) == Some(Symbol::Array { base: b, len: l }),
            r is Ok <==> stack_find(names_view(self.scopes@), name@) matches Some(Symbol::Array { .. }),
            r matches Err(d) ==> d.span == Some(span) && d.message@ == if stack_find(
                names_view(self.scopes@),
                name@,
            ) is None {
                "use of undeclared array "@ + "`"@ + name@ + "`"@
            } else {
                "`"@ + name@ + "`"@ + " is not an array"@
            },
    {
        proof {
            reveal_strlit("");
            assert(forall|x: Seq<char>| x + ""@ =~= x && ""@ + x =~= x);
        }
        match self.lookup_symbol(name) {
            None => Err(Diagnostic::new(named_msg("use of undeclared array ", name, ""), span)),
            Some(Symbol::Array { base, len }) => Ok((base, len)),
            Some(Symbol::Scalar(_)) => Err(Diagnostic::new(named_msg("", name, " is not an array"), span)),
            Some(Symbol::Const(_)) => Err(Diagnostic::new(named_msg("", name, " is not an array"), span)),
        }
    }

    /// Records a top-level symbol for the public symbol table (the first of each name).
    fn define_public(&mut self, name: &String, info: SymbolInfo)
        requires
            old(self).inv(),
            info_name(info) == name@,
            info_in_range(info, old(self).high_water as nat),
            old(self).in_main && old(self).scopes@.len() == 1 ==> (forall|k: int|
                0 <= k < old(self).public_entries@.len() ==> info_cells(
                    #[trigger] old(self).public_entries@[k],
                ).disjoint(info_cells(info))) && (forall|c: usize|
                #[trigger] info_cells(info).contains(c) ==> old(self).scopes@[0].owned_cells@.contains(c)),
        ensures
            final(self).calls@ == old(self).calls@,
            final(self).caller == old(self).caller,
            final(self).inv(),
            final(self).scopes@ == old(self).scopes@,
            final(self).high_water == old(self).high_water,
            final(self).signatures@ == old(self).signatures@,
            final(self).function_names@ == old(self).function_names@,
            final(self).current_return == old(self).current_return,
            final(self).public_entries@ == if old(self).in_main && old(self).scopes@.len() == 1 && forall|k: int|
                0 <= k < old(self).public_entries@.len() ==> info_name(
                    #[trigger] old(self).public_entries@[k],
                ) != name@ {
                old(self).public_entries@.push(info)
            } else {
                old(self).public_entries@
            },
    {
        if !self.in_main || self.scopes.len() != 1 {
            return;
        }
        let mut i: usize = 0;
        while i < self.public_entries.len()
            invariant
                *self == *old(self),
                self.inv(),
                i <= self.public_entries@.len(),
                forall|k: int| 0 <= k < i ==> info_name(#[trigger] self.public_entries@[k]) != name@,
            decreases self.public_entries@.len() - i,
        {
            let existing = match &self.public_entries[i] {
                SymbolInfo::Scalar { name, .. } => name,
                SymbolInfo::Array { name, .. } => name,
            };
            if *existing == *name {
                return;
            }
            i = i + 1;
        }
        let ghost before = self.public_entries@;
        self.public_entries.push(info);
        proof {
            let e = self.public_entries@;
            assert forall|a: int, b: int| 0 <= a < b < e.len() implies (#[trigger] info_cells(e[a])).disjoint(
                #[trigger] info_cells(e[b]),
            ) by {
                if b == before.len() {
                    assert(e[a] == before[a]);
                } else {
                    assert(e[a] == before[a] && e[b] == before[b]);
                }
            }
            assert forall|k: int, c: usize|
                0 <= k < e.len() && #[trigger] info_cells(e[k]).contains(c) implies self.scopes@[0].owned_cells@.contains(c) by {
                if k < before.len() {
                    assert(e[k] == before[k]);
                }
            }
        }
    }

    /// Evaluates a constant expression: literals, visible constants and operators only.
    fn eval_const_expr(&self, expr: &Expr) -> (r: Result<u8, Diagnostic>)
        requires
            self.inv(),
        ensures
            r is Ok <==> const_src(names_view(self.scopes@), *expr) is Some,
            r matches Ok(v) ==> const_src(names_view(self.scopes@), *expr) == Some(v),
        decreases expr,
    {
        match expr {
            Expr::Byte(v, _) => Ok(*v),
            Expr::Var(name, span) => match self.lookup_symbol(name) {
                None => Err(Diagnostic::new(named_msg("undeclared or forward name ", name, ""), *span)),
                Some(Symbol::Const(v)) => Ok(v),
                Some(_) => Err(Diagnostic::new(
                    named_msg("constant expression cannot use variable ", name, ""),
                    *span,
                )),
            },
            Expr::ArrayGet { span, .. } => Err(err_at("constant expression cannot access an array", *span)),
            Expr::Call { span, .. } => Err(err_at("constant expression cannot call a function", *span)),
            Expr::Unary { op, expr, .. } => {
                let v = self.eval_const_expr(expr)?;
                Ok(apply_unop(*op, v))
            },
            Expr::Binary { left, op, right, .. } => {
                let l = self.eval_const_expr(left)?;
                let r = self.eval_const_expr(right)?;
                Ok(apply_binop(*op, l, r))
            },
        }
    }

    fn find_function(&self, name: &String) -> (r: Option<usize>)
        requires
            self.inv(),
        ensures
            r matches Some(i) ==> i < self.signatures@.len(),
            r == first_named(self.function_names@, name@),
    {
        let mut i: usize = 0;
        while i < self.function_names.len()
            invariant
                self.inv(),
                i <= self.function_names@.len(),
                first_named(self.function_names@.subrange(0, i as int), name@) is None,
            decreases self.function_names@.len() - i,
        {
            let ghost pre = self.function_names@.subrange(0, i as int);
            let ghost pre1 = self.function_names@.subrange(0, i + 1);
            assert(pre1.drop_last() =~= pre);
            if self.function_names[i] == *name {
                proof {
                    lemma_first_named_prefix(self.function_names@, name@, i as int);
                }
                return Some(i);
            }
            i = i + 1;
        }
        assert(self.function_names@.subrange(0, i as int) =~= self.function_names@);
        None
    }

    fn record_call(&mut self, callee: usize)
        requires
            old(self).inv(),
        ensures
            extends(old(self).calls@, final(self).calls@),
            has_call(final(self).calls@, final(self).caller as int, callee as int),
            final(self).inv(),
            final(self).scopes@ == old(self).scopes@,
            final(self).high_water == old(self).high_water,
            final(self).signatures@ == old(self).signatures@,
            final(self).caller == old(self).caller,
            final(self).function_names@ == old(self).function_names@,
            final(self).current_return == old(self).current_return,
            final(self).free_cells@ == old(self).free_cells@,
            final(self).next_cell == old(self).next_cell,
    {
        self.calls.push((self.caller, callee));
        assert(self.calls@[self.calls@.len() - 1] == (self.caller, callee));
    }

    /// Resolves the callee and arguments of a call; checks the argument count.
    fn resolve_call(&mut self, name: &String, name_span: Span, args: &Vec<Expr>) -> (r: Result<(usize, Vec<ResolvedExpr>), Diagnostic>)
        requires
            old(self).inv(),
        ensures
            final(self).inv(),
            final(self).scopes@ == old(self).scopes@,
            final(self).high_water >= old(self).high_water,
            final(self).signatures@ == old(self).signatures@,
            final(self).caller == old(self).caller,
            final(self).free_cells@ == old(self).free_cells@,
            final(self).next_cell == old(self).next_cell,
            r matches Ok((f, a)) ==> f < final(self).signatures@.len(),
            extends(old(self).calls@, final(self).calls@),
            r matches Ok((f, a)) ==> final(self).records(exprs_callees(a@).insert(f)),
            final(self).function_names@ == old(self).function_names@,
            r is Ok <==> (first_named(old(self).function_names@, name@) matches Some(f) && old(
                self,
            ).signatures@[f as int].param_count == args@.len() && forall|k: int|
                0 <= k < args@.len() ==> expr_ok(
                    names_view(old(self).scopes@),
                    old(self).function_names@,
                    old(self).signatures@,
                    #[trigger] args@[k],
                )),
            r matches Ok((f, a)) ==> first_named(old(self).function_names@, name@) == Some(f)
                && old(self).signatures@[f as int].param_count == args@.len() && a@.len() == args@.len()
                && forall|k: int|
                0 <= k < args@.len() ==> expr_resolved(
                    names_view(old(self).scopes@),
                    old(self).function_names@,
                    old(self).signatures@,
                    #[trigger] args@[k],
                    a@[k],
                ),
            final(self).current_return == old(self).current_return,
            final(self).free_cells@ == old(self).free_cells@,
            final(self).next_cell == old(self).next_cell,
        decreases args, 1nat,
    {
        let function = match self.find_function(name) {
            Some(f) => f,
            None => {
                return Err(Diagnostic::new(named_msg("call to undeclared function ", name, ""), name_span));
            },
        };
        let expected = self.signatures[function].param_count;
        if expected != args.len() {
            let mut m = named_msg("function ", name, " expects ");
            push_decimal(&mut m, expected as u64);
            m.append(" arguments, got ");
            push_decimal(&mut m, args.len() as u64);
            return Err(Diagnostic::new(m, name_span));
        }
        let mut resolved: Vec<ResolvedExpr> = Vec::new();
        let mut i: usize = 0;
        while i < args.len()
            invariant
                self.inv(),
                i <= args@.len(),
                self.scopes@ == old(self).scopes@,
                self.high_water >= old(self).high_water,
                self.signatures@ == old(self).signatures@,
                self.caller == old(self).caller,
                function < self.signatures@.len(),
                extends(old(self).calls@, self.calls@),
                self.records(exprs_callees(resolved@)),
                self.function_names@ == old(self).function_names@,
                self.current_return == old(self).current_return,
                self.free_cells@ == old(self).free_cells@,
                self.next_cell == old(self).next_cell,
                resolved@.len() == i,
                forall|k: int|
                    0 <= k < i ==> expr_ok(
                        names_view(old(self).scopes@),
                        old(self).function_names@,
                        old(self).signatures@,
                        #[trigger] args@[k],
                    ),
                forall|k: int|
                    0 <= k < i ==> expr_resolved(
                        names_view(old(self).scopes@),
                        old(self).function_names@,
                        old(self).signatures@,
                        #[trigger] args@[k],
                        resolved@[k],
                    ),
            decreases args@.len() - i,
        {
            proof {
                vstd::std_specs::vec::axiom_vec_index_decreases(*args, i as int);
            }
            let ghost before = self.calls@;
            let x = self.resolve_expr(&args[i])?;
            proof {
                lemma_recorded_grows(before, self.calls@, self.caller, self.signatures@.len() as nat, exprs_callees(resolved@));
                assert(resolved@.push(x).drop_last() =~= resolved@);
            }
            resolved.push(x);
            i = i + 1;
        }
        let ghost before = self.calls@;
        self.record_call(function);
        proof {
            lemma_recorded_grows(before, self.calls@, self.caller, self.signatures@.len() as nat, exprs_callees(resolved@));
        }
        Ok((function, resolved))
    }

    fn resolve_expr(&mut self, expr: &Expr) -> (r: Result<ResolvedExpr, Diagnostic>)
        requires
            old(self).inv(),
        ensures
            extends(old(self).calls@, final(self).calls@),
            final(self).free_cells@ == old(self).free_cells@,
            final(self).next_cell == old(self).next_cell,
            r matches Ok(e) ==> final(self).records(expr_callees(e)),
            final(self).inv(),
            final(self).scopes@ == old(self).scopes@,
            final(self).high_water >= old(self).high_water,
            final(self).signatures@ == old(self).signatures@,
            final(self).caller == old(self).caller,
            final(self).function_names@ == old(self).function_names@,
            r matches Ok(e) ==> expr_resolved(
                names_view(old(self).scopes@),
                old(self).function_names@,
                old(self).signatures@,
                *expr,
                e,
            ),
            r is Ok <==> expr_ok(
                names_view(old(self).scopes@),
                old(self).function_names@,
                old(self).signatures@,
                *expr,
            ),
            final(self).current_return == old(self).current_return,
            final(self).free_cells@ == old(self).free_cells@,
            final(self).next_cell == old(self).next_cell,
        decreases expr, 0nat,
    {
        match expr {
            Expr::Byte(v, _) => Ok(ResolvedExpr::Byte(*v)),
            Expr::Var(name, span) => match self.lookup_symbol(name) {
                Some(Symbol::Const(v)) => Ok(ResolvedExpr::Byte(v)),
                _ => Ok(ResolvedExpr::Var(self.lookup_scalar(name, *span, "use of undeclared variable ")?)),
            },
            Expr::ArrayGet { name, name_span, index, .. } => {
                let ghost src_index = **index;
                let (base, len) = self.lookup_array(name, *name_span)?;
                let index = self.resolve_expr(index)?;
                proof {
                    lemma_resolved_const(
                        names_view(old(self).scopes@),
                        old(self).function_names@,
                        old(self).signatures@,
                        src_index,
                        index,
                    );
                }
                check_const_index(&index, len, expr.span())?;
                Ok(ResolvedExpr::ArrayGet { base, len, index: Box::new(index) })
            },
            Expr::Call { name, name_span, args, .. } => {
                let (function, args) = self.resolve_call(name, *name_span, args)?;
                if !self.signatures[function].returns_byte {
                    return Err(Diagnostic::new(
                        named_msg("void function ", name, " cannot be used as a value"),
                        *name_span,
                    ));
                }
                if self.expr_calls < usize::MAX {
                    self.expr_calls = self.expr_calls + 1;
                }
                Ok(ResolvedExpr::Call { function, args })
            },
            Expr::Unary { op, expr, .. } => {
                let inner = self.resolve_expr(expr)?;
                Ok(ResolvedExpr::Unary { op: *op, expr: Box::new(inner) })
            },
            Expr::Binary { left, op, right, .. } => {
                let l = self.resolve_expr(left)?;
                let ghost mid = self.calls@;
                let r = self.resolve_expr(right)?;
                proof {
                    lemma_recorded_grows(mid, self.calls@, self.caller, self.signatures@.len() as nat, expr_callees(l));
                }
                Ok(ResolvedExpr::Binary { left: Box::new(l), op: *op, right: Box::new(r) })
            },
        }
    }

    fn resolve_opt_expr(&mut self, expr: &Option<Expr>) -> (r: Result<Option<ResolvedExpr>, Diagnostic>)
        requires
            old(self).inv(),
        ensures
            extends(old(self).calls@, final(self).calls@),
            final(self).free_cells@ == old(self).free_cells@,
            final(self).next_cell == old(self).next_cell,
            r matches Ok(e) ==> final(self).records(opt_expr_callees(e)),
            final(self).inv(),
            final(self).scopes@ == old(self).scopes@,
            final(self).high_water >= old(self).high_water,
            final(self).signatures@ == old(self).signatures@,
            final(self).caller == old(self).caller,
            final(self).function_names@ == old(self).function_names@,
            r matches Ok(Some(e)) ==> (expr matches Some(x) && expr_resolved(
                names_view(old(self).scopes@),
                old(self).function_names@,
                old(self).signatures@,
                *x,
                e,
            )),
            r matches Ok(None) ==> expr is None,
            r is Ok <==> match *expr {
                None => true,
                Some(x) => expr_ok(
                    names_view(old(self).scopes@),
                    old(self).function_names@,
                    old(self).signatures@,
                    x,
                ),
            },
            final(self).current_return == old(self).current_return,
            final(self).free_cells@ == old(self).free_cells@,
            final(self).next_cell == old(self).next_cell,
    {
        match expr {
            Some(e) => Ok(Some(self.resolve_expr(e)?)),
            None => Ok(None),
        }
    }
}

/// Rejects a constant index that is outside the array.
fn check_const_index(index: &ResolvedExpr, len: usize, span: Span) -> (r: Result<(), Diagnostic>)
    ensures
        r is Err <==> (const_value(*index) matches Some(v) && v as nat >= len),
{
    match const_eval(index) {
        Some(v) => {
            if v as usize >= len {
                let mut m = "array index ".to_string();
                push_decimal(&mut m, v as u64);
                m.append(" is out of bounds for length ");
                push_decimal(&mut m, len as u64);
                return Err(Diagnostic::new(m, span));
            }
            Ok(())
        },
        None => Ok(()),
    }
}

/// Whether a statement can never complete normally: every path through it returns (or loops
/// forever without a `break`).
pub open spec fn stmt_always_returns(s: ResolvedStmt) -> bool
    decreases s,
{
    match s {
        ResolvedStmt::Return(_) => true,
        ResolvedStmt::Block(body) => stmts_always_return_rec(body@, 0),
        ResolvedStmt::If { then_branch, else_branch, .. } => stmts_always_return_rec(then_branch@, 0)
            && stmts_always_return_rec(else_branch@, 0),
        ResolvedStmt::Loop { body } => !stmts_break_rec(body@, 0),
        ResolvedStmt::For { cond: None, body, .. } => !stmts_break_rec(body@, 0),
        _ => false,
    }
}

pub open spec fn stmts_always_return_rec(stmts: Seq<ResolvedStmt>, from: int) -> bool
    decreases stmts, stmts.len() - from,
{
    if from < 0 || from >= stmts.len() {
        false
    } else {
        stmt_always_returns(stmts[from]) || stmts_always_return_rec(stmts, from + 1)
    }
}

/// Whether a `break` inside the statements (outside nested loops) leaves the enclosing loop.
pub open spec fn stmts_break_rec(stmts: Seq<ResolvedStmt>, from: int) -> bool
    decreases stmts, stmts.len() - from,
{
    if from < 0 || from >= stmts.len() {
        false
    } else {
        stmt_breaks(stmts[from]) || stmts_break_rec(stmts, from + 1)
    }
}

pub open spec fn stmt_breaks(s: ResolvedStmt) -> bool
    decreases s,
{
    match s {
        ResolvedStmt::Break => true,
        ResolvedStmt::Block(body) => stmts_break_rec(body@, 0),
        ResolvedStmt::If { then_branch, else_branch, .. } => stmts_break_rec(then_branch@, 0)
            || stmts_break_rec(else_branch@, 0),
        _ => false,
    }
}

/// Whether the statements never complete normally (see `stmts_always_return_rec`).
pub fn always_returns(stmts: &Vec<ResolvedStmt>) -> (b: bool)
    ensures
        b == stmts_always_return_rec(stmts@, 0),
    decreases stmts, 2nat,
{
    let mut i: usize = stmts.len();
    let mut found = false;
    while i > 0
        invariant
            i <= stmts@.len(),
            found == stmts_always_return_rec(stmts@, i as int),
        decreases i,
    {
        i = i - 1;
        proof {
            vstd::std_specs::vec::axiom_vec_index_decreases(*stmts, i as int);
        }
        let here = stmt_returns(&stmts[i]);
        found = here || found;
    }
    found
}

fn stmt_returns(s: &ResolvedStmt) -> (b: bool)
    ensures
        b == stmt_always_returns(*s),
    decreases s, 1nat,
{
    match s {
        ResolvedStmt::Return(_) => true,
        ResolvedStmt::Block(body) => always_returns(body),
        ResolvedStmt::If { then_branch, else_branch, .. } => always_returns(then_branch)
            && always_returns(else_branch),
        ResolvedStmt::Loop { body } => !breaks_out(body),
        ResolvedStmt::For { cond: None, body, .. } => !breaks_out(body),
        _ => false,
    }
}

fn breaks_out(stmts: &Vec<ResolvedStmt>) -> (b: bool)
    ensures
        b == stmts_break_rec(stmts@, 0),
    decreases stmts, 2nat,
{
    let mut i: usize = stmts.len();
    let mut found = false;
    while i > 0
        invariant
            i <= stmts@.len(),
            found == stmts_break_rec(stmts@, i as int),
        decreases i,
    {
        i = i - 1;
        proof {
            vstd::std_specs::vec::axiom_vec_index_decreases(*stmts, i as int);
        }
        let here = stmt_break(&stmts[i]);
        found = here || found;
    }
    found
}

fn stmt_break(s: &ResolvedStmt) -> (b: bool)
    ensures
        b == stmt_breaks(*s),
    decreases s, 1nat,
{
    match s {
        ResolvedStmt::Break => true,
        ResolvedStmt::Block(body) => breaks_out(body),
        ResolvedStmt::If { then_branch, else_branch, .. } => breaks_out(then_branch) || breaks_out(
            else_branch,
        ),
        _ => false,
    }
}

fn copy_bytes(v: &Vec<u8>) -> (r: Vec<u8>)
    ensures
        r@ == v@,
{
    let mut r: Vec<u8> = Vec::new();
    let mut i: usize = 0;
    while i < v.len()
        invariant
            i <= v@.len(),
            r@ == v@.take(i as int),
        decreases v@.len() - i,
    {
        r.push(v[i]);
        assert(v@.take(i + 1) =~= v@.take(i as int).push(v@[i as int]));
        i = i + 1;
    }
    assert(v@.take(v@.len() as int) =~= v@);
    r
}

impl Resolver {
    spec fn frame(&self, other: &Self) -> bool {
        &&& self.inv()
        &&& self.scopes@.len() == other.scopes@.len()
        &&& names_view(self.scopes@).drop_last() == names_view(other.scopes@).drop_last()
        &&& self.function_names@ == other.function_names@
        &&& self.current_return == other.current_return
        &&& self.high_water >= other.high_water
        &&& self.signatures@ == other.signatures@
        &&& self.caller == other.caller
        &&& extends(other.calls@, self.calls@)
    }

    /// Every function in `s` is a function of the program and a recorded call of the code
    /// being resolved.
    spec fn records(&self, s: Set<usize>) -> bool {
        all_recorded(self.calls@, self.caller, self.signatures@.len() as nat, s)
    }

    fn resolve_stmts(&mut self, stmts: &Vec<Stmt>, loop_depth: usize) -> (r: Result<Vec<ResolvedStmt>, Diagnostic>)
        requires
            old(self).inv(),
        ensures
            final(self).frame(old(self)),
            r matches Ok(v) ==> final(self).records(stmts_callees(v@)),
            r matches Ok(v) ==> stmts_resolved(
                names_view(old(self).scopes@),
                old(self).function_names@, old(self).signatures@,
                old(self).current_return,
                loop_depth > 0,
                stmts@,
                v@,
            ) && names_view(final(self).scopes@) == stmts_after(names_view(old(self).scopes@), stmts@, v@),
            stmts@.len() == 0 ==> (r matches Ok(v) && v@.len() == 0 && final(self).calls@ == old(
                self,
            ).calls@ && final(self).expr_calls == old(self).expr_calls),
            stmts@.len() > 0 && stmts@[0] is Let ==> (r matches Ok(v) ==> v@[0]->Let_cell
                == next_free_cell(old(self).free_cells@, old(self).next_cell)),
            stmts@.len() == 1 && is_simple_stmt(stmts@[0]) ==> (r is Ok <==> simple_stmt_ok(
                names_view(old(self).scopes@),
                old(self).function_names@,
                old(self).signatures@,
                old(self).free_cells@.len() > 0,
                old(self).next_cell as int,
                old(self).current_return,
                loop_depth > 0,
                stmts@[0],
            )),
            stmts@.len() > 0 ==> (stmts@[0] matches Stmt::Return(value, sp) ==> (return_error(
                old(self).current_return,
                value,
            ) matches Some(m) ==> (r matches Err(d) && d.message@ == m && d.span == Some(sp)))),
            stmts@.len() > 0 && stmts@[0] is Break && loop_depth == 0 ==> (r matches Err(d) && d.message@
                == "`break` outside loop"@ && d.span == Some(stmts@[0]->Break_0)),
            stmts@.len() > 0 && stmts@[0] is Continue && loop_depth == 0 ==> (r matches Err(d)
                && d.message@ == "`continue` outside loop"@ && d.span == Some(stmts@[0]->Continue_0)),
        decreases stmts, 2nat,
    {
        let mut out: Vec<ResolvedStmt> = Vec::new();
        let mut i: usize = 0;
        let ghost nv0 = names_view(self.scopes@);
        assert(stmts@.take(0) =~= Seq::<Stmt>::empty());
        while i < stmts.len()
            invariant
                self.frame(old(self)),
                i <= stmts@.len(),
                self.records(stmts_callees(out@)),
                nv0 == names_view(old(self).scopes@),
                stmts_resolved(
                    nv0,
                    old(self).function_names@,
                    old(self).signatures@,
                    old(self).current_return,
                    loop_depth > 0,
                    stmts@.take(i as int),
                    out@,
                ),
                names_view(self.scopes@) == stmts_after(nv0, stmts@.take(i as int), out@),
                stmts@.len() == 0 ==> self.calls@ == old(self).calls@ && self.expr_calls == old(
                    self,
                ).expr_calls,
                i == 0 ==> *self == *old(self),
                i > 0 ==> !(stmts@[0] is Break && loop_depth == 0) && !(stmts@[0] is Continue
                    && loop_depth == 0),
                i > 0 ==> (stmts@[0] matches Stmt::Return(value, _) ==> return_error(
                    old(self).current_return,
                    value,
                ) is None),
                i > 0 && is_simple_stmt(stmts@[0]) ==> simple_stmt_ok(
                    names_view(old(self).scopes@),
                    old(self).function_names@,
                    old(self).signatures@,
                    old(self).free_cells@.len() > 0,
                    old(self).next_cell as int,
                    old(self).current_return,
                    loop_depth > 0,
                    stmts@[0],
                ),
                i > 0 && stmts@[0] is Let ==> out@[0]->Let_cell == next_free_cell(
                    old(self).free_cells@,
                    old(self).next_cell,
                ),
            decreases stmts@.len() - i,
        {
            proof {
                vstd::std_specs::vec::axiom_vec_index_decreases(*stmts, i as int);
            }
            let ghost before = self.calls@;
            let ghost prev = out@;
            let x = self.resolve_stmt(&stmts[i], loop_depth)?;
            proof {
                lemma_recorded_grows(before, self.calls@, self.caller, self.signatures@.len() as nat, stmts_callees(out@));
                assert(out@.push(x).drop_last() =~= out@);
            }
            out.push(x);
            proof {
                let t1 = stmts@.take(i + 1);
                assert(t1.drop_last() =~= stmts@.take(i as int));
                assert(t1.last() == stmts@[i as int]);
                assert(out@.drop_last() =~= prev);
                assert(out@.last() == x);
            }
            i = i + 1;
        }
        assert(stmts@.take(stmts@.len() as int) =~= stmts@);
        Ok(out)
    }

    fn resolve_scoped_stmts(&mut self, stmts: &Vec<Stmt>, loop_depth: usize) -> (r: Result<Vec<ResolvedStmt>, Diagnostic>)
        requires
            old(self).inv(),
        ensures
            final(self).frame(old(self)),
            r matches Ok(v) ==> final(self).records(stmts_callees(v@)),
            r matches Ok(v) ==> stmts_resolved(
                names_view(old(self).scopes@).push(Seq::empty()),
                old(self).function_names@, old(self).signatures@,
                old(self).current_return,
                loop_depth > 0,
                stmts@,
                v@,
            ),
            names_view(final(self).scopes@) == names_view(old(self).scopes@),
            stmts@.len() == 0 ==> (r matches Ok(v) && v@.len() == 0),
        decreases stmts, 3nat,
    {
        let ghost nv0 = names_view(self.scopes@);
        self.push_scope();
        assert(names_view(self.scopes@).drop_last() =~= nv0);
        let r = self.resolve_stmts(stmts, loop_depth);
        self.pop_scope();
        r
    }

    fn duplicate_error(&self, kind: &str, name: &String, span: Span) -> (d: Diagnostic)
        ensures
            d.message@ == kind@ + " `"@ + name@ + "` already declared in this scope"@,
            d.span == Some(span),
    {
        let mut m = kind.to_string();
        m.append(" `");
        m.append(name.as_str());
        m.append("` already declared in this scope");
        Diagnostic::new(m, span)
    }

    /// The bytes an array initializer stores (none without initializer).
    fn resolve_array_init(&mut self, init: &Option<ArrayInit>, len: usize) -> (r: Result<Vec<u8>, Diagnostic>)
        requires
            old(self).inv(),
        ensures
            final(self).frame(old(self)),
            final(self).scopes@ == old(self).scopes@,
            r matches Ok(v) ==> v@.len() == 0 || v@.len() == len,
            r matches Ok(v) ==> init_bytes_ok(names_view(old(self).scopes@), *init, len as nat, v@),
            final(self).free_cells@ == old(self).free_cells@,
            final(self).next_cell == old(self).next_cell,
            r is Ok <==> init_ok(
                names_view(old(self).scopes@),
                old(self).function_names@,
                old(self).signatures@,
                *init,
                len as nat,
            ),
    {
        match init {
            None => Ok(Vec::new()),
            Some(ArrayInit::Bytes(bytes, span)) => {
                if bytes.len() != len {
                    let mut m = "array initializer has ".to_string();
                    push_decimal(&mut m, bytes.len() as u64);
                    m.append(" elements, but length is ");
                    push_decimal(&mut m, len as u64);
                    return Err(Diagnostic::new(m, *span));
                }
                Ok(copy_bytes(bytes))
            },
            Some(ArrayInit::Items(items)) => {
                if items.len() != len {
                    let span = if items.len() == 0 {
                        Span::point(0)
                    } else {
                        items[items.len() - 1].span()
                    };
                    let mut m = "array initializer has ".to_string();
                    push_decimal(&mut m, items.len() as u64);
                    m.append(" elements, but length is ");
                    push_decimal(&mut m, len as u64);
                    return Err(Diagnostic::new(m, span));
                }
                let mut out: Vec<u8> = Vec::new();
                let mut i: usize = 0;
                while i < items.len()
                    invariant
                        self.frame(old(self)),
                        self.scopes@ == old(self).scopes@,
                        self.free_cells@ == old(self).free_cells@,
                        self.next_cell == old(self).next_cell,
                        *init == Some(ArrayInit::Items(*items)),
                        forall|k: int|
                            0 <= k < i ==> expr_ok(
                                names_view(old(self).scopes@),
                                old(self).function_names@,
                                old(self).signatures@,
                                #[trigger] items@[k],
                            ),
                        i <= items@.len(),
                        items@.len() == len,
                        out@.len() == i,
                        forall|k: int|
                            0 <= k < i ==> const_src(names_view(old(self).scopes@), #[trigger] items@[k])
                                == Some(out@[k]),
                    decreases items@.len() - i,
                {
                    let resolved = match self.resolve_expr(&items[i]) {
                        Ok(x) => x,
                        Err(e) => {
                            proof {
                                assert(!expr_ok(
                                    names_view(old(self).scopes@),
                                    old(self).function_names@,
                                    old(self).signatures@,
                                    items@[i as int],
                                ));
                                assert(!init_ok(
                                    names_view(old(self).scopes@),
                                    old(self).function_names@,
                                    old(self).signatures@,
                                    *init,
                                    len as nat,
                                ));
                            }
                            return Err(e);
                        },
                    };
                    proof {
                        lemma_resolved_const(
                            names_view(old(self).scopes@),
                            old(self).function_names@,
                            old(self).signatures@,
                            items@[i as int],
                            resolved,
                        );
                    }
                    match const_eval(&resolved) {
                        Some(v) => out.push(v),
                        None => {
                            proof {
                                assert(const_src(names_view(old(self).scopes@), items@[i as int]) is None);
                                assert(!init_ok(
                                    names_view(old(self).scopes@),
                                    old(self).function_names@,
                                    old(self).signatures@,
                                    *init,
                                    len as nat,
                                ));
                            }
                            return Err(err_at(
                                "array initializer elements must be constant bytes",
                                items[i].span(),
                            ));
                        },
                    }
                    i = i + 1;
                }
                Ok(out)
            },
        }
    }

    fn resolve_let(&mut self, name: &String, name_span: Span, init: &Option<Expr>) -> (r: Result<ResolvedStmt, Diagnostic>)
        requires
            old(self).inv(),
        ensures
            final(self).frame(old(self)),
            r matches Ok(st) ==> final(self).records(stmt_callees(st)),
            r matches Ok(st) ==> (st matches ResolvedStmt::Let { cell, init: ri } && scope_find(
                names_view(old(self).scopes@).last(),
                name@,
            ) is None && TEMP_COUNT <= cell && opt_resolved(names_view(old(self).scopes@), old(self).function_names@, old(self).signatures@, *init, ri)
                && names_view(final(self).scopes@) == declare_view(names_view(old(self).scopes@), *name, Symbol::Scalar(cell))),
            r is Ok <==> scope_find(names_view(old(self).scopes@).last(), name@) is None && match *init {
                None => true,
                Some(x) => expr_ok(names_view(old(self).scopes@), old(self).function_names@, old(self).signatures@, x),
            } && (old(self).free_cells@.len() > 0 || old(self).next_cell < MAX_LAYOUT_CELLS),
            r matches Ok(st) ==> st->Let_cell == next_free_cell(old(self).free_cells@, old(self).next_cell),
    {
        if self.current_scope_has(name) {
            return Err(self.duplicate_error("variable", name, name_span));
        }
        let init = self.resolve_opt_expr(init)?;
        let cell = self.alloc_cell()?;
        let ghost fresh = self.owns(cell);
        self.declare(name, Symbol::Scalar(cell));
        assert(self.owns(cell) == fresh);
        self.own_cells(cell, 1);
        let info = SymbolInfo::Scalar { name: name.clone(), cell };
        proof {
            lemma_fresh_info(self.public_entries@, info, cell, 1, self.in_main && self.scopes@.len() == 1, self.scopes@.last().owned_cells@);
        }
        self.define_public(name, info);
        Ok(ResolvedStmt::Let { cell, init })
    }

    fn resolve_let_array(&mut self, name: &String, name_span: Span, len: &ArrayLen, init: &Option<ArrayInit>) -> (r: Result<ResolvedStmt, Diagnostic>)
        requires
            old(self).inv(),
        ensures
            final(self).frame(old(self)),
            r matches Ok(st) ==> final(self).records(stmt_callees(st)),
            r matches Ok(st) ==> (st matches ResolvedStmt::LetArray { base, len: l, init: bytes }
                && scope_find(names_view(old(self).scopes@).last(), name@) is None && TEMP_COUNT <= base && array_len_of(
                names_view(old(self).scopes@),
                *len,
            ) == Some(l as nat) && l <= MAX_LAYOUT_CELLS && init_bytes_ok(names_view(old(self).scopes@), *init, l as nat, bytes@)
                && names_view(final(self).scopes@) == declare_view(
                names_view(old(self).scopes@),
                *name,
                Symbol::Array { base, len: l },
            )),
            r is Ok <==> (scope_find(names_view(old(self).scopes@).last(), name@) is None && (array_len_of(names_view(old(self).scopes@), *len) matches Some(l)
                && l <= MAX_LAYOUT_CELLS && init_ok(names_view(old(self).scopes@), old(self).function_names@, old(self).signatures@, *init, l)
                && 4 + l <= MAX_LAYOUT_CELLS - old(self).next_cell)),
    {
        if self.current_scope_has(name) {
            return Err(self.duplicate_error("variable", name, name_span));
        }
        let len: usize = match len {
            ArrayLen::Explicit(e) => {
                let v = self.eval_const_expr(e)?;
                if v == 0 {
                    return Err(err_at("array length must be greater than zero", e.span()));
                }
                v as usize
            },
            ArrayLen::Inferred(n) => *n,
        };
        if len > MAX_LAYOUT_CELLS {
            return Err(layout_error());
        }
        let init = self.resolve_array_init(init, len)?;
        let base = self.alloc_block(4 + len)?;
        let ghost snap = *self;
        self.declare(name, Symbol::Array { base, len });
        assert forall|c: usize| base <= c < base + (4 + len) implies !self.owns(c)
            && !self.free_cells@.contains(c) by {
            assert(!snap.owns(c));
        }
        self.own_cells(base, 4 + len);
        let info = SymbolInfo::Array { name: name.clone(), base, len };
        proof {
            lemma_fresh_info(self.public_entries@, info, base, (4 + len) as usize, self.in_main && self.scopes@.len() == 1, self.scopes@.last().owned_cells@);
        }
        self.define_public(name, info);
        Ok(ResolvedStmt::LetArray { base, len, init })
    }

    fn resolve_const(&mut self, name: &String, name_span: Span, expr: &Expr, span: Span) -> (r: Result<ResolvedStmt, Diagnostic>)
        requires
            old(self).inv(),
        ensures
            final(self).frame(old(self)),
            r matches Ok(st) ==> final(self).records(stmt_callees(st)),
            r matches Ok(st) ==> (st matches ResolvedStmt::Block(v) && v@.len() == 0 && scope_find(
                names_view(old(self).scopes@).last(),
                name@,
            ) is None && (const_src(names_view(old(self).scopes@), *expr) matches Some(c) && names_view(final(self).scopes@)
                == declare_view(names_view(old(self).scopes@), *name, Symbol::Const(c)))),
            r is Ok <==> const_src(names_view(old(self).scopes@), *expr) is Some && scope_find(names_view(old(self).scopes@).last(), name@) is None,
    {
        let value = self.eval_const_expr(expr)?;
        if self.current_scope_has(name) {
            return Err(self.duplicate_error("constant", name, name_span));
        }
        self.declare(name, Symbol::Const(value));
        if self.in_main && self.scopes.len() == 1 {
            self.global_consts.push((name.clone(), value, span.start));
        }
        let empty: Vec<ResolvedStmt> = Vec::new();
        assert(stmts_callees(empty@) =~= Set::<usize>::empty());
        Ok(ResolvedStmt::Block(empty))
    }

    fn resolve_return(&mut self, expr: &Option<Expr>, span: Span) -> (r: Result<ResolvedStmt, Diagnostic>)
        requires
            old(self).inv(),
        ensures
            final(self).frame(old(self)),
            r matches Ok(st) ==> final(self).records(stmt_callees(st)),
            r matches Ok(st) ==> stmt_resolved(names_view(old(self).scopes@), old(self).function_names@, old(self).signatures@, old(self).current_return, false, Stmt::Return(*expr, span), st),
            final(self).scopes@ == old(self).scopes@,
            r is Ok <==> match old(self).current_return {
                None => false,
                Some(true) => *expr matches Some(x) && expr_ok(names_view(old(self).scopes@), old(self).function_names@, old(self).signatures@, x),
                Some(false) => *expr is None,
            },
            return_error(old(self).current_return, *expr) matches Some(m) ==> (r matches Err(d)
                && d.message@ == m && d.span == Some(span)),
    {
        match self.current_return {
            None => Err(err_at("`return` outside function", span)),
            Some(true) => match expr {
                None => Err(err_at("byte function must return a value", span)),
                Some(e) => Ok(ResolvedStmt::Return(self.resolve_expr(e)?)),
            },
            Some(false) => match expr {
                Some(_) => Err(err_at("void function cannot return a value", span)),
                None => Ok(ResolvedStmt::Return(ResolvedExpr::Byte(0))),
            },
        }
    }

    #[verifier::rlimit(100)]
    #[verifier::spinoff_prover]
    fn resolve_print_format(&mut self, segments: &Vec<FormatSegment>, args: &Vec<Expr>, span: Span) -> (r: Result<ResolvedStmt, Diagnostic>)
        requires
            old(self).inv(),
        ensures
            final(self).frame(old(self)),
            r matches Ok(st) ==> final(self).records(stmt_callees(st)),
            r matches Ok(st) ==> stmt_resolved(
                names_view(old(self).scopes@),
                old(self).function_names@, old(self).signatures@,
                old(self).current_return,
                false,
                Stmt::PrintFormat { segments: *segments, args: *args, span },
                st,
            ),
            r is Ok ==> final(self).scopes@ == old(self).scopes@,
    {
        let mut out: Vec<ResolvedStmt> = Vec::new();
        let mut next_arg: usize = 0;
        let mut i: usize = 0;
        let ghost nv = names_view(self.scopes@);
        assert(stmts_callees(out@) =~= Set::<usize>::empty());
        assert(segments@.take(0) =~= Seq::<FormatSegment>::empty());
        while i < segments.len()
            invariant
                self.frame(old(self)),
                self.scopes@ == old(self).scopes@,
                nv == names_view(old(self).scopes@),
                i <= segments@.len(),
                self.records(stmts_callees(out@)),
                out@.len() == i,
                next_arg == placeholder_count(segments@.take(i as int)),
                next_arg <= args@.len(),
                forall|j: int|
                    0 <= j < i ==> segment_resolved(
                        nv,
                        old(self).function_names@,
                        old(self).signatures@,
                        #[trigger] segments@[j],
                        args@[placeholder_count(segments@.take(j)) as int],
                        out@[j],
                    ),
            decreases segments@.len() - i,
        {
            let ghost before = self.calls@;
            let ghost prev = out@;
            proof {
                let t1 = segments@.take(i + 1);
                assert(t1.drop_last() =~= segments@.take(i as int));
                assert(t1.last() == segments@[i as int]);
            }
            match &segments[i] {
                FormatSegment::Literal(bytes) => {
                    out.push(ResolvedStmt::Puts(copy_bytes(bytes)));
                    proof {
                        assert(out@.drop_last() =~= prev);
                        assert(stmts_callees(out@) == stmts_callees(out@.drop_last()).union(stmt_callees(out@.last())));
                        assert(stmt_callees(out@.last()) =~= Set::<usize>::empty());
                        assert(stmts_callees(out@) =~= stmts_callees(prev));
                    }
                },
                FormatSegment::Decimal => {
                    if next_arg >= args.len() {
                        return Err(err_at("format string has more placeholders than arguments", span));
                    }
                    let e = self.resolve_expr(&args[next_arg])?;
                    proof {
                        lemma_recorded_grows(before, self.calls@, self.caller, self.signatures@.len() as nat, stmts_callees(prev));
                    }
                    out.push(ResolvedStmt::Print(e));
                    proof {
                        assert(out@.drop_last() =~= prev);
                        assert(stmts_callees(out@) == stmts_callees(out@.drop_last()).union(stmt_callees(out@.last())));
                        assert(stmt_callees(out@.last()) == expr_callees(e));
                        assert(stmts_callees(out@) =~= stmts_callees(prev).union(expr_callees(e)));
                    }
                    next_arg = next_arg + 1;
                },
                FormatSegment::Byte => {
                    if next_arg >= args.len() {
                        return Err(err_at("format string has more placeholders than arguments", span));
                    }
                    let e = self.resolve_expr(&args[next_arg])?;
                    proof {
                        lemma_recorded_grows(before, self.calls@, self.caller, self.signatures@.len() as nat, stmts_callees(prev));
                    }
                    out.push(ResolvedStmt::Put(e));
                    proof {
                        assert(out@.drop_last() =~= prev);
                        assert(stmts_callees(out@) == stmts_callees(out@.drop_last()).union(stmt_callees(out@.last())));
                        assert(stmt_callees(out@.last()) == expr_callees(e));
                        assert(stmts_callees(out@) =~= stmts_callees(prev).union(expr_callees(e)));
                    }
                    next_arg = next_arg + 1;
                },
            }
            i = i + 1;
        }
        if next_arg != args.len() {
            return Err(err_at("format string has fewer placeholders than arguments", span));
        }
        assert(segments@.take(segments@.len() as int) =~= segments@);
        Ok(ResolvedStmt::Block(out))
    }

    fn resolve_stmt(&mut self, stmt: &Stmt, loop_depth: usize) -> (r: Result<ResolvedStmt, Diagnostic>)
        requires
            old(self).inv(),
        ensures
            final(self).frame(old(self)),
            r matches Ok(st) ==> final(self).records(stmt_callees(st)),
            r matches Ok(st) ==> stmt_resolved(
                names_view(old(self).scopes@),
                old(self).function_names@, old(self).signatures@,
                old(self).current_return,
                loop_depth > 0,
                *stmt,
                st,
            ) && names_view(final(self).scopes@) == decl_after(names_view(old(self).scopes@), *stmt, st),
            *stmt is Break || *stmt is Continue ==> (r is Ok <==> loop_depth > 0),
            is_simple_stmt(*stmt) ==> (r is Ok <==> simple_stmt_ok(
                names_view(old(self).scopes@),
                old(self).function_names@,
                old(self).signatures@,
                old(self).free_cells@.len() > 0,
                old(self).next_cell as int,
                old(self).current_return,
                loop_depth > 0,
                *stmt,
            )),
            *stmt matches Stmt::Assign { name, name_span, .. } ==> (!scalar_ok(names_view(old(self).scopes@), name@)
                ==> (r matches Err(d) && d.span == Some(name_span) && d.message@ == scalar_lookup_error(
                stack_find(names_view(old(self).scopes@), name@),
                "assignment to undeclared variable "@,
                name@,
            ))),
            *stmt matches Stmt::Read(name, span) ==> (!scalar_ok(names_view(old(self).scopes@), name@)
                ==> (r matches Err(d) && d.span == Some(span) && d.message@ == scalar_lookup_error(
                stack_find(names_view(old(self).scopes@), name@),
                "read into undeclared variable "@,
                name@,
            ))),
            *stmt is Let ==> (r matches Ok(st) ==> st->Let_cell == next_free_cell(
                old(self).free_cells@,
                old(self).next_cell,
            )),
            *stmt matches Stmt::Return(value, sp) ==> (return_error(old(self).current_return, value) matches Some(m)
                ==> (r matches Err(d) && d.message@ == m && d.span == Some(sp))),
            (*stmt is Break && loop_depth == 0) ==> (r matches Err(d) && d.message@
                == "`break` outside loop"@ && d.span == Some(stmt->Break_0)),
            (*stmt is Continue && loop_depth == 0) ==> (r matches Err(d)
                && d.message@ == "`continue` outside loop"@ && d.span == Some(stmt->Continue_0)),
        decreases stmt, 5nat,
    {
        let deeper = if loop_depth < usize::MAX { loop_depth + 1 } else { loop_depth };
        match stmt {
            Stmt::Const { name, name_span, expr, span } => self.resolve_const(name, *name_span, expr, *span),
            Stmt::Let { name, name_span, init, .. } => self.resolve_let(name, *name_span, init),
            Stmt::LetArray { name, name_span, len, init, .. } => self.resolve_let_array(name, *name_span, len, init),
            Stmt::Assign { name, name_span, expr, .. } => {
                let cell = self.lookup_scalar(name, *name_span, "assignment to undeclared variable ")?;
                let expr = self.resolve_expr(expr)?;
                Ok(ResolvedStmt::Assign { cell, expr })
            },
            Stmt::ArrayAssign { name, name_span, index, expr, .. } => {
                let (base, len) = self.lookup_array(name, *name_span)?;
                let index_span = index.span();
                let index = self.resolve_expr(index)?;
                check_const_index(&index, len, index_span)?;
                let ghost mid = self.calls@;
                let expr = self.resolve_expr(expr)?;
                proof {
                    lemma_recorded_grows(mid, self.calls@, self.caller, self.signatures@.len() as nat, expr_callees(index));
                }
                Ok(ResolvedStmt::ArraySet { base, len, index, expr })
            },
            Stmt::Put(expr, _) => Ok(ResolvedStmt::Put(self.resolve_expr(expr)?)),
            Stmt::Puts(bytes, _) => Ok(ResolvedStmt::Puts(copy_bytes(bytes))),
            Stmt::Print(expr, _) => Ok(ResolvedStmt::Print(self.resolve_expr(expr)?)),
            Stmt::PrintFormat { segments, args, span } => self.resolve_print_format(segments, args, *span),
            Stmt::Println(expr, _) => Ok(ResolvedStmt::Println(self.resolve_expr(expr)?)),
            Stmt::Read(name, span) => Ok(ResolvedStmt::Read(
                self.lookup_scalar(name, *span, "read into undeclared variable ")?,
            )),
            Stmt::ReadArray { name, name_span, index, .. } => {
                let (base, len) = self.lookup_array(name, *name_span)?;
                let index_span = index.span();
                let index = self.resolve_expr(index)?;
                check_const_index(&index, len, index_span)?;
                Ok(ResolvedStmt::ReadArray { base, len, index })
            },
            Stmt::Call { name, name_span, args, .. } => {
                let (function, args) = self.resolve_call(name, *name_span, args)?;
                Ok(ResolvedStmt::Call { function, args })
            },
            Stmt::Return(expr, span) => self.resolve_return(expr, *span),
            Stmt::Break(span) => {
                if loop_depth == 0 {
                    return Err(err_at("`break` outside loop", *span));
                }
                Ok(ResolvedStmt::Break)
            },
            Stmt::Continue(span) => {
                if loop_depth == 0 {
                    return Err(err_at("`continue` outside loop", *span));
                }
                Ok(ResolvedStmt::Continue)
            },
            Stmt::Block(stmts, _) => Ok(ResolvedStmt::Block(self.resolve_scoped_stmts(stmts, loop_depth)?)),
            Stmt::If { cond, then_branch, else_branch, .. } => {
                let cond = self.resolve_expr(cond)?;
                let ghost c1 = self.calls@;
                let then_branch = self.resolve_scoped_stmts(then_branch, loop_depth)?;
                let ghost c2 = self.calls@;
                let else_branch = self.resolve_scoped_stmts(else_branch, loop_depth)?;
                proof {
                    let n = self.signatures@.len() as nat;
                    lemma_recorded_grows(c1, self.calls@, self.caller, n, expr_callees(cond));
                    lemma_recorded_grows(c2, self.calls@, self.caller, n, stmts_callees(then_branch@));
                }
                Ok(ResolvedStmt::If { cond, then_branch, else_branch })
            },
            Stmt::While { cond, body, .. } => {
                let cond = self.resolve_expr(cond)?;
                let ghost c1 = self.calls@;
                let body = self.resolve_scoped_stmts(body, deeper)?;
                proof {
                    lemma_recorded_grows(c1, self.calls@, self.caller, self.signatures@.len() as nat, expr_callees(cond));
                }
                Ok(ResolvedStmt::While { cond, body })
            },
            Stmt::Loop { body, .. } => {
                let body = self.resolve_scoped_stmts(body, deeper)?;
                Ok(ResolvedStmt::Loop { body })
            },
            Stmt::For { .. } => {
                let ghost nv0 = names_view(self.scopes@);
                self.push_scope();
                assert(names_view(self.scopes@).drop_last() =~= nv0);
                let r = self.resolve_for_parts(stmt, loop_depth);
                self.pop_scope();
                r
            },
        }
    }

    fn resolve_for_parts(&mut self, stmt: &Stmt, loop_depth: usize) -> (r: Result<ResolvedStmt, Diagnostic>)
        requires
            old(self).inv(),
        ensures
            final(self).frame(old(self)),
            r matches Ok(st) ==> final(self).records(stmt_callees(st)),
            r matches Ok(st) ==> for_resolved(
                names_view(old(self).scopes@),
                old(self).function_names@, old(self).signatures@,
                old(self).current_return,
                loop_depth > 0,
                *stmt,
                st,
            ),
            !(*stmt is For) ==> r is Err,
            (*stmt matches Stmt::For { init, cond, step, body, .. } && init is None && cond is None
                && step is None && body@.len() == 0) ==> r is Ok,
        decreases stmt, 4nat,
    {
        let (init, cond, step, body) = match stmt {
            Stmt::For { init, cond, step, body, .. } => (init, cond, step, body),
            _ => {
                return Err(Diagnostic::bare("expected a for statement".to_string()));
            },
        };
        let deeper = if loop_depth < usize::MAX { loop_depth + 1 } else { loop_depth };
        let init = match init {
            Some(s) => Some(Box::new(self.resolve_for_header(s, loop_depth)?)),
            None => None,
        };
        let ghost init_callees = opt_stmt_callees(init);
        let ghost c1 = self.calls@;
        let cond = self.resolve_opt_expr(cond)?;
        let ghost c2 = self.calls@;
        let step = match step {
            Some(s) => Some(Box::new(self.resolve_for_header(s, loop_depth)?)),
            None => None,
        };
        let ghost step_callees = opt_stmt_callees(step);
        let ghost c3 = self.calls@;
        let body = self.resolve_scoped_stmts(body, deeper)?;
        proof {
            let n = self.signatures@.len() as nat;
            lemma_recorded_grows(c1, self.calls@, self.caller, n, init_callees);
            lemma_recorded_grows(c2, self.calls@, self.caller, n, opt_expr_callees(cond));
            lemma_recorded_grows(c3, self.calls@, self.caller, n, step_callees);
        }
        Ok(ResolvedStmt::For { init, cond, step, body })
    }

    fn resolve_for_header(&mut self, stmt: &Stmt, loop_depth: usize) -> (r: Result<ResolvedStmt, Diagnostic>)
        requires
            old(self).inv(),
        ensures
            final(self).frame(old(self)),
            r matches Ok(st) ==> final(self).records(stmt_callees(st)),
            r matches Ok(st) ==> (*stmt is Let || *stmt is Assign || *stmt is ArrayAssign) && stmt_resolved(
                names_view(old(self).scopes@),
                old(self).function_names@, old(self).signatures@,
                old(self).current_return,
                loop_depth > 0,
                *stmt,
                st,
            ) && names_view(final(self).scopes@) == decl_after(names_view(old(self).scopes@), *stmt, st),
            r is Ok <==> match *stmt {
                Stmt::Let { name, init, .. } => scope_find(names_view(old(self).scopes@).last(), name@) is None && match init {
                    None => true,
                    Some(x) => expr_ok(names_view(old(self).scopes@), old(self).function_names@, old(self).signatures@, x),
                } && (old(self).free_cells@.len() > 0 || old(self).next_cell < MAX_LAYOUT_CELLS),
                Stmt::Assign { name, expr, .. } => (stack_find(names_view(old(self).scopes@), name@) matches Some(Symbol::Scalar(c))
                    && TEMP_COUNT <= c) && expr_ok(names_view(old(self).scopes@), old(self).function_names@, old(self).signatures@, expr),
                Stmt::ArrayAssign { name, index, expr, .. } => (stack_find(names_view(old(self).scopes@), name@) matches Some(
                    Symbol::Array { len, .. },
                ) && expr_ok(names_view(old(self).scopes@), old(self).function_names@, old(self).signatures@, index) && !(const_src(names_view(old(self).scopes@), index) matches Some(v) && v as nat
                    >= len)) && expr_ok(names_view(old(self).scopes@), old(self).function_names@, old(self).signatures@, expr),
                _ => false,
            },
    {
        match stmt {
            Stmt::Let { name, name_span, init, .. } => self.resolve_let(name, *name_span, init),
            Stmt::Assign { name, name_span, expr, .. } => {
                let cell = self.lookup_scalar(name, *name_span, "assignment to undeclared variable ")?;
                let expr = self.resolve_expr(expr)?;
                Ok(ResolvedStmt::Assign { cell, expr })
            },
            Stmt::ArrayAssign { name, name_span, index, expr, .. } => {
                let ghost src_index = *index;
                let (base, len) = self.lookup_array(name, *name_span)?;
                let index_span = index.span();
                let index = self.resolve_expr(index)?;
                proof {
                    lemma_resolved_const(
                        names_view(old(self).scopes@),
                        old(self).function_names@,
                        old(self).signatures@,
                        src_index,
                        index,
                    );
                }
                check_const_index(&index, len, index_span)?;
                let ghost mid = self.calls@;
                let expr = self.resolve_expr(expr)?;
                proof {
                    lemma_recorded_grows(mid, self.calls@, self.caller, self.signatures@.len() as nat, expr_callees(index));
                }
                Ok(ResolvedStmt::ArraySet { base, len, index, expr })
            },
            _ => Err(Diagnostic::bare("for header only supports let and assignment".to_string())),
        }
    }

    /// Prepares the resolver for the body of function `index`: a fresh frame after every cell
    /// used so far, and only the top-level constants declared before the function visible.
    fn begin_function(&mut self, index: usize, returns_byte: bool, start: usize)
        requires
            old(self).inv(),
            index < old(self).signatures@.len(),
        ensures
            final(self).inv(),
            final(self).scopes@.len() == 1,
            final(self).high_water == old(self).high_water,
            final(self).signatures@ == old(self).signatures@,
            final(self).caller == index,
            final(self).calls@ == old(self).calls@,
    {
        let mut base = Scope { names: Vec::new(), owned_cells: Vec::new() };
        let mut i: usize = 0;
        while i < self.global_consts.len()
            decreases self.global_consts@.len() - i,
        {
            if self.global_consts[i].2 < start {
                base.names.push((self.global_consts[i].0.clone(), Symbol::Const(self.global_consts[i].1)));
            }
            i = i + 1;
        }
        let mut scopes: Vec<Scope> = Vec::new();
        scopes.push(Scope { names: base.names, owned_cells: Vec::new() });
        self.scopes = scopes;
        self.free_cells = Vec::new();
        self.next_cell = self.high_water;
        self.caller = index;
        self.current_return = Some(returns_byte);
        self.in_main = false;
    }

    fn resolve_function(&mut self, index: usize, function: &Function) -> (r: Result<ResolvedFunction, Diagnostic>)
        requires
            old(self).inv(),
            index < old(self).signatures@.len(),
        ensures
            final(self).inv(),
            final(self).high_water >= old(self).high_water,
            final(self).signatures@ == old(self).signatures@,
            extends(old(self).calls@, final(self).calls@),
            r matches Ok(f) ==> all_recorded(
                final(self).calls@,
                index,
                final(self).signatures@.len() as nat,
                stmts_callees(f.body@),
            ),
            r matches Ok(f) ==> f.params@.len() == function.params@.len() && (f.returns_byte
                <==> function.return_type is Byte) && (f.returns_byte ==> stmts_always_return_rec(
                f.body@,
                0,
            )),
            r matches Ok(f) ==> f.params@.no_duplicates(),
            r matches Ok(f) ==> !stmts_free_jump(f.body@, 0),
            function.params@.len() == 0 && function.body@.len() == 0 ==> (r is Ok
                <==> function.return_type is Void),
    {
        let returns_byte = match function.return_type {
            ReturnType::Byte => true,
            ReturnType::Void => false,
        };
        self.begin_function(index, returns_byte, function.span.start);
        self.push_scope();
        let mut params: Vec<usize> = Vec::new();
        let mut i: usize = 0;
        while i < function.params.len()
            invariant
                self.inv(),
                self.scopes@.len() == 2,
                self.high_water >= old(self).high_water,
                self.signatures@ == old(self).signatures@,
                self.calls@ == old(self).calls@,
                self.caller == index,
                i <= function.params@.len(),
                params@.len() == i,
                params@.no_duplicates(),
                forall|k: int| 0 <= k < i ==> self.scopes@[1].owned_cells@.contains(#[trigger] params@[k]),
            decreases function.params@.len() - i,
        {
            let param = &function.params[i];
            if self.current_scope_has(&param.name) {
                let m = named_msg("parameter ", &param.name, " already declared");
                return Err(Diagnostic::new(m, param.name_span));
            }
            let cell = self.alloc_cell()?;
            proof {
                assert forall|k: int| 0 <= k < i implies params@[k] != cell by {
                    assert(self.scopes@[1].owned_cells@.contains(params@[k]));
                    if params@[k] == cell {
                        assert(self.owns(cell));
                    }
                }
            }
            let ghost snap = *self;
            self.declare(&param.name, Symbol::Scalar(cell));
            assert(!self.owns(cell)) by {
                assert(!snap.owns(cell));
            }
            let ghost mid = self.scopes@;
            self.own_cells(cell, 1);
            let ghost pv = params@;
            params.push(cell);
            proof {
                assert forall|k: int| 0 <= k < i + 1 implies self.scopes@[1].owned_cells@.contains(#[trigger] params@[k]) by {
                    assert(self.scopes@.last() == self.scopes@[1]);
                    if k < i {
                        assert(params@[k] == pv[k]);
                        assert(snap.scopes@[1].owned_cells@.contains(pv[k]));
                        assert(mid[1].owned_cells@.contains(pv[k]));
                        assert(mid.last().owned_cells@.contains(pv[k]));
                    }
                    assert(self.scopes@.last().owned_cells@.contains(params@[k]));
                }
                assert forall|a: int, b: int| 0 <= a < params@.len() && 0 <= b < params@.len() && a != b
                    implies params@[a] != params@[b] by {
                    if a < i && b < i {
                        assert(pv[a] != pv[b]);
                    }
                }
            }
            i = i + 1;
        }
        let ghost before = *self;
        let body = self.resolve_scoped_stmts(&function.body, 0)?;
        proof {
            lemma_stmts_resolved_no_free_jump(
                names_view(before.scopes@).push(Seq::empty()),
                before.function_names@,
                before.signatures@,
                before.current_return,
                function.body@,
                body@,
            );
        }
        if returns_byte && !always_returns(&body) {
            let m = named_msg("byte function ", &function.name, " may fall through without returning a value");
            return Err(Diagnostic::new(m, function.name_span));
        }
        Ok(ResolvedFunction { params, body, returns_byte })
    }
}

/// A ranking of functions `0..n` under which every call between functions goes to a lower
/// rank, ranks are at least 1, and every function the top level (caller `n`) calls has rank at
/// most `MAX_CALL_DEPTH`.
pub open spec fn valid_ranking(calls: Seq<(usize, usize)>, n: int, rank: Seq<int>) -> bool {
    &&& rank.len() == n
    &&& forall|g: int| 0 <= g < n ==> #[trigger] rank[g] >= 1
    &&& forall|e: int|
        0 <= e < calls.len() && calls[e].0 < n && calls[e].1 < n ==> rank[(#[trigger] calls[e]).0 as int]
            >= rank[calls[e].1 as int] + 1
    &&& forall|e: int|
        0 <= e < calls.len() && calls[e].0 == n && calls[e].1 < n ==> rank[(#[trigger] calls[e]).1 as int]
            <= MAX_CALL_DEPTH
}

/// The graph `calls` has the call `a -> b`.
pub open spec fn has_call(calls: Seq<(usize, usize)>, a: int, b: int) -> bool {
    exists|e: int| 0 <= e < calls.len() && #[trigger] calls[e] == (a as usize, b as usize)
}

/// The ranks a settled relaxation leaves: every call between functions goes down a rank.
spec fn edges_settled(calls: Seq<(usize, usize)>, n: int, depth: Seq<usize>, upto: int) -> bool {
    forall|e: int|
        0 <= e < upto && calls[e].0 < n && calls[e].1 < n ==> depth[(#[trigger] calls[e]).0 as int]
            >= (if depth[calls[e].1 as int] + 1 > n + 2 { n + 2 } else { depth[calls[e].1 as int]
            + 1 })
}

/// Checks the call graph: no function may reach itself, and no chain of calls from the
/// top-level program (caller `n`) may hold more than `MAX_CALL_DEPTH` functions. On success
/// it has found a ranking that shows both.
fn check_call_graph(calls: &Vec<(usize, usize)>, n: usize) -> (r: Result<(), Diagnostic>)
    ensures
        r is Ok ==> exists|rank: Seq<int>| valid_ranking(calls@, n as int, rank),
        n >= usize::MAX / 2 ==> (r matches Err(d) && d.message@ == "too many functions"@),
        n < usize::MAX / 2 && calls@.len() == 0 ==> r is Ok,
        n == 0 ==> r is Ok,
{
    if n >= usize::MAX / 2 {
        let m = "too many functions".to_string();
        proof {
            broadcast use vstd::string::to_string_from_display_ensures_for_str;
        }
        return Err(Diagnostic::bare(m));
    }
    let cap = n + 2;
    // depth[f]: the longest chain of calls that starts with a call of f (capped).
    let mut depth: Vec<usize> = Vec::new();
    let mut i: usize = 0;
    while i < n
        invariant
            depth@.len() == i,
            i <= n,
            forall|k: int| 0 <= k < depth@.len() ==> 1 <= #[trigger] depth@[k] <= cap,
            forall|k: int| 0 <= k < depth@.len() ==> #[trigger] depth@[k] == 1,
            cap == n + 2,
            n < usize::MAX / 2,
        decreases n - i,
    {
        depth.push(1);
        i = i + 1;
    }
    let mut round: usize = 0;
    let mut changed = true;
    while changed && round <= n
        invariant
            depth@.len() == n,
            forall|k: int| 0 <= k < depth@.len() ==> 1 <= #[trigger] depth@[k] <= cap,
            cap == n + 2,
            n < usize::MAX / 2,
            round <= n + 1,
            !changed ==> edges_settled(calls@, n as int, depth@, calls@.len() as int),
            calls@.len() == 0 ==> (forall|k: int| 0 <= k < depth@.len() ==> #[trigger] depth@[k] == 1)
                && (round > 0 ==> !changed),
            n == 0 ==> (round > 0 ==> !changed),
        decreases n + 1 - round,
    {
        changed = false;
        let mut e: usize = 0;
        while e < calls.len()
            invariant
                depth@.len() == n,
                forall|k: int| 0 <= k < depth@.len() ==> 1 <= #[trigger] depth@[k] <= cap,
                cap == n + 2,
                n < usize::MAX / 2,
                e <= calls@.len(),
                !changed ==> edges_settled(calls@, n as int, depth@, e as int),
                calls@.len() == 0 ==> (forall|k: int| 0 <= k < depth@.len() ==> #[trigger] depth@[k] == 1)
                    && !changed,
                n == 0 ==> !changed,
            decreases calls@.len() - e,
        {
            let (f, g) = calls[e];
            if f < n && g < n {
                let candidate = if depth[g] + 1 > cap { cap } else { depth[g] + 1 };
                if candidate > depth[f] {
                    depth.set(f, candidate);
                    changed = true;
                }
            }
            e = e + 1;
        }
        round = round + 1;
    }
    // Without a cycle no chain of calls holds more than `n` functions; around a cycle the
    // depths keep growing past `n`.
    let mut too_deep = false;
    let mut k: usize = 0;
    while k < n
        invariant
            depth@.len() == n,
            k <= n,
            !too_deep ==> forall|j: int| 0 <= j < k ==> #[trigger] depth@[j] <= n,
            calls@.len() == 0 ==> (forall|j: int| 0 <= j < depth@.len() ==> #[trigger] depth@[j] == 1)
                && !too_deep,
            n == 0 ==> !too_deep,
        decreases n - k,
    {
        if depth[k] > n {
            too_deep = true;
        }
        k = k + 1;
    }
    if changed || too_deep {
        return Err(Diagnostic::bare("recursive function calls are not supported".to_string()));
    }
    let mut max_depth: usize = 0;
    let mut e: usize = 0;
    while e < calls.len()
        invariant
            depth@.len() == n,
            forall|k: int| 0 <= k < depth@.len() ==> 1 <= #[trigger] depth@[k] <= cap,
            cap == n + 2,
            e <= calls@.len(),
            forall|x: int|
                0 <= x < e && calls@[x].0 == n && calls@[x].1 < n ==> depth@[(#[trigger] calls@[x]).1 as int]
                    <= max_depth,
            calls@.len() == 0 ==> max_depth == 0,
            n == 0 ==> max_depth == 0,
        decreases calls@.len() - e,
    {
        let (f, g) = calls[e];
        if f == n && g < n && depth[g] > max_depth {
            max_depth = depth[g];
        }
        e = e + 1;
    }
    if max_depth > MAX_CALL_DEPTH {
        let mut m = "function call depth ".to_string();
        push_decimal(&mut m, max_depth as u64);
        m.append(" exceeds limit ");
        push_decimal(&mut m, MAX_CALL_DEPTH as u64);
        return Err(Diagnostic::bare(m));
    }
    proof {
        let rank = depth@.map_values(|d: usize| d as int);
        assert forall|x: int|
            0 <= x < calls@.len() && calls@[x].0 < n && calls@[x].1 < n implies rank[(#[trigger] calls@[x]).0 as int]
                >= rank[calls@[x].1 as int] + 1 by {
            assert(depth@[calls@[x].1 as int] <= n);
        }
        assert(valid_ranking(calls@, n as int, rank));
    }
    Ok(())
}

/// Resolves names to tape cells and functions, checks the program's static rules, and lays out
/// the tape: temporaries, then variables (cells of closed scopes are reused), function frames,
/// call-result cells, and finally the scratch area.
pub fn resolve(program: &Program) -> (r: Result<ResolvedProgram, Diagnostic>)
    ensures
        r matches Ok(rp) ==> rp.symbols.wf(),
        r matches Ok(rp) ==> rp.functions@.len() == program.functions@.len(),
        r matches Ok(rp) ==> forall|i: int|
            0 <= i < rp.functions@.len() ==> (#[trigger] rp.functions@[i]).params@.len()
                == program.functions@[i].params@.len() && (rp.functions@[i].returns_byte
                <==> program.functions@[i].return_type is Byte) && (rp.functions@[i].returns_byte
                ==> stmts_always_return_rec(rp.functions@[i].body@, 0)),
        r matches Ok(rp) ==> forall|i: int|
            0 <= i < rp.functions@.len() ==> (#[trigger] rp.functions@[i]).params@.no_duplicates(),
        r matches Ok(rp) ==> has_ranked_calls(rp),
        r matches Ok(rp) ==> !stmts_free_jump(rp.stmts@, 0) && !functions_free_jump(rp.functions@),
        program.stmts@.len() > 0 && program.stmts@[0] is Let ==> (r matches Ok(rp)
            ==> rp.stmts@[0]->Let_cell == TEMP_COUNT),
        program.functions@.len() == 0 && program.stmts@.len() == 0 ==> (r matches Ok(rp)
            && rp.functions@.len() == 0 && rp.stmts@.len() == 0),
        forall|j: int| first_repeated_function(program.functions@, j) ==> (r matches Err(d) && d.message@
            == "function "@ + "`"@ + program.functions@[j].name@ + "`"@ + " already declared"@ && d.span == Some(
            program.functions@[j].name_span,
        )),
        program.functions@.len() == 0 && program.stmts@.len() == 1 && is_simple_stmt(program.stmts@[0])
            ==> (r is Ok <==> first_simple_stmt_ok(program.stmts@[0])),
        (forall|j: int| !repeated_function(program.functions@, j)) ==> (program.stmts@.len() > 0
            && program.stmts@[0] is Break ==> (r matches Err(d) && d.message@ == "`break` outside loop"@
            && d.span == Some(program.stmts@[0]->Break_0))),
        (forall|j: int| !repeated_function(program.functions@, j)) ==> (program.stmts@.len() > 0
            && program.stmts@[0] is Return ==> (r matches Err(d) && d.message@
            == "`return` outside function"@ && d.span == Some(program.stmts@[0]->Return_1))),
        (forall|j: int| !repeated_function(program.functions@, j)) ==> (program.stmts@.len() > 0
            && program.stmts@[0] is Continue ==> (r matches Err(d) && d.message@
            == "`continue` outside loop"@ && d.span == Some(program.stmts@[0]->Continue_0))),
{
    let mut signatures: Vec<Signature> = Vec::new();
    let mut names: Vec<String> = Vec::new();
    let mut i: usize = 0;
    while i < program.functions.len()
        invariant
            signatures@.len() == names@.len(),
            signatures@.len() == i,
            i <= program.functions@.len(),
            forall|k: int| 0 <= k < i ==> (#[trigger] names@[k])@ == program.functions@[k].name@,
            forall|k: int| 0 <= k < i ==> !#[trigger] repeated_function(program.functions@, k),
        decreases program.functions@.len() - i,
    {
        let f = &program.functions[i];
        let mut j: usize = 0;
        while j < names.len()
            invariant
                i < program.functions@.len(),
                names@.len() == i,
                j <= names@.len(),
                *f == program.functions@[i as int],
                forall|k: int| 0 <= k < i ==> (#[trigger] names@[k])@ == program.functions@[k].name@,
                forall|k: int| 0 <= k < j ==> (#[trigger] names@[k])@ != f.name@,
                forall|k: int| 0 <= k < i ==> !#[trigger] repeated_function(program.functions@, k),
            decreases names@.len() - j,
        {
            if names[j] == f.name {
                proof {
                    assert(repeated_function(program.functions@, i as int)) by {
                        assert(program.functions@[j as int].name@ == program.functions@[i as int].name@);
                    }
                    assert forall|k: int| first_repeated_function(program.functions@, k) implies k == i by {
                        if k > i {
                            assert(repeated_function(program.functions@, i as int));
                        }
                        if k < i {
                            assert(!repeated_function(program.functions@, k));
                        }
                    }
                }
                return Err(Diagnostic::new(named_msg("function ", &f.name, " already declared"), f.name_span));
            }
            j = j + 1;
        }
        proof {
            assert(!repeated_function(program.functions@, i as int)) by {
                if repeated_function(program.functions@, i as int) {
                    let k = choose|k: int| 0 <= k < i && program.functions@[k].name@ == program.functions@[i as int].name@;
                    assert(names@[k]@ != f.name@);
                }
            }
        }
        let returns_byte = match f.return_type {
            ReturnType::Byte => true,
            ReturnType::Void => false,
        };
        signatures.push(Signature { param_count: f.params.len(), returns_byte });
        names.push(f.name.clone());
        i = i + 1;
    }
    let nfuncs = signatures.len();
    let mut resolver = Resolver::new(signatures, names);
    let ghost before = resolver;
    proof {
        if program.functions@.len() == 0 {
            assert(resolver.signatures@ =~= Seq::<Signature>::empty());
            assert(resolver.function_names@ =~= Seq::<String>::empty());
            assert(names_view(resolver.scopes@) =~= seq![Seq::<(String, Symbol)>::empty()]);
        }
    }
    let stmts = resolver.resolve_stmts(&program.stmts, 0)?;
    proof {
        lemma_stmts_resolved_no_free_jump(
            names_view(before.scopes@),
            before.function_names@,
            before.signatures@,
            before.current_return,
            program.stmts@,
            stmts@,
        );
    }
    let mut functions: Vec<ResolvedFunction> = Vec::new();
    let mut k: usize = 0;
    while k < program.functions.len()
        invariant
            resolver.inv(),
            resolver.signatures@.len() == nfuncs,
            nfuncs == program.functions@.len(),
            k <= program.functions@.len(),
            functions@.len() == k,
            all_recorded(resolver.calls@, nfuncs, nfuncs as nat, stmts_callees(stmts@)),
            forall|j: int|
                0 <= j < k ==> all_recorded(
                    resolver.calls@,
                    j as usize,
                    nfuncs as nat,
                    stmts_callees(#[trigger] functions@[j].body@),
                ),
            forall|j: int|
                0 <= j < k ==> (#[trigger] functions@[j]).params@.len()
                    == program.functions@[j].params@.len() && (functions@[j].returns_byte
                    <==> program.functions@[j].return_type is Byte) && (functions@[j].returns_byte
                    ==> stmts_always_return_rec(functions@[j].body@, 0)),
            forall|j: int| 0 <= j < k ==> (#[trigger] functions@[j]).params@.no_duplicates(),
            forall|j: int| 0 <= j < k ==> !stmts_free_jump(#[trigger] functions@[j].body@, 0),
            forall|j: int| !#[trigger] repeated_function(program.functions@, j),
            !(program.stmts@.len() > 0 && (program.stmts@[0] is Break || program.stmts@[0] is Continue
                || program.stmts@[0] is Return)),
            !stmts_free_jump(stmts@, 0),
            program.functions@.len() == 0 && program.stmts@.len() == 0 ==> resolver.calls@.len() == 0
                && resolver.expr_calls == 0 && stmts@.len() == 0,
        decreases program.functions@.len() - k,
    {
        let ghost before = resolver.calls@;
        let f = resolver.resolve_function(k, &program.functions[k])?;
        proof {
            lemma_recorded_grows(before, resolver.calls@, nfuncs, nfuncs as nat, stmts_callees(stmts@));
            assert forall|j: int| 0 <= j < k implies all_recorded(
                resolver.calls@,
                j as usize,
                nfuncs as nat,
                stmts_callees(#[trigger] functions@[j].body@),
            ) by {
                lemma_recorded_grows(before, resolver.calls@, j as usize, nfuncs as nat, stmts_callees(functions@[j].body@));
            }
        }
        functions.push(f);
        k = k + 1;
    }
    check_call_graph(&resolver.calls, nfuncs)?;
    let ghost calls = resolver.calls@;
    let count = resolver.expr_calls;
    let spill_base = resolver.alloc_block(count)?;
    let mut spills: Vec<usize> = Vec::new();
    let mut s: usize = 0;
    while s < count
        invariant
            s <= count,
            spill_base + count <= resolver.high_water,
        decreases count - s,
    {
        spills.push(spill_base + s);
        s = s + 1;
    }
    let symbols = Symbols { entries: resolver.public_entries, scratch_base: resolver.high_water };
    let rp = ResolvedProgram { stmts, functions, spills, symbols };
    proof {
        let n = nfuncs as int;
        let rank = choose|rank: Seq<int>| valid_ranking(calls, n, rank);
        assert forall|f: int, g: usize|
            0 <= f < n && #[trigger] stmts_callees(rp.functions@[f].body@).contains(g) implies g < n
                && rank[f] >= rank[g as int] + 1 by {
            assert(all_recorded(calls, f as usize, nfuncs as nat, stmts_callees(rp.functions@[f].body@)));
            assert(has_call(calls, f, g as int));
            let e = choose|e: int| 0 <= e < calls.len() && #[trigger] calls[e] == (f as usize, g);
            assert(calls[e].0 < n && calls[e].1 < n);
        }
        assert forall|g: usize| #[trigger] stmts_callees(rp.stmts@).contains(g) implies g < n
            && rank[g as int] <= MAX_CALL_DEPTH by {
            assert(has_call(calls, n, g as int));
            let e = choose|e: int| 0 <= e < calls.len() && #[trigger] calls[e] == (nfuncs, g);
            assert(calls[e].0 == n && calls[e].1 < n);
        }
        assert(calls_ranked(rp, rank));
        assert(has_ranked_calls(rp));
    }
    Ok(rp)
}
} // verus!
