use vstd::prelude::*;
use crate::sema::{ResolvedExpr, ResolvedFunction, ResolvedProgram, ResolvedStmt};

verus! {

/// A program as basic blocks: each block runs its operations and then its terminator.
#[derive(Debug, PartialEq, Eq)]
pub struct Program {
    pub blocks: Vec<Block>,
    pub entry: BlockId,
    pub function_entries: Vec<BlockId>,
}

#[derive(Debug, PartialEq, Eq)]
pub struct Block {
    pub ops: Vec<Op>,
    pub terminator: Terminator,
}

#[derive(Debug, Clone, Copy, PartialEq, Eq)]
pub struct BlockId(pub usize);

#[derive(Debug, PartialEq, Eq)]
pub enum Op {
    Let { cell: usize, init: Option<ResolvedExpr> },
    LetArray { base: usize, len: usize, init: Vec<u8> },
    Assign { cell: usize, expr: ResolvedExpr },
    ArraySet { base: usize, len: usize, index: ResolvedExpr, expr: ResolvedExpr },
    Put(ResolvedExpr),
    Puts(Vec<u8>),
    Print(ResolvedExpr),
    Println(ResolvedExpr),
    Read(usize),
    ReadArray { base: usize, len: usize, index: ResolvedExpr },
    /// Stores the value the last call returned into a cell.
    StoreReturn(usize),
    PutReturn,
    PrintReturn,
    PrintlnReturn,
}

#[derive(Debug, PartialEq, Eq)]
pub enum Terminator {
    Jump(BlockId),
    Branch { cond: ResolvedExpr, then_target: BlockId, else_target: BlockId },
    Call { function: usize, args: Vec<ResolvedExpr>, return_target: BlockId },
    Return(ResolvedExpr),
    ReturnValue,
    Halt,
}

/// Number of function calls inside an expression.
pub open spec fn expr_calls(e: ResolvedExpr) -> nat
    decreases e,
{
    match e {
        ResolvedExpr::Byte(_) => 0,
        ResolvedExpr::Var(_) => 0,
        ResolvedExpr::ArrayGet { index, .. } => expr_calls(*index),
        ResolvedExpr::Call { args, .. } => 1 + exprs_calls(args@, 0),
        ResolvedExpr::Unary { expr, .. } => expr_calls(*expr),
        ResolvedExpr::Binary { left, right, .. } => expr_calls(*left) + expr_calls(*right),
    }
}

/// Number of function calls inside the expressions `es[from..]`.
pub open spec fn exprs_calls(es: Seq<ResolvedExpr>, from: int) -> nat
    decreases es, es.len() - from,
{
    if from < 0 || from >= es.len() {
        0
    } else {
        expr_calls(es[from]) + exprs_calls(es, from + 1)
    }
}

pub open spec fn opt_expr_calls(e: Option<ResolvedExpr>) -> nat {
    match e {
        Some(e) => expr_calls(e),
        None => 0,
    }
}

/// Number of calls inside expressions of a statement (calls whose result is used).
pub open spec fn stmt_calls(s: ResolvedStmt) -> nat
    decreases s,
{
    match s {
        ResolvedStmt::Let { init, .. } => match init {
            Some(e) => expr_calls(e),
            None => 0,
        },
        ResolvedStmt::LetArray { .. } => 0,
        ResolvedStmt::Assign { expr, .. } => expr_calls(expr),
        ResolvedStmt::ArraySet { index, expr, .. } => expr_calls(index) + expr_calls(expr),
        ResolvedStmt::Put(e) => expr_calls(e),
        ResolvedStmt::Puts(_) => 0,
        ResolvedStmt::Print(e) => expr_calls(e),
        ResolvedStmt::Println(e) => expr_calls(e),
        ResolvedStmt::Read(_) => 0,
        ResolvedStmt::ReadArray { index, .. } => expr_calls(index),
        ResolvedStmt::Call { args, .. } => exprs_calls(args@, 0),
        ResolvedStmt::Return(e) => expr_calls(e),
        ResolvedStmt::Break => 0,
        ResolvedStmt::Continue => 0,
        ResolvedStmt::Block(body) => stmts_calls(body@, 0),
        ResolvedStmt::If { cond, then_branch, else_branch } => expr_calls(cond) + stmts_calls(
            then_branch@,
            0,
        ) + stmts_calls(else_branch@, 0),
        ResolvedStmt::While { cond, body } => expr_calls(cond) + stmts_calls(body@, 0),
        ResolvedStmt::Loop { body } => stmts_calls(body@, 0),
        ResolvedStmt::For { init, cond, step, body } => (match init {
            Some(b) => stmt_calls(*b),
            None => 0,
        }) + (match cond {
            Some(e) => expr_calls(e),
            None => 0,
        }) + (match step {
            Some(b) => stmt_calls(*b),
            None => 0,
        }) + stmts_calls(body@, 0),
    }
}

pub open spec fn stmts_calls(ss: Seq<ResolvedStmt>, from: int) -> nat
    decreases ss, ss.len() - from,
{
    if from < 0 || from >= ss.len() {
        0
    } else {
        stmt_calls(ss[from]) + stmts_calls(ss, from + 1)
    }
}

/// Whether a statement holds a `break` or `continue` that is not inside one of its own loops.
pub open spec fn stmt_free_jump(s: ResolvedStmt) -> bool
    decreases s,
{
    match s {
        ResolvedStmt::Break => true,
        ResolvedStmt::Continue => true,
        ResolvedStmt::Block(body) => stmts_free_jump(body@, 0),
        ResolvedStmt::If { then_branch, else_branch, .. } => stmts_free_jump(then_branch@, 0)
            || stmts_free_jump(else_branch@, 0),
        ResolvedStmt::For { init, step, .. } => (match init {
            Some(b) => stmt_free_jump(*b),
            None => false,
        }) || (match step {
            Some(b) => stmt_free_jump(*b),
            None => false,
        }),
        _ => false,
    }
}

pub open spec fn stmts_free_jump(ss: Seq<ResolvedStmt>, from: int) -> bool
    decreases ss, ss.len() - from,
{
    if from < 0 || from >= ss.len() {
        false
    } else {
        stmt_free_jump(ss[from]) || stmts_free_jump(ss, from + 1)
    }
}

/// Total calls inside expressions of the functions `fs[from..]`.
pub open spec fn functions_calls(fs: Seq<ResolvedFunction>, from: int) -> nat
    decreases fs.len() - from,
{
    if from < 0 || from >= fs.len() {
        0
    } else {
        stmts_calls(fs[from].body@, 0) + functions_calls(fs, from + 1)
    }
}

pub open spec fn functions_free_jump(fs: Seq<ResolvedFunction>) -> bool {
    exists|i: int| 0 <= i < fs.len() && stmts_free_jump(#[trigger] fs[i].body@, 0)
}

/// What lowering needs of a resolved program: a result cell for every call inside an
/// expression, and every `break`/`continue` inside a loop.
pub open spec fn lowerable(p: ResolvedProgram) -> bool {
    &&& stmts_calls(p.stmts@, 0) + functions_calls(p.functions@, 0) <= p.spills@.len()
    &&& !stmts_free_jump(p.stmts@, 0)
    &&& !functions_free_jump(p.functions@)
}

/// Whether a terminator names only blocks below `n`.
pub open spec fn terminator_targets_below(t: Terminator, n: nat) -> bool {
    match t {
        Terminator::Jump(b) => b.0 < n,
        Terminator::Branch { then_target, else_target, .. } => then_target.0 < n && else_target.0
            < n,
        Terminator::Call { return_target, .. } => return_target.0 < n,
        _ => true,
    }
}

/// The control-flow graph is closed: every block a terminator or entry names exists.
pub open spec fn well_formed(p: Program) -> bool {
    &&& p.entry.0 < p.blocks@.len()
    &&& forall|i: int|
        0 <= i < p.function_entries@.len() ==> (#[trigger] p.function_entries@[i]).0
            < p.blocks@.len()
    &&& forall|i: int|
        0 <= i < p.blocks@.len() ==> terminator_targets_below(
            (#[trigger] p.blocks@[i]).terminator,
            p.blocks@.len() as nat,
        )
}

/// A count, or `usize::MAX` when it does not fit.
pub open spec fn saturate(n: nat) -> usize {
    if n <= usize::MAX {
        n as usize
    } else {
        usize::MAX
    }
}

fn sat_add(a: usize, b: usize) -> (r: usize)
    ensures
        r == saturate((a + b) as nat),
{
    if a <= usize::MAX - b {
        a + b
    } else {
        usize::MAX
    }
}

proof fn lemma_saturate_add(a: nat, b: nat)
    ensures
        saturate((saturate(a) + saturate(b)) as nat) == saturate(a + b),
{
}

fn expr_call_count(e: &ResolvedExpr) -> (n: usize)
    ensures
        n == saturate(expr_calls(*e)),
    decreases e, 0nat,
{
    match e {
        ResolvedExpr::Byte(_) => 0,
        ResolvedExpr::Var(_) => 0,
        ResolvedExpr::ArrayGet { index, .. } => expr_call_count(index),
        ResolvedExpr::Call { args, .. } => {
            let a = args_call_count(args);
            proof {
                lemma_saturate_add(1, exprs_calls(args@, 0));
            }
            sat_add(1, a)
        },
        ResolvedExpr::Unary { expr, .. } => expr_call_count(expr),
        ResolvedExpr::Binary { left, right, .. } => {
            let l = expr_call_count(left);
            let r = expr_call_count(right);
            proof {
                lemma_saturate_add(expr_calls(**left), expr_calls(**right));
            }
            sat_add(l, r)
        },
    }
}

fn args_call_count(es: &Vec<ResolvedExpr>) -> (n: usize)
    ensures
        n == saturate(exprs_calls(es@, 0)),
    decreases es, 1nat,
{
    let mut acc: usize = 0;
    let mut i: usize = es.len();
    while i > 0
        invariant
            i <= es@.len(),
            acc == saturate(exprs_calls(es@, i as int)),
        decreases i,
    {
        i = i - 1;
        proof {
            vstd::std_specs::vec::axiom_vec_index_decreases(*es, i as int);
        }
        let c = expr_call_count(&es[i]);
        proof {
            lemma_saturate_add(expr_calls(es@[i as int]), exprs_calls(es@, i + 1));
        }
        acc = sat_add(c, acc);
    }
    acc
}

fn opt_expr_call_count(e: &Option<ResolvedExpr>) -> (n: usize)
    ensures
        n == saturate(opt_expr_calls(*e)),
{
    match e {
        Some(e) => expr_call_count(e),
        None => 0,
    }
}

fn stmt_call_count(s: &ResolvedStmt) -> (n: usize)
    ensures
        n == saturate(stmt_calls(*s)),
    decreases s, 0nat,
{
    match s {
        ResolvedStmt::Let { init, .. } => opt_expr_call_count(init),
        ResolvedStmt::LetArray { .. } => 0,
        ResolvedStmt::Assign { expr, .. } => expr_call_count(expr),
        ResolvedStmt::ArraySet { index, expr, .. } => {
            proof {
                lemma_saturate_add(expr_calls(*index), expr_calls(*expr));
            }
            sat_add(expr_call_count(index), expr_call_count(expr))
        },
        ResolvedStmt::Put(e) => expr_call_count(e),
        ResolvedStmt::Puts(_) => 0,
        ResolvedStmt::Print(e) => expr_call_count(e),
        ResolvedStmt::Println(e) => expr_call_count(e),
        ResolvedStmt::Read(_) => 0,
        ResolvedStmt::ReadArray { index, .. } => expr_call_count(index),
        ResolvedStmt::Call { args, .. } => args_call_count(args),
        ResolvedStmt::Return(e) => expr_call_count(e),
        ResolvedStmt::Break => 0,
        ResolvedStmt::Continue => 0,
        ResolvedStmt::Block(body) => stmts_call_count(body),
        ResolvedStmt::If { cond, then_branch, else_branch } => {
            let c = expr_call_count(cond);
            let t = stmts_call_count(then_branch);
            let e = stmts_call_count(else_branch);
            proof {
                lemma_saturate_add(expr_calls(*cond), stmts_calls(then_branch@, 0));
                lemma_saturate_add(expr_calls(*cond) + stmts_calls(then_branch@, 0), stmts_calls(else_branch@, 0));
            }
            sat_add(sat_add(c, t), e)
        },
        ResolvedStmt::While { cond, body } => {
            proof {
                lemma_saturate_add(expr_calls(*cond), stmts_calls(body@, 0));
            }
            sat_add(expr_call_count(cond), stmts_call_count(body))
        },
        ResolvedStmt::Loop { body } => stmts_call_count(body),
        ResolvedStmt::For { init, cond, step, body } => {
            let a: usize = match init {
                Some(b) => stmt_call_count(b),
                None => 0,
            };
            let b = opt_expr_call_count(cond);
            let c: usize = match step {
                Some(b) => stmt_call_count(b),
                None => 0,
            };
            let d = stmts_call_count(body);
            let ghost na: nat = match init {
                Some(b) => stmt_calls(**b),
                None => 0,
            };
            let ghost nc: nat = match step {
                Some(b) => stmt_calls(**b),
                None => 0,
            };
            proof {
                lemma_saturate_add(na, opt_expr_calls(*cond));
                lemma_saturate_add(na + opt_expr_calls(*cond), nc);
                lemma_saturate_add(na + opt_expr_calls(*cond) + nc, stmts_calls(body@, 0));
            }
            sat_add(sat_add(sat_add(a, b), c), d)
        },
    }
}

fn stmts_call_count(ss: &Vec<ResolvedStmt>) -> (n: usize)
    ensures
        n == saturate(stmts_calls(ss@, 0)),
    decreases ss, 1nat,
{
    let mut acc: usize = 0;
    let mut i: usize = ss.len();
    while i > 0
        invariant
            i <= ss@.len(),
            acc == saturate(stmts_calls(ss@, i as int)),
        decreases i,
    {
        i = i - 1;
        proof {
            vstd::std_specs::vec::axiom_vec_index_decreases(*ss, i as int);
        }
        let c = stmt_call_count(&ss[i]);
        proof {
            lemma_saturate_add(stmt_calls(ss@[i as int]), stmts_calls(ss@, i + 1));
        }
        acc = sat_add(c, acc);
    }
    acc
}

fn stmt_has_free_jump(s: &ResolvedStmt) -> (b: bool)
    ensures
        b == stmt_free_jump(*s),
    decreases s, 0nat,
{
    match s {
        ResolvedStmt::Break => true,
        ResolvedStmt::Continue => true,
        ResolvedStmt::Block(body) => stmts_have_free_jump(body),
        ResolvedStmt::If { then_branch, else_branch, .. } => stmts_have_free_jump(then_branch)
            || stmts_have_free_jump(else_branch),
        ResolvedStmt::For { init, step, .. } => {
            let a = match init {
                Some(b) => stmt_has_free_jump(b),
                None => false,
            };
            let c = match step {
                Some(b) => stmt_has_free_jump(b),
                None => false,
            };
            a || c
        },
        _ => false,
    }
}

fn stmts_have_free_jump(ss: &Vec<ResolvedStmt>) -> (b: bool)
    ensures
        b == stmts_free_jump(ss@, 0),
    decreases ss, 1nat,
{
    let mut i: usize = ss.len();
    let mut found = false;
    while i > 0
        invariant
            i <= ss@.len(),
            found == stmts_free_jump(ss@, i as int),
        decreases i,
    {
        i = i - 1;
        proof {
            vstd::std_specs::vec::axiom_vec_index_decreases(*ss, i as int);
        }
        let here = stmt_has_free_jump(&ss[i]);
        found = here || found;
    }
    found
}

/// Whether lowering can take the program: enough call-result cells for its calls, and no
/// `break` or `continue` outside a loop. (A program whose calls number `usize::MAX` or more
/// is refused.)
pub fn is_lowerable(p: &ResolvedProgram) -> (b: bool)
    ensures
        b ==> lowerable(*p),
        lowerable(*p) && p.spills@.len() < usize::MAX ==> b,
{
    let mut total = stmts_call_count(&p.stmts);
    let mut jumps = stmts_have_free_jump(&p.stmts);
    let mut fjumps = false;
    let mut fcalls: usize = 0;
    let mut i: usize = p.functions.len();
    while i > 0
        invariant
            i <= p.functions@.len(),
            fcalls == saturate(functions_calls(p.functions@, i as int)),
            fjumps == exists|k: int| i <= k < p.functions@.len() && stmts_free_jump(
                #[trigger] p.functions@[k].body@,
                0,
            ),
        decreases i,
    {
        i = i - 1;
        let c = stmts_call_count(&p.functions[i].body);
        proof {
            lemma_saturate_add(stmts_calls(p.functions@[i as int].body@, 0), functions_calls(p.functions@, i + 1));
        }
        fcalls = sat_add(c, fcalls);
        let j = stmts_have_free_jump(&p.functions[i].body);
        fjumps = j || fjumps;
    }
    proof {
        lemma_saturate_add(stmts_calls(p.stmts@, 0), functions_calls(p.functions@, 0));
    }
    total = sat_add(total, fcalls);
    total < usize::MAX && total <= p.spills.len() && !jumps && !fjumps
}

/// The `break`s and `continue`s logged from `from` on stand inside the loops `loops` (at
/// least that many loops enclose each), and those directly inside the innermost of them jump
/// to its exit or its continue block.
spec fn jumps_fit(log: Seq<(bool, nat, usize)>, from: int, loops: Seq<LoopTargets>) -> bool {
    forall|k: int|
        from <= k < log.len() ==> (#[trigger] log[k]).1 >= loops.len() && (log[k].1 == loops.len()
            ==> log[k].2 == (if log[k].0 {
            loops.last().continue_target.0
        } else {
            loops.last().break_target.0
        }))
}

/// The initializer or step of a `for`, if any, is a declaration or an assignment.
pub open spec fn plain_part(s: Option<Box<ResolvedStmt>>) -> bool {
    s matches Some(b) ==> (*b is Let || *b is Assign || *b is ArraySet)
}

/// The log `b` keeps the log `a` as its beginning.
spec fn log_extends(b: Seq<(bool, nat, usize)>, a: Seq<(bool, nat, usize)>) -> bool {
    a.len() <= b.len() && forall|k: int| 0 <= k < a.len() ==> #[trigger] b[k] == a[k]
}

proof fn lemma_fit_join(a: Seq<(bool, nat, usize)>, b: Seq<(bool, nat, usize)>, from: int, loops: Seq<LoopTargets>)
    requires
        0 <= from,
        jumps_fit(a, from, loops),
        log_extends(b, a),
        jumps_fit(b, a.len() as int, loops),
    ensures
        jumps_fit(b, from, loops),
{
    assert forall|k: int| from <= k < b.len() implies (#[trigger] b[k]).1 >= loops.len() && (b[k].1
        == loops.len() ==> b[k].2 == (if b[k].0 {
        loops.last().continue_target.0
    } else {
        loops.last().break_target.0
    })) by {
        if k < a.len() {
            assert(b[k] == a[k]);
        }
    }
}

proof fn lemma_fit_outer(log: Seq<(bool, nat, usize)>, from: int, loops: Seq<LoopTargets>, t: LoopTargets)
    requires
        jumps_fit(log, from, loops.push(t)),
    ensures
        jumps_fit(log, from, loops),
{
    assert forall|k: int| from <= k < log.len() implies (#[trigger] log[k]).1 >= loops.len() && (log[k].1
        == loops.len() ==> log[k].2 == (if log[k].0 {
        loops.last().continue_target.0
    } else {
        loops.last().break_target.0
    })) by {
        assert(log[k].1 >= loops.push(t).len());
    }
}

proof fn lemma_log_extends_trans(a: Seq<(bool, nat, usize)>, b: Seq<(bool, nat, usize)>, c: Seq<(bool, nat, usize)>)
    requires
        log_extends(b, a),
        log_extends(c, b),
    ensures
        log_extends(c, a),
{
    assert forall|k: int| 0 <= k < a.len() implies #[trigger] c[k] == a[k] by {
        assert(c[k] == b[k]);
    }
}

/// The jumps logged from `from` on that stand directly inside a loop at depth `depth` go to
/// `cont` when they continue and to `exit` when they break.
pub open spec fn loop_jumps_go(log: Seq<(bool, nat, usize)>, from: int, depth: nat, cont: usize, exit: usize) -> bool {
    forall|k: int|
        from <= k < log.len() && (#[trigger] log[k]).1 == depth ==> log[k].2 == (if log[k].0 {
            cont
        } else {
            exit
        })
}

#[derive(Clone, Copy)]
struct LoopTargets {
    break_target: BlockId,
    continue_target: BlockId,
}

/// An op whose expressions call no function.
pub open spec fn op_call_free(op: Op) -> bool {
    match op {
        Op::Let { init, .. } => match init {
            Some(e) => expr_calls(e) == 0,
            None => true,
        },
        Op::Assign { expr, .. } => expr_calls(expr) == 0,
        Op::ArraySet { index, expr, .. } => expr_calls(index) == 0 && expr_calls(expr) == 0,
        Op::Put(e) => expr_calls(e) == 0,
        Op::Print(e) => expr_calls(e) == 0,
        Op::Println(e) => expr_calls(e) == 0,
        Op::ReadArray { index, .. } => expr_calls(index) == 0,
        _ => true,
    }
}

/// A terminator whose expressions call no function (a call is the terminator itself).
pub open spec fn terminator_call_free(t: Terminator) -> bool {
    match t {
        Terminator::Branch { cond, .. } => expr_calls(cond) == 0,
        Terminator::Call { args, .. } => forall|k: int| 0 <= k < args@.len() ==> expr_calls(#[trigger] args@[k]) == 0,
        Terminator::Return(e) => expr_calls(e) == 0,
        _ => true,
    }
}

/// No expression of the block calls a function: every call is a `Call` terminator.
pub open spec fn block_call_free(b: Block) -> bool {
    &&& forall|k: int| 0 <= k < b.ops@.len() ==> op_call_free(#[trigger] b.ops@[k])
    &&& terminator_call_free(b.terminator)
}

/// `new` is `old` with one more op at the end of block `c`, and nothing else changed.
pub open spec fn one_op_pushed(old: Seq<Block>, new: Seq<Block>, c: int) -> bool {
    &&& new.len() == old.len()
    &&& 0 <= c < old.len()
    &&& new[c].ops@.len() == old[c].ops@.len() + 1
    &&& new[c].ops@.drop_last() == old[c].ops@
    &&& new[c].terminator == old[c].terminator
    &&& forall|j: int| 0 <= j < old.len() && j != c ==> new[j] == old[j]
}

/// The op a call-free simple statement lowers to, checked against `op`.
pub open spec fn lowers_to_op(s: ResolvedStmt, op: Op) -> bool {
    match s {
        ResolvedStmt::Let { cell, init } => op == Op::Let { cell, init },
        ResolvedStmt::Assign { cell, expr } => op == Op::Assign { cell, expr },
        ResolvedStmt::Put(e) => op == Op::Put(e),
        ResolvedStmt::Print(e) => op == Op::Print(e),
        ResolvedStmt::Println(e) => op == Op::Println(e),
        ResolvedStmt::Read(c) => op == Op::Read(c),
        ResolvedStmt::Puts(b) => op matches Op::Puts(v) && v@ == b@,
        ResolvedStmt::LetArray { base, len, init } => op matches Op::LetArray { base: b2, len: l2, init: v }
            && b2 == base && l2 == len && v@ == init@,
        _ => false,
    }
}

/// A simple statement without calls: it becomes one op in the current block.
pub open spec fn simple_lowered(s: ResolvedStmt) -> bool {
    stmt_calls(s) == 0 && (s is Let || s is Assign || s is Put || s is Print || s is Println
        || s is Read || s is Puts || s is LetArray)
}

struct Builder {
    blocks: Vec<Block>,
    spills: Vec<usize>,
    next_spill: usize,
    /// Every `break` and `continue` lowered so far: whether it continues, how many loops
    /// enclosed it, and the block it jumps to.
    jumps: Ghost<Seq<(bool, nat, usize)>>,
}

impl Builder {
    spec fn inv(&self) -> bool {
        &&& self.next_spill <= self.spills@.len()
        &&& forall|i: int| 0 <= i < self.blocks@.len() ==> block_call_free(#[trigger] self.blocks@[i])
        &&& forall|i: int|
            0 <= i < self.blocks@.len() ==> terminator_targets_below(
                (#[trigger] self.blocks@[i]).terminator,
                self.blocks@.len() as nat,
            )
    }

    spec fn spills_left(&self) -> nat {
        (self.spills@.len() - self.next_spill) as nat
    }

    spec fn grows(&self, old: &Self) -> bool {
        &&& self.inv()
        &&& self.blocks@.len() >= old.blocks@.len()
        &&& self.spills@ == old.spills@
        &&& forall|i: int|
            0 <= i < old.blocks@.len() && !(old.blocks@[i].terminator is Halt) ==> (#[trigger] self.blocks@[i]).terminator
                == old.blocks@[i].terminator
    }

    fn new(spills: Vec<usize>) -> (b: Self)
        ensures
            b.inv(),
            b.blocks@.len() == 0,
            b.spills@ == spills@,
            b.next_spill == 0,
    {
        Self { blocks: Vec::new(), spills, next_spill: 0, jumps: Ghost(Seq::empty()) }
    }

    fn new_block(&mut self) -> (id: BlockId)
        requires
            old(self).inv(),
        ensures
            final(self).jumps@ == old(self).jumps@,
            final(self).grows(old(self)),
            final(self).next_spill == old(self).next_spill,
            id.0 == old(self).blocks@.len(),
            final(self).blocks@.len() == old(self).blocks@.len() + 1,
            final(self).blocks@.last().ops@.len() == 0,
            final(self).blocks@.last().terminator is Halt,
            forall|j: int| 0 <= j < old(self).blocks@.len() ==> final(self).blocks@[j] == old(self).blocks@[j],
    {
        let id = BlockId(self.blocks.len());
        self.blocks.push(Block { ops: Vec::new(), terminator: Terminator::Halt });
        assert forall|i: int| 0 <= i < self.blocks@.len() implies terminator_targets_below(
            (#[trigger] self.blocks@[i]).terminator,
            self.blocks@.len() as nat,
        ) by {
            if i < old(self).blocks@.len() {
                assert(self.blocks@[i] == old(self).blocks@[i]);
                assert(terminator_targets_below(
                    old(self).blocks@[i].terminator,
                    old(self).blocks@.len() as nat,
                ));
            }
        }
        id
    }

    fn push_op(&mut self, block: BlockId, op: Op)
        requires
            old(self).inv(),
            op_call_free(op),
            block.0 < old(self).blocks@.len(),
        ensures
            final(self).jumps@ == old(self).jumps@,
            final(self).grows(old(self)),
            final(self).blocks@.len() == old(self).blocks@.len(),
            final(self).next_spill == old(self).next_spill,
            final(self).blocks@[block.0 as int].ops@ == old(self).blocks@[block.0 as int].ops@.push(op),
            final(self).blocks@[block.0 as int].ops@.drop_last() == old(self).blocks@[block.0 as int].ops@,
            final(self).blocks@[block.0 as int].terminator == old(
                self,
            ).blocks@[block.0 as int].terminator,
            forall|j: int|
                0 <= j < old(self).blocks@.len() && j != block.0 ==> final(self).blocks@[j] == old(
                    self,
                ).blocks@[j],
    {
        let mut b = self.blocks.remove(block.0);
        b.ops.push(op);
        assert(b.ops@.drop_last() =~= old(self).blocks@[block.0 as int].ops@);
        self.blocks.insert(block.0, b);
        assert forall|i: int| 0 <= i < self.blocks@.len() implies terminator_targets_below(
            (#[trigger] self.blocks@[i]).terminator,
            self.blocks@.len() as nat,
        ) by {
            if i != block.0 {
                assert(self.blocks@[i] == old(self).blocks@[i]);
                assert(terminator_targets_below(
                    old(self).blocks@[i].terminator,
                    old(self).blocks@.len() as nat,
                ));
            }
        }
    }

    /// Sets a block's terminator unless it already has one other than `Halt`.
    fn set_terminator_if_open(&mut self, block: BlockId, terminator: Terminator)
        requires
            old(self).inv(),
            terminator_call_free(terminator),
            block.0 < old(self).blocks@.len(),
            terminator_targets_below(terminator, old(self).blocks@.len() as nat),
        ensures
            final(self).jumps@ == old(self).jumps@,
            final(self).grows(old(self)),
            final(self).blocks@.len() == old(self).blocks@.len(),
            final(self).next_spill == old(self).next_spill,
            final(self).blocks@[block.0 as int].ops == old(self).blocks@[block.0 as int].ops,
            final(self).blocks@[block.0 as int].terminator == if old(
                self,
            ).blocks@[block.0 as int].terminator is Halt {
                terminator
            } else {
                old(self).blocks@[block.0 as int].terminator
            },
            forall|j: int|
                0 <= j < old(self).blocks@.len() && j != block.0 ==> final(self).blocks@[j] == old(
                    self,
                ).blocks@[j],
    {
        let open = match &self.blocks[block.0].terminator {
            Terminator::Halt => true,
            _ => false,
        };
        if open {
            let mut b = self.blocks.remove(block.0);
            b.terminator = terminator;
            self.blocks.insert(block.0, b);
            assert forall|i: int| 0 <= i < self.blocks@.len() implies terminator_targets_below(
                (#[trigger] self.blocks@[i]).terminator,
                self.blocks@.len() as nat,
            ) by {
                if i != block.0 {
                    assert(self.blocks@[i] == old(self).blocks@[i]);
                    assert(terminator_targets_below(
                        old(self).blocks@[i].terminator,
                        old(self).blocks@.len() as nat,
                    ));
                }
            }
        }
    }

    fn alloc_spill(&mut self) -> (c: usize)
        requires
            old(self).inv(),
            old(self).spills_left() >= 1,
        ensures
            final(self).jumps@ == old(self).jumps@,
            final(self).grows(old(self)),
            final(self).blocks@ == old(self).blocks@,
            final(self).next_spill == old(self).next_spill + 1,
            c == old(self).spills@[old(self).next_spill as int],
    {
        let c = self.spills[self.next_spill];
        let _n = self.spills.len();
        self.next_spill = self.next_spill + 1;
        c
    }

    /// Moves every call inside an expression into its own block: each call becomes a `Call`
    /// terminator followed by a block that stores the result in a spill cell, and the returned
    /// expression reads that cell instead.
    fn lower_expr_calls(&mut self, current: BlockId, expr: &ResolvedExpr) -> (r: (BlockId, ResolvedExpr))
        requires
            old(self).inv(),
            current.0 < old(self).blocks@.len(),
            expr_calls(*expr) <= old(self).spills_left(),
        ensures
            final(self).jumps@ == old(self).jumps@,
            final(self).grows(old(self)),
            r.0.0 < final(self).blocks@.len(),
            final(self).next_spill == old(self).next_spill + expr_calls(*expr),
            expr_calls(r.1) == 0,
            expr_calls(*expr) == 0 ==> r.0 == current && r.1 == *expr && final(self).blocks@ == old(
                self,
            ).blocks@,
        decreases expr, 1nat,
    {
        match expr {
            ResolvedExpr::Byte(v) => (current, ResolvedExpr::Byte(*v)),
            ResolvedExpr::Var(c) => (current, ResolvedExpr::Var(*c)),
            ResolvedExpr::ArrayGet { base, len, index } => {
                let (current, index) = self.lower_expr_calls(current, index);
                (current, ResolvedExpr::ArrayGet { base: *base, len: *len, index: Box::new(index) })
            },
            ResolvedExpr::Unary { op, expr: inner } => {
                let (current, inner) = self.lower_expr_calls(current, inner);
                (current, ResolvedExpr::Unary { op: *op, expr: Box::new(inner) })
            },
            ResolvedExpr::Binary { left, op, right } => {
                let (current, left) = self.lower_expr_calls(current, left);
                let (current, right) = self.lower_expr_calls(current, right);
                (
                    current,
                    ResolvedExpr::Binary { left: Box::new(left), op: *op, right: Box::new(right) },
                )
            },
            ResolvedExpr::Call { function, args } => {
                let (current, lowered_args) = self.lower_args(current, args);
                let spill = self.alloc_spill();
                let after = self.new_block();
                self.set_terminator_if_open(
                    current,
                    Terminator::Call { function: *function, args: lowered_args, return_target: after },
                );
                self.push_op(after, Op::StoreReturn(spill));
                (after, ResolvedExpr::Var(spill))
            },
        }
    }

    fn lower_args(&mut self, current: BlockId, args: &Vec<ResolvedExpr>) -> (r: (BlockId, Vec<ResolvedExpr>))
        requires
            old(self).inv(),
            current.0 < old(self).blocks@.len(),
            exprs_calls(args@, 0) < old(self).spills_left(),
        ensures
            final(self).jumps@ == old(self).jumps@,
            forall|k: int| 0 <= k < r.1@.len() ==> expr_calls(#[trigger] r.1@[k]) == 0,
            final(self).grows(old(self)),
            r.0.0 < final(self).blocks@.len(),
            final(self).next_spill == old(self).next_spill + exprs_calls(args@, 0),
        decreases args, 2nat,
    {
        let mut current = current;
        let mut lowered: Vec<ResolvedExpr> = Vec::new();
        let mut i: usize = 0;
        while i < args.len()
            invariant
                self.jumps@ == old(self).jumps@,
                forall|k: int| 0 <= k < lowered@.len() ==> expr_calls(#[trigger] lowered@[k]) == 0,
                self.grows(old(self)),
                current.0 < self.blocks@.len(),
                i <= args@.len(),
                self.next_spill + exprs_calls(args@, i as int) == old(self).next_spill
                    + exprs_calls(args@, 0),
                exprs_calls(args@, 0) < old(self).spills_left(),
                old(self).next_spill <= old(self).spills@.len(),
            decreases args@.len() - i,
        {
            proof {
                vstd::std_specs::vec::axiom_vec_index_decreases(*args, i as int);
                assert(exprs_calls(args@, i as int) == expr_calls(args@[i as int]) + exprs_calls(
                    args@,
                    i + 1,
                ));
                assert(self.spills@ == old(self).spills@);
                assert(expr_calls(args@[i as int]) <= self.spills_left());
            }
            let (next, arg) = self.lower_expr_calls(current, &args[i]);
            current = next;
            lowered.push(arg);
            i = i + 1;
        }
        (current, lowered)
    }
}


spec fn loops_below(loops: Seq<LoopTargets>, n: nat) -> bool {
    forall|i: int|
        0 <= i < loops.len() ==> (#[trigger] loops[i]).break_target.0 < n
            && loops[i].continue_target.0 < n
}

impl Builder {
    fn lower_stmts(&mut self, stmts: &Vec<ResolvedStmt>, current: BlockId, loops: &mut Vec<LoopTargets>) -> (r: BlockId)
        requires
            old(self).inv(),
            current.0 < old(self).blocks@.len(),
            stmts_calls(stmts@, 0) <= old(self).spills_left(),
            loops_below(old(loops)@, old(self).blocks@.len() as nat),
            old(loops)@.len() > 0 || !stmts_free_jump(stmts@, 0),
        ensures
            final(self).grows(old(self)),
            r.0 < final(self).blocks@.len(),
            final(self).next_spill == old(self).next_spill + stmts_calls(stmts@, 0),
            final(loops)@ == old(loops)@,
            stmts@.len() == 0 ==> r == current && final(self).blocks@ == old(self).blocks@,
            log_extends(final(self).jumps@, old(self).jumps@),
            jumps_fit(final(self).jumps@, old(self).jumps@.len() as int, old(loops)@),
        decreases stmts, 2nat,
    {
        let ghost c0 = current;
        let mut current = current;
        let mut i: usize = 0;
        while i < stmts.len()
            invariant
                stmts@.len() == 0 ==> current == c0 && self.blocks@ == old(self).blocks@,
                log_extends(self.jumps@, old(self).jumps@),
                jumps_fit(self.jumps@, old(self).jumps@.len() as int, old(loops)@),
                self.grows(old(self)),
                current.0 < self.blocks@.len(),
                i <= stmts@.len(),
                self.next_spill + stmts_calls(stmts@, i as int) == old(self).next_spill
                    + stmts_calls(stmts@, 0),
                stmts_calls(stmts@, 0) <= old(self).spills_left(),
                old(self).next_spill <= old(self).spills@.len(),
                loops@ == old(loops)@,
                loops_below(loops@, self.blocks@.len() as nat),
                loops@.len() > 0 || !stmts_free_jump(stmts@, i as int),
            decreases stmts@.len() - i,
        {
            proof {
                vstd::std_specs::vec::axiom_vec_index_decreases(*stmts, i as int);
                assert(stmts_calls(stmts@, i as int) == stmt_calls(stmts@[i as int])
                    + stmts_calls(stmts@, i + 1));
                assert(stmts_free_jump(stmts@, i as int) == (stmt_free_jump(stmts@[i as int])
                    || stmts_free_jump(stmts@, i + 1)));
            }
            current = self.lower_stmt(&stmts[i], current, loops);
            i = i + 1;
        }
        current
    }

    /// Lowers `while cond { body }` from `current`: a condition block that branches to the
    /// body block or past the loop, with `continue` going back to the condition and `break`
    /// past the loop.
    #[verifier::spinoff_prover]
    fn lower_while(
        &mut self,
        cond: &ResolvedExpr,
        body: &Vec<ResolvedStmt>,
        current: BlockId,
        loops: &mut Vec<LoopTargets>,
    ) -> (r: BlockId)
        requires
            old(self).inv(),
            current.0 < old(self).blocks@.len(),
            expr_calls(*cond) + stmts_calls(body@, 0) <= old(self).spills_left(),
            loops_below(old(loops)@, old(self).blocks@.len() as nat),
        ensures
            final(self).grows(old(self)),
            r.0 < final(self).blocks@.len(),
            final(self).next_spill == old(self).next_spill + expr_calls(*cond) + stmts_calls(body@, 0),
            final(loops)@ == old(loops)@,
            r.0 == old(self).blocks@.len() + 2,
            log_extends(final(self).jumps@, old(self).jumps@),
            jumps_fit(final(self).jumps@, old(self).jumps@.len() as int, old(loops)@),
            loop_jumps_go(
                final(self).jumps@,
                old(self).jumps@.len() as int,
                old(loops)@.len() + 1,
                old(self).blocks@.len() as usize,
                (old(self).blocks@.len() + 2) as usize,
            ),
            expr_calls(*cond) == 0 ==> (final(self).blocks@[old(self).blocks@.len() as int].terminator matches Terminator::Branch {
                then_target,
                else_target,
                ..
            } && then_target.0 == old(self).blocks@.len() + 1 && else_target.0 == old(self).blocks@.len() + 2),
        decreases body, 3nat,
    {
        let cond_block = self.new_block();
        let body_block = self.new_block();
        let after = self.new_block();
        self.set_terminator_if_open(current, Terminator::Jump(cond_block));
        let (cond_end, cond) = self.lower_expr_calls(cond_block, cond);
        self.set_terminator_if_open(
            cond_end,
            Terminator::Branch { cond, then_target: body_block, else_target: after },
        );
        let ghost outer = loops@;
        let ghost log0 = self.jumps@;
        let targets = LoopTargets { break_target: after, continue_target: cond_block };
        loops.push(targets);
        let body_end = self.lower_stmts(body, body_block, loops);
        loops.pop();
        assert(loops@ =~= outer);
        self.set_terminator_if_open(body_end, Terminator::Jump(cond_block));
        proof {
            lemma_fit_outer(self.jumps@, log0.len() as int, outer, targets);
        }
        after
    }

    #[verifier::spinoff_prover]
    #[verifier::rlimit(60)]
    fn lower_stmt(&mut self, stmt: &ResolvedStmt, current: BlockId, loops: &mut Vec<LoopTargets>) -> (r: BlockId)
        requires
            old(self).inv(),
            current.0 < old(self).blocks@.len(),
            stmt_calls(*stmt) <= old(self).spills_left(),
            loops_below(old(loops)@, old(self).blocks@.len() as nat),
            old(loops)@.len() > 0 || !stmt_free_jump(*stmt),
        ensures
            final(self).grows(old(self)),
            r.0 < final(self).blocks@.len(),
            final(self).next_spill == old(self).next_spill + stmt_calls(*stmt),
            final(loops)@ == old(loops)@,
            simple_lowered(*stmt) ==> r == current && one_op_pushed(
                old(self).blocks@,
                final(self).blocks@,
                current.0 as int,
            ) && lowers_to_op(*stmt, final(self).blocks@[current.0 as int].ops@.last()),
            *stmt is Break || *stmt is Continue ==> r.0 == old(self).blocks@.len(),
            *stmt is Return ==> r.0 >= old(self).blocks@.len(),
            *stmt is While ==> r.0 == old(self).blocks@.len() + 2,
            *stmt is Loop ==> r.0 == old(self).blocks@.len() + 1,
            *stmt is If ==> r.0 >= old(self).blocks@.len() + 2,
            *stmt is For ==> r.0 >= old(self).blocks@.len() + 3,
            log_extends(final(self).jumps@, old(self).jumps@),
            jumps_fit(final(self).jumps@, old(self).jumps@.len() as int, old(loops)@),
            *stmt is While ==> loop_jumps_go(
                final(self).jumps@,
                old(self).jumps@.len() as int,
                old(loops)@.len() + 1,
                old(self).blocks@.len() as usize,
                (old(self).blocks@.len() + 2) as usize,
            ),
            *stmt is Let || *stmt is Assign || *stmt is ArraySet ==> final(self).jumps@ == old(self).jumps@,
            *stmt matches ResolvedStmt::While { cond, .. } ==> (expr_calls(cond) == 0 ==> (final(self).blocks@[old(
                self,
            ).blocks@.len() as int].terminator matches Terminator::Branch { then_target, else_target, .. }
                && then_target.0 == old(self).blocks@.len() + 1 && else_target.0 == old(self).blocks@.len() + 2)),
            *stmt matches ResolvedStmt::For { init, step, .. } ==> (plain_part(init) && plain_part(step)
                ==> loop_jumps_go(
                final(self).jumps@,
                old(self).jumps@.len() as int,
                old(loops)@.len() + 1,
                (r.0 - 1) as usize,
                r.0,
            )),
            *stmt is Loop ==> loop_jumps_go(
                final(self).jumps@,
                old(self).jumps@.len() as int,
                old(loops)@.len() + 1,
                old(self).blocks@.len() as usize,
                (old(self).blocks@.len() + 1) as usize,
            ),
        decreases stmt, 1nat,
    {
        match stmt {
            ResolvedStmt::Let { cell, init } => {
                match init {
                    Some(e) => {
                        let ghost src = *e;
                        let (current, e) = self.lower_expr_calls(current, e);
                        proof {
                            if expr_calls(src) == 0 {
                                assert(Some(e) == *init);
                            }
                        }
                        self.push_op(current, Op::Let { cell: *cell, init: Some(e) });
                        current
                    },
                    None => {
                        self.push_op(current, Op::Let { cell: *cell, init: None });
                        current
                    },
                }
            },
            ResolvedStmt::LetArray { base, len, init } => {
                self.push_op(current, Op::LetArray { base: *base, len: *len, init: copy_bytes(init) });
                current
            },
            ResolvedStmt::Assign { cell, expr } => {
                let (current, expr) = self.lower_expr_calls(current, expr);
                self.push_op(current, Op::Assign { cell: *cell, expr });
                current
            },
            ResolvedStmt::ArraySet { base, len, index, expr } => {
                let (current, index) = self.lower_expr_calls(current, index);
                let (current, expr) = self.lower_expr_calls(current, expr);
                self.push_op(current, Op::ArraySet { base: *base, len: *len, index, expr });
                current
            },
            ResolvedStmt::Put(e) => {
                let (current, e) = self.lower_expr_calls(current, e);
                self.push_op(current, Op::Put(e));
                current
            },
            ResolvedStmt::Puts(bytes) => {
                self.push_op(current, Op::Puts(copy_bytes(bytes)));
                current
            },
            ResolvedStmt::Print(e) => {
                let (current, e) = self.lower_expr_calls(current, e);
                self.push_op(current, Op::Print(e));
                current
            },
            ResolvedStmt::Println(e) => {
                let (current, e) = self.lower_expr_calls(current, e);
                self.push_op(current, Op::Println(e));
                current
            },
            ResolvedStmt::Read(cell) => {
                self.push_op(current, Op::Read(*cell));
                current
            },
            ResolvedStmt::ReadArray { base, len, index } => {
                let (current, index) = self.lower_expr_calls(current, index);
                self.push_op(current, Op::ReadArray { base: *base, len: *len, index });
                current
            },
            ResolvedStmt::Call { function, args } => {
                proof {
                    assert(exprs_calls(args@, 0) <= self.spills_left());
                }
                let (current, lowered) = self.lower_args_stmt(current, args);
                let after = self.new_block();
                self.set_terminator_if_open(
                    current,
                    Terminator::Call { function: *function, args: lowered, return_target: after },
                );
                after
            },
            ResolvedStmt::Return(e) => {
                let (current, e) = self.lower_expr_calls(current, e);
                self.set_terminator_if_open(current, Terminator::Return(e));
                self.new_block()
            },
            ResolvedStmt::Break => {
                let target = loops[loops.len() - 1].break_target;
                self.set_terminator_if_open(current, Terminator::Jump(target));
                proof {
                    self.jumps@ = self.jumps@.push((false, loops@.len() as nat, target.0));
                }
                self.new_block()
            },
            ResolvedStmt::Continue => {
                let target = loops[loops.len() - 1].continue_target;
                self.set_terminator_if_open(current, Terminator::Jump(target));
                proof {
                    self.jumps@ = self.jumps@.push((true, loops@.len() as nat, target.0));
                }
                self.new_block()
            },
            ResolvedStmt::Block(body) => self.lower_stmts(body, current, loops),
            ResolvedStmt::If { cond, then_branch, else_branch } => {
                let (current, cond) = self.lower_expr_calls(current, cond);
                let then_block = self.new_block();
                let else_block = self.new_block();
                let after = self.new_block();
                self.set_terminator_if_open(
                    current,
                    Terminator::Branch { cond, then_target: then_block, else_target: else_block },
                );
                let ghost log0 = self.jumps@;
                let then_end = self.lower_stmts(then_branch, then_block, loops);
                self.set_terminator_if_open(then_end, Terminator::Jump(after));
                let ghost log1 = self.jumps@;
                let else_end = self.lower_stmts(else_branch, else_block, loops);
                self.set_terminator_if_open(else_end, Terminator::Jump(after));
                proof {
                    lemma_fit_join(log1, self.jumps@, log0.len() as int, loops@);
                    lemma_log_extends_trans(log0, log1, self.jumps@);
                }
                after
            },
            ResolvedStmt::While { cond, body } => self.lower_while(cond, body, current, loops),
            ResolvedStmt::Loop { body } => {
                let body_block = self.new_block();
                let after = self.new_block();
                self.set_terminator_if_open(current, Terminator::Jump(body_block));
                let ghost outer = loops@;
                let ghost log0 = self.jumps@;
                let targets = LoopTargets { break_target: after, continue_target: body_block };
                loops.push(targets);
                let body_end = self.lower_stmts(body, body_block, loops);
                loops.pop();
                assert(loops@ =~= outer);
                self.set_terminator_if_open(body_end, Terminator::Jump(body_block));
                proof {
                    assert(outer.push(targets) =~= old(loops)@.push(targets));
                    lemma_fit_outer(self.jumps@, log0.len() as int, outer, targets);
                }
                after
            },
            ResolvedStmt::For { init, cond, step, body } => {
                let ghost log0 = self.jumps@;
                let current = match init {
                    Some(s) => self.lower_stmt(s, current, loops),
                    None => current,
                };
                let ghost log1 = self.jumps@;
                let cond_block = self.new_block();
                let body_block = self.new_block();
                let step_block = self.new_block();
                let after = self.new_block();
                self.set_terminator_if_open(current, Terminator::Jump(cond_block));
                match cond {
                    Some(c) => {
                        let (cond_end, c) = self.lower_expr_calls(cond_block, c);
                        self.set_terminator_if_open(
                            cond_end,
                            Terminator::Branch { cond: c, then_target: body_block, else_target: after },
                        );
                    },
                    None => {
                        self.set_terminator_if_open(cond_block, Terminator::Jump(body_block));
                    },
                }
                let ghost log2 = self.jumps@;
                let ghost outer = loops@;
                let targets = LoopTargets { break_target: after, continue_target: step_block };
                loops.push(targets);
                let body_end = self.lower_stmts(body, body_block, loops);
                loops.pop();
                assert(loops@ =~= outer);
                self.set_terminator_if_open(body_end, Terminator::Jump(step_block));
                let ghost log3 = self.jumps@;
                let step_end = match step {
                    Some(s) => self.lower_stmt(s, step_block, loops),
                    None => step_block,
                };
                self.set_terminator_if_open(step_end, Terminator::Jump(cond_block));
                proof {
                    assert(outer.push(targets) =~= outer.push(targets));
                    lemma_fit_outer(log3, log2.len() as int, outer, targets);
                    lemma_fit_join(log1, log3, log0.len() as int, loops@);
                    lemma_log_extends_trans(log0, log1, log3);
                    lemma_fit_join(log3, self.jumps@, log0.len() as int, loops@);
                    lemma_log_extends_trans(log0, log3, self.jumps@);
                }
                after
            },
        }
    }

    fn lower_args_stmt(&mut self, current: BlockId, args: &Vec<ResolvedExpr>) -> (r: (BlockId, Vec<ResolvedExpr>))
        requires
            old(self).inv(),
            current.0 < old(self).blocks@.len(),
            exprs_calls(args@, 0) <= old(self).spills_left(),
        ensures
            final(self).jumps@ == old(self).jumps@,
            forall|k: int| 0 <= k < r.1@.len() ==> expr_calls(#[trigger] r.1@[k]) == 0,
            final(self).grows(old(self)),
            r.0.0 < final(self).blocks@.len(),
            final(self).next_spill == old(self).next_spill + exprs_calls(args@, 0),
    {
        let mut current = current;
        let mut lowered: Vec<ResolvedExpr> = Vec::new();
        let mut i: usize = 0;
        while i < args.len()
            invariant
                self.jumps@ == old(self).jumps@,
                forall|k: int| 0 <= k < lowered@.len() ==> expr_calls(#[trigger] lowered@[k]) == 0,
                self.grows(old(self)),
                current.0 < self.blocks@.len(),
                i <= args@.len(),
                self.next_spill + exprs_calls(args@, i as int) == old(self).next_spill
                    + exprs_calls(args@, 0),
                exprs_calls(args@, 0) <= old(self).spills_left(),
                old(self).next_spill <= old(self).spills@.len(),
            decreases args@.len() - i,
        {
            proof {
                assert(exprs_calls(args@, i as int) == expr_calls(args@[i as int]) + exprs_calls(
                    args@,
                    i + 1,
                ));
                assert(self.spills@ == old(self).spills@);
            }
            let (next, arg) = self.lower_expr_calls(current, &args[i]);
            current = next;
            lowered.push(arg);
            i = i + 1;
        }
        (current, lowered)
    }
}

fn copy_bytes(v: &Vec<u8>) -> (r: Vec<u8>)
    ensures
        r@ == v@,
{
    let mut r: Vec<u8> = Vec::new();
    let mut i: usize = 0;
    while i < v.len()
        invariant
            i <= v@.len(),
            r@ == v@.take(i as int),
        decreases v@.len() - i,
    {
        r.push(v[i]);
        assert(v@.take(i + 1) =~= v@.take(i as int).push(v@[i as int]));
        i = i + 1;
    }
    assert(v@.take(v@.len() as int) =~= v@);
    r
}

/// Lowers a resolved program to basic blocks: one entry block per function, then the
/// top-level program's entry; every call inside an expression gets its own result cell.
pub fn lower(program: &ResolvedProgram) -> (p: Program)
    requires
        lowerable(*program),
    ensures
        well_formed(p),
        p.function_entries@.len() == program.functions@.len(),
        forall|k: int| 0 <= k < p.function_entries@.len() ==> (#[trigger] p.function_entries@[k]).0 == k,
        p.entry.0 == program.functions@.len(),
        forall|b: int| 0 <= b < p.blocks@.len() ==> block_call_free(#[trigger] p.blocks@[b]),
        program.functions@.len() == 0 && program.stmts@.len() == 0 ==> p.blocks@.len() == 1
            && p.blocks@[0].ops@.len() == 0 && p.blocks@[0].terminator is Halt,
{
    let mut builder = Builder::new(copy_usizes(&program.spills));
    let mut function_entries: Vec<BlockId> = Vec::new();
    let mut i: usize = 0;
    while i < program.functions.len()
        invariant
            builder.inv(),
            builder.next_spill == 0,
            builder.spills@ == program.spills@,
            builder.blocks@.len() == i,
            function_entries@.len() == i,
            i <= program.functions@.len(),
            forall|k: int| 0 <= k < i ==> (#[trigger] function_entries@[k]).0 < builder.blocks@.len(),
            forall|k: int| 0 <= k < i ==> (#[trigger] function_entries@[k]).0 == k,
        decreases program.functions@.len() - i,
    {
        function_entries.push(builder.new_block());
        i = i + 1;
    }
    let entry = builder.new_block();
    let mut loops: Vec<LoopTargets> = Vec::new();
    let end = builder.lower_stmts(&program.stmts, entry, &mut loops);
    builder.set_terminator_if_open(end, Terminator::Halt);
    let mut k: usize = 0;
    while k < program.functions.len()
        invariant
            builder.inv(),
            builder.spills@ == program.spills@,
            lowerable(*program),
            k <= program.functions@.len(),
            function_entries@.len() == program.functions@.len(),
            builder.next_spill + functions_calls(program.functions@, k as int) <= builder.spills@.len(),
            entry.0 < builder.blocks@.len(),
            forall|j: int|
                0 <= j < function_entries@.len() ==> (#[trigger] function_entries@[j]).0
                    < builder.blocks@.len(),
            forall|j: int| 0 <= j < function_entries@.len() ==> (#[trigger] function_entries@[j]).0 == j,
            entry.0 == program.functions@.len(),
            program.functions@.len() == 0 && program.stmts@.len() == 0 ==> builder.blocks@.len() == 1
                && builder.blocks@[0].ops@.len() == 0 && builder.blocks@[0].terminator is Halt,
        decreases program.functions@.len() - k,
    {
        let f = &program.functions[k];
        proof {
            assert(functions_calls(program.functions@, k as int) == stmts_calls(
                program.functions@[k as int].body@,
                0,
            ) + functions_calls(program.functions@, k + 1));
            assert(!stmts_free_jump(program.functions@[k as int].body@, 0));
        }
        let mut loops: Vec<LoopTargets> = Vec::new();
        let end = builder.lower_stmts(&f.body, function_entries[k], &mut loops);
        builder.set_terminator_if_open(end, Terminator::Return(ResolvedExpr::Byte(0)));
        k = k + 1;
    }
    Program { blocks: builder.blocks, entry, function_entries }
}

fn copy_usizes(v: &Vec<usize>) -> (r: Vec<usize>)
    ensures
        r@ == v@,
{
    let mut r: Vec<usize> = Vec::new();
    let mut i: usize = 0;
    while i < v.len()
        invariant
            i <= v@.len(),
            r@ == v@.take(i as int),
        decreases v@.len() - i,
    {
        r.push(v[i]);
        assert(v@.take(i + 1) =~= v@.take(i as int).push(v@[i as int]));
        i = i + 1;
    }
    assert(v@.take(v@.len() as int) =~= v@);
    r
}
} // verus!
