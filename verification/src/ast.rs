use vstd::prelude::*;
use crate::diagnostic::Span;

verus! {

#[derive(Debug, PartialEq, Eq)]
pub struct Program {
    pub functions: Vec<Function>,
    pub stmts: Vec<Stmt>,
}

#[derive(Debug, PartialEq, Eq)]
pub struct Function {
    pub name: String,
    pub name_span: Span,
    pub params: Vec<Param>,
    pub return_type: ReturnType,
    pub body: Vec<Stmt>,
    pub span: Span,
}

#[derive(Debug, Clone, Copy, PartialEq, Eq, Structural)]
pub enum ReturnType {
    Void,
    Byte,
}

#[derive(Debug, Clone, PartialEq, Eq)]
pub struct Param {
    pub name: String,
    pub name_span: Span,
}

/// How the length of an array declaration is given.
#[derive(Debug, PartialEq, Eq)]
pub enum ArrayLen {
    /// `let name: byte[expr]`: a constant expression.
    Explicit(Expr),
    /// `let name = [..]` or `let name = ".."`: the initializer's length.
    Inferred(usize),
}

/// One piece of a formatted `print` string.
#[derive(Debug, Clone, PartialEq, Eq)]
pub enum FormatSegment {
    /// Bytes written as they are.
    Literal(Vec<u8>),
    /// `{}` or `{:d}`: the next argument as decimal text.
    Decimal,
    /// `{:c}`: the next argument as one raw byte.
    Byte,
}

#[derive(Debug, PartialEq, Eq)]
pub enum Stmt {
    Const { name: String, name_span: Span, expr: Expr, span: Span },
    Let { name: String, name_span: Span, init: Option<Expr>, span: Span },
    LetArray { name: String, name_span: Span, len: ArrayLen, init: Option<ArrayInit>, span: Span },
    Assign { name: String, name_span: Span, expr: Expr, span: Span },
    ArrayAssign { name: String, name_span: Span, index: Expr, expr: Expr, span: Span },
    Put(Expr, Span),
    Puts(Vec<u8>, Span),
    Print(Expr, Span),
    PrintFormat { segments: Vec<FormatSegment>, args: Vec<Expr>, span: Span },
    Println(Expr, Span),
    Read(String, Span),
    ReadArray { name: String, name_span: Span, index: Expr, span: Span },
    Call { name: String, name_span: Span, args: Vec<Expr>, span: Span },
    Return(Option<Expr>, Span),
    Break(Span),
    Continue(Span),
    Block(Vec<Stmt>, Span),
    If { cond: Expr, then_branch: Vec<Stmt>, else_branch: Vec<Stmt>, span: Span },
    While { cond: Expr, body: Vec<Stmt>, span: Span },
    Loop { body: Vec<Stmt>, span: Span },
    For {
        init: Option<Box<Stmt>>,
        cond: Option<Expr>,
        step: Option<Box<Stmt>>,
        body: Vec<Stmt>,
        span: Span,
    },
}

impl Stmt {
    /// The span recorded for the statement.
    pub open spec fn spec_span(self) -> Span {
        match self {
            Stmt::Const { span, .. } => span,
            Stmt::Let { span, .. } => span,
            Stmt::LetArray { span, .. } => span,
            Stmt::Assign { span, .. } => span,
            Stmt::ArrayAssign { span, .. } => span,
            Stmt::Put(_, span) => span,
            Stmt::Puts(_, span) => span,
            Stmt::Print(_, span) => span,
            Stmt::PrintFormat { span, .. } => span,
            Stmt::Println(_, span) => span,
            Stmt::Read(_, span) => span,
            Stmt::ReadArray { span, .. } => span,
            Stmt::Call { span, .. } => span,
            Stmt::Return(_, span) => span,
            Stmt::Break(span) => span,
            Stmt::Continue(span) => span,
            Stmt::Block(_, span) => span,
            Stmt::If { span, .. } => span,
            Stmt::While { span, .. } => span,
            Stmt::Loop { span, .. } => span,
            Stmt::For { span, .. } => span,
        }
    }
}

#[derive(Debug, PartialEq, Eq)]
pub enum ArrayInit {
    Items(Vec<Expr>),
    Bytes(Vec<u8>, Span),
}

impl ArrayInit {
    /// The span of a string initializer, or of the last list item (`0..1` for an empty list).
    pub open spec fn spec_span(self) -> Span {
        match self {
            ArrayInit::Items(items) => if items@.len() == 0 {
                Span { start: 0, end: 1 }
            } else {
                items@.last().spec_span()
            },
            ArrayInit::Bytes(_, span) => span,
        }
    }

    /// Number of bytes the initializer provides.
    pub open spec fn spec_len(self) -> nat {
        match self {
            ArrayInit::Items(items) => items@.len(),
            ArrayInit::Bytes(bytes, _) => bytes@.len(),
        }
    }

    /// The span of a string initializer, or of the last list item (`0..1` for an empty list).
    pub fn span(&self) -> (s: Span)
        ensures
            s == self.spec_span(),
    {
        match self {
            ArrayInit::Items(items) => {
                if items.len() == 0 {
                    Span::point(0)
                } else {
                    items[items.len() - 1].span()
                }
            },
            ArrayInit::Bytes(_, span) => *span,
        }
    }

    /// Number of bytes the initializer provides.
    pub fn len(&self) -> (n: usize)
        ensures
            n == self.spec_len(),
    {
        match self {
            ArrayInit::Items(items) => items.len(),
            ArrayInit::Bytes(bytes, _) => bytes.len(),
        }
    }
}

#[derive(Debug, PartialEq, Eq)]
pub enum Expr {
    Byte(u8, Span),
    Var(String, Span),
    ArrayGet { name: String, name_span: Span, index: Box<Expr>, span: Span },
    Call { name: String, name_span: Span, args: Vec<Expr>, span: Span },
    Unary { op: UnOp, expr: Box<Expr>, span: Span },
    Binary { left: Box<Expr>, op: BinOp, right: Box<Expr>, span: Span },
}

impl Expr {
    pub open spec fn spec_span(self) -> Span {
        match self {
            Expr::Byte(_, span) => span,
            Expr::Var(_, span) => span,
            Expr::ArrayGet { span, .. } => span,
            Expr::Call { span, .. } => span,
            Expr::Unary { span, .. } => span,
            Expr::Binary { span, .. } => span,
        }
    }

    /// The span recorded for the whole expression.
    pub fn span(&self) -> (s: Span)
        ensures
            s == self.spec_span(),
    {
        match self {
            Expr::Byte(_, span) => *span,
            Expr::Var(_, span) => *span,
            Expr::ArrayGet { span, .. } => *span,
            Expr::Call { span, .. } => *span,
            Expr::Unary { span, .. } => *span,
            Expr::Binary { span, .. } => *span,
        }
    }
}

#[derive(Debug, Clone, Copy, PartialEq, Eq, Structural)]
pub enum BinOp {
    Or,
    And,
    BitOr,
    BitXor,
    BitAnd,
    Shl,
    Shr,
    Add,
    Sub,
    Mul,
    Div,
    Mod,
    Eq,
    Ne,
    Lt,
    Le,
    Gt,
    Ge,
}

#[derive(Debug, Clone, Copy, PartialEq, Eq, Structural)]
pub enum UnOp {
    Not,
    BitNot,
}

/// A truth value as a byte: 1 for true, 0 for false.
pub open spec fn flag(b: bool) -> u8 {
    if b { 1 } else { 0 }
}

/// What a binary operator computes on two bytes.  Arithmetic wraps modulo 256, division by
/// zero gives 0, remainder by zero gives the dividend, shifts by 8 or more give 0, and
/// comparisons and logical operators give 0 or 1.
pub open spec fn binop_value(op: BinOp, l: u8, r: u8) -> u8 {
    match op {
        BinOp::Or => flag(l != 0 || r != 0),
        BinOp::And => flag(l != 0 && r != 0),
        BinOp::BitOr => l | r,
        BinOp::BitXor => l ^ r,
        BinOp::BitAnd => l & r,
        BinOp::Shl => if r >= 8 { 0 } else { ((l as int * pow2(r as nat)) % 256) as u8 },
        BinOp::Shr => if r >= 8 { 0 } else { (l as int / pow2(r as nat)) as u8 },
        BinOp::Add => ((l as int + r as int) % 256) as u8,
        BinOp::Sub => ((l as int - r as int + 256) % 256) as u8,
        BinOp::Mul => ((l as int * r as int) % 256) as u8,
        BinOp::Div => if r == 0 { 0 } else { (l / r) as u8 },
        BinOp::Mod => if r == 0 { l } else { (l % r) as u8 },
        BinOp::Eq => flag(l == r),
        BinOp::Ne => flag(l != r),
        BinOp::Lt => flag(l < r),
        BinOp::Le => flag(l <= r),
        BinOp::Gt => flag(l > r),
        BinOp::Ge => flag(l >= r),
    }
}

/// Two to the power `n`.
pub open spec fn pow2(n: nat) -> int
    decreases n,
{
    if n == 0 { 1 } else { 2 * pow2((n - 1) as nat) }
}

/// What a unary operator computes on a byte: `!` gives 1 for 0 and 0 otherwise,
/// `~` flips all eight bits.
pub open spec fn unop_value(op: UnOp, v: u8) -> u8 {
    match op {
        UnOp::Not => flag(v == 0),
        UnOp::BitNot => (255 - v) as u8,
    }
}

proof fn lemma_shift_values(l: u8, r: u8)
    requires
        r < 8,
    ensures
        (l << r) as int == (l as int * pow2(r as nat)) % 256,
        (l >> r) as int == l as int / pow2(r as nat),
{
    reveal_with_fuel(pow2, 9);
    assert(r == 0 || r == 1 || r == 2 || r == 3 || r == 4 || r == 5 || r == 6 || r == 7);
    if r == 0 {
        assert(l << 0u8 == l && l >> 0u8 == l) by (bit_vector);
    } else if r == 1 {
        assert((l << 1u8) as int == (l as int * 2) % 256 && (l >> 1u8) as int == l as int / 2)
            by (bit_vector);
    } else if r == 2 {
        assert((l << 2u8) as int == (l as int * 4) % 256 && (l >> 2u8) as int == l as int / 4)
            by (bit_vector);
    } else if r == 3 {
        assert((l << 3u8) as int == (l as int * 8) % 256 && (l >> 3u8) as int == l as int / 8)
            by (bit_vector);
    } else if r == 4 {
        assert((l << 4u8) as int == (l as int * 16) % 256 && (l >> 4u8) as int == l as int / 16)
            by (bit_vector);
    } else if r == 5 {
        assert((l << 5u8) as int == (l as int * 32) % 256 && (l >> 5u8) as int == l as int / 32)
            by (bit_vector);
    } else if r == 6 {
        assert((l << 6u8) as int == (l as int * 64) % 256 && (l >> 6u8) as int == l as int / 64)
            by (bit_vector);
    } else {
        assert((l << 7u8) as int == (l as int * 128) % 256 && (l >> 7u8) as int == l as int
            / 128) by (bit_vector);
    }
}

/// Bit `i` (from the lowest, 0 to 7) of a byte is set.
pub open spec fn bit(x: u8, i: u8) -> bool {
    (x >> i) & 1u8 == 1u8
}

/// What each binary operator computes on two bytes, stated without the operator itself:
/// the bitwise operators bit by bit, the shifts by moving bits, the arithmetic operators
/// modulo 256 (division and remainder through the division identity, division by zero
/// giving 0 and leaving the remainder the dividend), comparisons and logic as 0 or 1.
pub proof fn law_binop_meaning(l: u8, r: u8)
    ensures
        forall|i: u8| i < 8 ==> bit(binop_value(BinOp::BitXor, l, r), i) == (bit(l, i) != bit(r, i)),
        forall|i: u8| i < 8 ==> bit(binop_value(BinOp::BitOr, l, r), i) == (bit(l, i) || bit(r, i)),
        forall|i: u8| i < 8 ==> bit(binop_value(BinOp::BitAnd, l, r), i) == (bit(l, i) && bit(r, i)),
        r < 8 ==> forall|i: u8| i < 8 ==> bit(binop_value(BinOp::Shl, l, r), i) == (i >= r && bit(l, (i - r) as u8)),
        r < 8 ==> forall|i: u8| i < 8 ==> bit(binop_value(BinOp::Shr, l, r), i) == (i + r < 8 && bit(l, (i + r) as u8)),
        r >= 8 ==> binop_value(BinOp::Shl, l, r) == 0 && binop_value(BinOp::Shr, l, r) == 0,
        (binop_value(BinOp::Add, l, r) - l - r) % 256 == 0,
        (binop_value(BinOp::Sub, l, r) + r - l) % 256 == 0,
        (binop_value(BinOp::Mul, l, r) - l * r) % 256 == 0,
        r != 0 ==> binop_value(BinOp::Div, l, r) * r + binop_value(BinOp::Mod, l, r) == l,
        r != 0 ==> binop_value(BinOp::Mod, l, r) < r,
        r == 0 ==> binop_value(BinOp::Div, l, r) == 0 && binop_value(BinOp::Mod, l, r) == l,
        binop_value(BinOp::Eq, l, r) == 1 <==> l == r,
        binop_value(BinOp::Ne, l, r) == 1 <==> l != r,
        binop_value(BinOp::Lt, l, r) == 1 <==> l < r,
        binop_value(BinOp::Le, l, r) == 1 <==> l <= r,
        binop_value(BinOp::Gt, l, r) == 1 <==> l > r,
        binop_value(BinOp::Ge, l, r) == 1 <==> l >= r,
        binop_value(BinOp::And, l, r) == 1 <==> (l != 0 && r != 0),
        binop_value(BinOp::Or, l, r) == 1 <==> (l != 0 || r != 0),
        forall|op: BinOp| #![auto] is_test(op) ==> binop_value(op, l, r) <= 1,
{
    assert forall|i: u8| i < 8 implies bit(l ^ r, i) == (bit(l, i) != bit(r, i)) by {
        assert(((l ^ r) >> i) & 1u8 == 1u8 <==> (((l >> i) & 1u8 == 1u8) != ((r >> i) & 1u8 == 1u8)))
            by (bit_vector);
    }
    assert forall|i: u8| i < 8 implies bit(l | r, i) == (bit(l, i) || bit(r, i)) by {
        assert(((l | r) >> i) & 1u8 == 1u8 <==> (((l >> i) & 1u8 == 1u8) || ((r >> i) & 1u8 == 1u8)))
            by (bit_vector);
    }
    assert forall|i: u8| i < 8 implies bit(l & r, i) == (bit(l, i) && bit(r, i)) by {
        assert(((l & r) >> i) & 1u8 == 1u8 <==> (((l >> i) & 1u8 == 1u8) && ((r >> i) & 1u8 == 1u8)))
            by (bit_vector);
    }
    if r < 8 {
        lemma_shift_values(l, r);
        assert((l << r) as int == binop_value(BinOp::Shl, l, r) as int);
        assert((l >> r) as int == binop_value(BinOp::Shr, l, r) as int);
        assert forall|i: u8| i < 8 implies bit(l << r, i) == (i >= r && bit(l, (i - r) as u8)) by {
            assert(r < 8 && i < 8 ==> (((l << r) >> i) & 1u8 == 1u8 <==> (i >= r && (l >> ((i - r) as u8))
                & 1u8 == 1u8))) by (bit_vector);
        }
        assert forall|i: u8| i < 8 implies bit(l >> r, i) == (i + r < 8 && bit(l, (i + r) as u8)) by {
            assert(r < 8 && i < 8 ==> (((l >> r) >> i) & 1u8 == 1u8 <==> (i + r < 8 && (l >> ((i + r) as u8))
                & 1u8 == 1u8))) by (bit_vector);
        }
    }
    if r != 0 {
        assert((l / r) * r + l % r == l) by (nonlinear_arith)
            requires
                r != 0,
        ;
    }
}

/// What each unary operator computes on a byte, stated without the operator itself: `~`
/// flips every one of the eight bits, `!` gives 1 exactly for 0 (and 0 otherwise).
pub proof fn law_unop_meaning(v: u8)
    ensures
        forall|i: u8| i < 8 ==> bit(unop_value(UnOp::BitNot, v), i) == !bit(v, i),
        unop_value(UnOp::Not, v) == 1 <==> v == 0,
        unop_value(UnOp::Not, v) <= 1,
{
    let w = unop_value(UnOp::BitNot, v);
    assert(w == 255u8 - v);
    assert forall|i: u8| i < 8 implies bit(w, i) == !bit(v, i) by {
        assert(i < 8 ==> (((255u8 - v) as u8 >> i) & 1u8 == 1u8 <==> !((v >> i) & 1u8 == 1u8)))
            by (bit_vector);
    }
}

/// The operators whose value is a truth value, 0 or 1.
pub open spec fn is_test(op: BinOp) -> bool {
    op is Eq || op is Ne || op is Lt || op is Le || op is Gt || op is Ge || op is And || op is Or
}

/// Applies a binary operator to two bytes.
pub fn apply_binop(op: BinOp, l: u8, r: u8) -> (v: u8)
    ensures
        v == binop_value(op, l, r),
{
    match op {
        BinOp::Or => if l != 0 || r != 0 { 1 } else { 0 },
        BinOp::And => if l != 0 && r != 0 { 1 } else { 0 },
        BinOp::BitOr => l | r,
        BinOp::BitXor => l ^ r,
        BinOp::BitAnd => l & r,
        BinOp::Shl => {
            if r >= 8 {
                0
            } else {
                proof {
                    lemma_shift_values(l, r);
                }
                l << r
            }
        },
        BinOp::Shr => {
            if r >= 8 {
                0
            } else {
                proof {
                    lemma_shift_values(l, r);
                }
                l >> r
            }
        },
        BinOp::Add => l.wrapping_add(r),
        BinOp::Sub => l.wrapping_sub(r),
        BinOp::Mul => l.wrapping_mul(r),
        BinOp::Div => if r == 0 { 0 } else { l / r },
        BinOp::Mod => if r == 0 { l } else { l % r },
        BinOp::Eq => if l == r { 1 } else { 0 },
        BinOp::Ne => if l != r { 1 } else { 0 },
        BinOp::Lt => if l < r { 1 } else { 0 },
        BinOp::Le => if l <= r { 1 } else { 0 },
        BinOp::Gt => if l > r { 1 } else { 0 },
        BinOp::Ge => if l >= r { 1 } else { 0 },
    }
}

/// Applies a unary operator to a byte.
pub fn apply_unop(op: UnOp, v: u8) -> (r: u8)
    ensures
        r == unop_value(op, v),
{
    match op {
        UnOp::Not => if v == 0 { 1 } else { 0 },
        UnOp::BitNot => {
            assert(!v == (255 - v) as u8) by (bit_vector);
            !v
        },
    }
}

} // verus!
