//! The grammar of Sane as relations between a stretch of tokens and the tree it spells.
//!
//! `x_at(t, i, j, ..)` says that tokens `i..j` of `t` spell the given tree, spans included.
//! Binary operators associate to the left and bind by the levels of `binop_level`.
use vstd::prelude::*;
use crate::ast::{ArrayInit, ArrayLen, BinOp, Expr, Function, Param, ReturnType, Stmt, UnOp};
use crate::diagnostic::Span;
use crate::lexer::{op_kind, Token, TokenKind};
use crate::parser::{format_pieces, group_pieces, placeholder_count, segment_views};

verus! {

/// The binary operator a token stands for inside an expression.
pub open spec fn binop_of(k: TokenKind) -> Option<BinOp> {
    match k {
        TokenKind::OrOr => Some(BinOp::Or),
        TokenKind::AndAnd => Some(BinOp::And),
        TokenKind::Pipe => Some(BinOp::BitOr),
        TokenKind::Caret => Some(BinOp::BitXor),
        TokenKind::Amp => Some(BinOp::BitAnd),
        TokenKind::EqEq => Some(BinOp::Eq),
        TokenKind::BangEq => Some(BinOp::Ne),
        TokenKind::Lt => Some(BinOp::Lt),
        TokenKind::LtEq => Some(BinOp::Le),
        TokenKind::Gt => Some(BinOp::Gt),
        TokenKind::GtEq => Some(BinOp::Ge),
        TokenKind::Shl => Some(BinOp::Shl),
        TokenKind::Shr => Some(BinOp::Shr),
        TokenKind::Plus => Some(BinOp::Add),
        TokenKind::Minus => Some(BinOp::Sub),
        TokenKind::Star => Some(BinOp::Mul),
        TokenKind::Slash => Some(BinOp::Div),
        TokenKind::Percent => Some(BinOp::Mod),
        _ => None,
    }
}

/// How the language spells each binary operator.
pub open spec fn operator_spelling(op: BinOp) -> Seq<char> {
    match op {
        BinOp::Or => "||"@,
        BinOp::And => "&&"@,
        BinOp::BitOr => "|"@,
        BinOp::BitXor => "^"@,
        BinOp::BitAnd => "&"@,
        BinOp::Eq => "=="@,
        BinOp::Ne => "!="@,
        BinOp::Lt => "<"@,
        BinOp::Le => "<="@,
        BinOp::Gt => ">"@,
        BinOp::Ge => ">="@,
        BinOp::Shl => "<<"@,
        BinOp::Shr => ">>"@,
        BinOp::Add => "+"@,
        BinOp::Sub => "-"@,
        BinOp::Mul => "*"@,
        BinOp::Div => "/"@,
        BinOp::Mod => "%"@,
    }
}

/// The bytes of an ASCII spelling.
pub open spec fn ascii_bytes(s: Seq<char>) -> Seq<u8> {
    s.map_values(|c: char| c as u8)
}

/// Each operator's spelling lexes to a token that the parser reads as that very operator,
/// and a token the parser reads as an operator is the one that operator's spelling lexes
/// to: `>=` is `Ge`, `>` is `Gt`, and so on for every operator.
pub proof fn law_operator_tokens(op: BinOp, k: TokenKind)
    ensures
        op_kind(ascii_bytes(operator_spelling(op))) matches Some(t) && binop_of(t) == Some(op),
        binop_of(k) matches Some(o) ==> op_kind(ascii_bytes(operator_spelling(o))) == Some(k),
{
    reveal_strlit("||");
    reveal_strlit("&&");
    reveal_strlit("|");
    reveal_strlit("^");
    reveal_strlit("&");
    reveal_strlit("==");
    reveal_strlit("!=");
    reveal_strlit("<");
    reveal_strlit("<=");
    reveal_strlit(">");
    reveal_strlit(">=");
    reveal_strlit("<<");
    reveal_strlit(">>");
    reveal_strlit("+");
    reveal_strlit("-");
    reveal_strlit("*");
    reveal_strlit("/");
    reveal_strlit("%");
    match op {
        BinOp::Or => {},
        BinOp::And => {},
        BinOp::BitOr => {},
        BinOp::BitXor => {},
        BinOp::BitAnd => {},
        BinOp::Eq => {},
        BinOp::Ne => {},
        BinOp::Lt => {},
        BinOp::Le => {},
        BinOp::Gt => {},
        BinOp::Ge => {},
        BinOp::Shl => {},
        BinOp::Shr => {},
        BinOp::Add => {},
        BinOp::Sub => {},
        BinOp::Mul => {},
        BinOp::Div => {},
        BinOp::Mod => {},
    }
}

/// The row of the language's precedence table an operator stands in, from the tightest
/// binding (`*`, `/`, `%` in row 3, after parentheses and the unary operators) to the
/// loosest (`||` in row 11).
pub open spec fn precedence_row(op: BinOp) -> nat {
    if op is Mul || op is Div || op is Mod {
        3
    } else if op is Add || op is Sub {
        4
    } else if op is Shl || op is Shr {
        5
    } else if op is Eq || op is Ne || op is Lt || op is Le || op is Gt || op is Ge {
        6
    } else if op is BitAnd {
        7
    } else if op is BitXor {
        8
    } else if op is BitOr {
        9
    } else if op is And {
        10
    } else {
        11
    }
}

/// The parser binds operators as the precedence table orders them: of two operators, the
/// one in the tighter row binds tighter, and operators of one row bind alike.
pub proof fn law_precedence(a: BinOp, b: BinOp)
    ensures
        binop_level(a) < binop_level(b) <==> precedence_row(a) < precedence_row(b),
        binop_level(a) == binop_level(b) <==> precedence_row(a) == precedence_row(b),
{
}

/// How loosely a binary operator binds: 9 for `||` down to 1 for `*`, `/` and `%`.
pub open spec fn binop_level(op: BinOp) -> nat {
    match op {
        BinOp::Or => 9,
        BinOp::And => 8,
        BinOp::BitOr => 7,
        BinOp::BitXor => 6,
        BinOp::BitAnd => 5,
        BinOp::Eq | BinOp::Ne | BinOp::Lt | BinOp::Le | BinOp::Gt | BinOp::Ge => 4,
        BinOp::Shl | BinOp::Shr => 3,
        BinOp::Add | BinOp::Sub => 2,
        BinOp::Mul | BinOp::Div | BinOp::Mod => 1,
    }
}

/// The unary operator a token stands for.
pub open spec fn unop_of(k: TokenKind) -> Option<UnOp> {
    match k {
        TokenKind::Bang => Some(UnOp::Not),
        TokenKind::Tilde => Some(UnOp::BitNot),
        _ => None,
    }
}

/// How the language spells each unary operator.
pub open spec fn unary_spelling(op: UnOp) -> Seq<char> {
    match op {
        UnOp::Not => "!"@,
        UnOp::BitNot => "~"@,
    }
}

/// Each unary operator's spelling lexes to a token the parser reads as that operator, and a
/// token read as a unary operator is the one its spelling lexes to.
pub proof fn law_unary_tokens(op: UnOp, k: TokenKind)
    ensures
        op_kind(ascii_bytes(unary_spelling(op))) matches Some(t) && unop_of(t) == Some(op),
        unop_of(k) matches Some(o) ==> op_kind(ascii_bytes(unary_spelling(o))) == Some(k),
{
    reveal_strlit("!");
    reveal_strlit("~");
}

/// The assignment a token stands for: `=` plain (`Some(None)`), `op=` compound.
pub open spec fn assign_op_of(k: TokenKind) -> Option<Option<BinOp>> {
    match k {
        TokenKind::Eq => Some(None),
        TokenKind::PlusEq => Some(Some(BinOp::Add)),
        TokenKind::MinusEq => Some(Some(BinOp::Sub)),
        TokenKind::StarEq => Some(Some(BinOp::Mul)),
        TokenKind::SlashEq => Some(Some(BinOp::Div)),
        TokenKind::PercentEq => Some(Some(BinOp::Mod)),
        TokenKind::AmpEq => Some(Some(BinOp::BitAnd)),
        TokenKind::PipeEq => Some(Some(BinOp::BitOr)),
        TokenKind::CaretEq => Some(Some(BinOp::BitXor)),
        TokenKind::ShlEq => Some(Some(BinOp::Shl)),
        TokenKind::ShrEq => Some(Some(BinOp::Shr)),
        _ => None,
    }
}

/// Tokens `i..j` spell expression `e` at binding level `level`: at level 0 a unary
/// expression or a primary one, at a higher level a left-leaning chain of operands of the
/// level below joined by operators of this level.
pub open spec fn expr_at(t: Seq<Token>, i: int, j: int, e: Expr, level: nat) -> bool
    decreases j - i, level,
{
    if !(0 <= i < j <= t.len()) {
        false
    } else if level > 0 {
        ||| expr_at(t, i, j, e, (level - 1) as nat)
        ||| e matches Expr::Binary { left, op, right, span } && binop_level(op) == level && span
            == left.spec_span().join_spec(right.spec_span()) && exists|k: int|
            i < k && k < j - 1 && #[trigger] binop_of(t[k].kind) == Some(op) && expr_at(
                t,
                i,
                k,
                *left,
                level,
            ) && expr_at(t, k + 1, j, *right, (level - 1) as nat)
    } else {
        ||| e matches Expr::Unary { op, expr, span } && unop_of(t[i].kind) == Some(op) && span
            == t[i].span.join_spec(expr.spec_span()) && expr_at(t, i + 1, j, *expr, 0)
        ||| t[i].kind matches TokenKind::Number(n) && j == i + 1 && n <= 255 && e == Expr::Byte(
            n as u8,
            t[i].span,
        )
        ||| j == i + 1 && t[i].kind is True && e == Expr::Byte(1, t[i].span)
        ||| j == i + 1 && t[i].kind is False && e == Expr::Byte(0, t[i].span)
        ||| t[i].kind matches TokenKind::Ident(n) && j == i + 1 && e == Expr::Var(n, t[i].span)
        ||| t[i].kind matches TokenKind::Ident(n) && i + 3 <= j && t[i + 1].kind is LParen && t[j
            - 1].kind is RParen && (e matches Expr::Call { name, name_span, args, span } && name
            == n && name_span == t[i].span && if j == i + 3 {
            args@.len() == 0 && span == t[i].span.join_spec(t[i].span)
        } else {
            span == t[i].span.join_spec(t[j - 1].span) && args_at(t, i + 2, j - 1, args@)
        })
        ||| t[i].kind matches TokenKind::Ident(n) && i + 4 <= j && t[i + 1].kind is LBracket
            && t[j - 1].kind is RBracket && (e matches Expr::ArrayGet {
            name,
            name_span,
            index,
            span,
        } && name == n && name_span == t[i].span && span == t[i].span.join_spec(t[j - 1].span)
            && expr_at(t, i + 2, j - 1, *index, 9))
        ||| i + 3 <= j && t[i].kind is LParen && t[j - 1].kind is RParen && expr_at(
            t,
            i + 1,
            j - 1,
            e,
            9,
        )
    }
}

/// The span of a call spelled by tokens `i..j`: from the name to the `)`, or the name's
/// alone for a call without arguments.
pub open spec fn call_span(t: Seq<Token>, i: int, j: int) -> Span {
    if j == i + 3 {
        t[i].span.join_spec(t[i].span)
    } else {
        t[i].span.join_spec(t[j - 1].span)
    }
}

/// `k` is a position in the token stream: a place where a stretch of tokens may split.
pub open spec fn pos(t: Seq<Token>, k: int) -> bool {
    0 <= k <= t.len()
}

/// Token `k` is a comma.
pub open spec fn comma_at(t: Seq<Token>, k: int) -> bool {
    0 <= k < t.len() && t[k].kind is Comma
}

/// Tokens `i..j` spell a non-empty list of expressions separated by commas.
pub open spec fn args_at(t: Seq<Token>, i: int, j: int, args: Seq<Expr>) -> bool
    decreases j - i, 10nat,
{
    if !(0 <= i < j <= t.len()) || args.len() == 0 {
        false
    } else if args.len() == 1 {
        expr_at(t, i, j, args[0], 9)
    } else {
        exists|k: int|
            i < k && k < j - 1 && #[trigger] comma_at(t, k) && args_at(t, i, k, args.drop_last())
                && expr_at(t, k + 1, j, args.last(), 9)
    }
}

/// Two expression trees with the same operators, names, values and spans.
pub open spec fn same_expr(a: Expr, b: Expr) -> bool
    decreases a,
{
    match a {
        Expr::Byte(v, sp) => b == Expr::Byte(v, sp),
        Expr::Var(n, sp) => b == Expr::Var(n, sp),
        Expr::ArrayGet { name, name_span, index, span } => b matches Expr::ArrayGet {
            name: n2,
            name_span: ns2,
            index: i2,
            span: s2,
        } && n2 == name && ns2 == name_span && s2 == span && same_expr(*index, *i2),
        Expr::Call { name, name_span, args, span } => b matches Expr::Call {
            name: n2,
            name_span: ns2,
            args: a2,
            span: s2,
        } && n2 == name && ns2 == name_span && s2 == span && a2@.len() == args@.len() && forall|k: int|
            0 <= k < args@.len() ==> same_expr(#[trigger] args@[k], a2@[k]),
        Expr::Unary { op, expr, span } => b matches Expr::Unary { op: o2, expr: e2, span: s2 }
            && o2 == op && s2 == span && same_expr(*expr, *e2),
        Expr::Binary { left, op, right, span } => b matches Expr::Binary {
            left: l2,
            op: o2,
            right: r2,
            span: s2,
        } && o2 == op && s2 == span && same_expr(*left, *l2) && same_expr(*right, *r2),
    }
}

/// Where a statement that may lack its `;` ends: on the `;` when `semi`, else at `j`.
pub open spec fn stmt_end(j: int, semi: bool) -> int {
    if semi {
        j - 1
    } else {
        j
    }
}

/// The statement closes at `j` as asked: on a `;` when `semi`.
pub open spec fn closes(t: Seq<Token>, j: int, semi: bool) -> bool {
    semi ==> 1 <= j <= t.len() && t[j - 1].kind is Semi
}

/// The span a statement's span runs to: that of its `;`, or `last` without one.
pub open spec fn end_span(t: Seq<Token>, j: int, semi: bool, last: Span) -> Span {
    if semi {
        t[j - 1].span
    } else {
        last
    }
}

/// Tokens `i..j` spell an array initializer: a string literal, or a bracketed list of
/// expressions, possibly empty, possibly with a trailing comma.
pub open spec fn array_init_at(t: Seq<Token>, i: int, j: int, init: ArrayInit) -> bool {
    &&& 0 <= i < j <= t.len()
    &&& match init {
        ArrayInit::Bytes(bytes, span) => t[i].kind matches TokenKind::StringLit(b) && j == i + 1
            && bytes@ == b@ && span == t[i].span,
        ArrayInit::Items(items) => t[i].kind is LBracket && t[j - 1].kind is RBracket && if items@.len()
            == 0 {
            j == i + 2
        } else {
            args_at(t, i + 1, j - 1, items@) || (t[j - 2].kind is Comma && args_at(
                t,
                i + 1,
                j - 2,
                items@,
            ))
        },
    }
}

/// Tokens `i..j` spell `let name: byte[len] (= init)?`, closed as `semi` asks.
pub open spec fn let_array_at(t: Seq<Token>, i: int, j: int, s: Stmt, semi: bool) -> bool {
    &&& 0 <= i && i + 5 < j <= t.len()
    &&& closes(t, j, semi)
    &&& t[i].kind is Let
    &&& t[i + 1].kind matches TokenKind::Ident(n) && t[i + 2].kind is Colon && t[i + 3].kind is ByteTy
        && t[i + 4].kind is LBracket && (s matches Stmt::LetArray { name, name_span, len, init, span }
        && name == n && name_span == t[i + 1].span && (len matches ArrayLen::Explicit(le) && exists|
        k: int|
        #[trigger] expr_at(t, i + 5, k, le, 9) && k < stmt_end(j, semi) && t[k].kind is RBracket
            && match init {
            None => stmt_end(j, semi) == k + 1 && span == t[i].span.join_spec(
                end_span(t, j, semi, le.spec_span()),
            ),
            Some(a) => t[k + 1].kind is Eq && array_init_at(t, k + 2, stmt_end(j, semi), a)
                && span == t[i].span.join_spec(end_span(t, j, semi, a.spec_span())),
        }))
}

/// Tokens `i..j` spell `let name = init` with a list or string initializer that is not an
/// empty list: an array whose length is that of the initializer.
pub open spec fn let_inferred_at(t: Seq<Token>, i: int, j: int, s: Stmt, semi: bool) -> bool {
    &&& 0 <= i && i + 3 < j <= t.len()
    &&& closes(t, j, semi)
    &&& t[i].kind is Let
    &&& t[i + 1].kind matches TokenKind::Ident(n) && t[i + 2].kind is Eq && (s matches Stmt::LetArray {
        name,
        name_span,
        len,
        init,
        span,
    } && name == n && name_span == t[i + 1].span && (init matches Some(a) && array_init_at(
        t,
        i + 3,
        stmt_end(j, semi),
        a,
    ) && !(a matches ArrayInit::Items(items) && items@.len() == 0) && len == ArrayLen::Inferred(
        a.spec_len() as usize,
    ) && span == t[i].span.join_spec(end_span(t, j, semi, a.spec_span()))))
}

/// Tokens `i..j` spell a byte declaration: `let name: byte (= expr)?` or `let name = expr`.
pub open spec fn let_scalar_at(t: Seq<Token>, i: int, j: int, s: Stmt, semi: bool) -> bool {
    &&& 0 <= i && i + 2 <= j <= t.len()
    &&& closes(t, j, semi)
    &&& t[i].kind is Let
    &&& t[i + 1].kind matches TokenKind::Ident(n) && (s matches Stmt::Let { name, name_span, init, span }
        && name == n && name_span == t[i + 1].span && ({
        ||| t[i + 2].kind is Colon && t[i + 3].kind is ByteTy && !(t[i + 4].kind is LBracket)
            && match init {
            None => stmt_end(j, semi) == i + 4 && span == t[i].span.join_spec(
                end_span(t, j, semi, name_span),
            ),
            Some(e) => t[i + 4].kind is Eq && expr_at(t, i + 5, stmt_end(j, semi), e, 9) && span
                == t[i].span.join_spec(end_span(t, j, semi, e.spec_span())),
        }
        ||| t[i + 2].kind is Eq && (init matches Some(e) && expr_at(t, i + 3, stmt_end(j, semi), e, 9)
            && span == t[i].span.join_spec(end_span(t, j, semi, e.spec_span())))
    }))
}

/// Tokens `i..j` spell a `let` statement.
pub open spec fn let_at(t: Seq<Token>, i: int, j: int, s: Stmt, semi: bool) -> bool {
    ||| let_array_at(t, i, j, s, semi)
    ||| let_inferred_at(t, i, j, s, semi)
    ||| let_scalar_at(t, i, j, s, semi)
}

/// The value a (possibly compound) assignment of `name` stores, spelled by tokens `i..j`:
/// the right-hand side itself for `=`, else `target op rhs`.
pub open spec fn assigned_at(
    t: Seq<Token>,
    i: int,
    j: int,
    op: Option<BinOp>,
    target_ok: spec_fn(Expr) -> bool,
    name_span: Span,
    expr: Expr,
) -> bool {
    match op {
        None => expr_at(t, i, j, expr, 9),
        Some(bop) => expr matches Expr::Binary { left, op: o2, right, span } && o2 == bop
            && target_ok(*left) && span == name_span.join_spec(right.spec_span()) && expr_at(
            t,
            i,
            j,
            *right,
            9,
        ),
    }
}

/// The right-hand side of an assignment's stored value.
pub open spec fn assigned_rhs(op: Option<BinOp>, expr: Expr) -> Expr {
    match op {
        None => expr,
        Some(_) => match expr {
            Expr::Binary { right, .. } => *right,
            _ => expr,
        },
    }
}

/// Tokens `i..j` spell an assignment `name (op)= expr` or `name[index] (op)= expr`; a
/// compound one stores `name op expr` (or `name[index] op expr`).
pub open spec fn assign_at(t: Seq<Token>, i: int, j: int, s: Stmt, semi: bool) -> bool {
    &&& 0 <= i && i + 2 < j <= t.len()
    &&& closes(t, j, semi)
    &&& t[i].kind matches TokenKind::Ident(n) && match s {
        Stmt::Assign { name, name_span, expr, span } => name == n && name_span == t[i].span
            && !(t[i + 1].kind is LBracket) && (assign_op_of(t[i + 1].kind) matches Some(op)
            && assigned_at(
            t,
            i + 2,
            stmt_end(j, semi),
            op,
            |l: Expr| l == Expr::Var(n, t[i].span),
            name_span,
            expr,
        ) && span == name_span.join_spec(
            end_span(t, j, semi, assigned_rhs(op, expr).spec_span()),
        )),
        Stmt::ArrayAssign { name, name_span, index, expr, span } => name == n && name_span
            == t[i].span && t[i + 1].kind is LBracket && exists|k: int|
            #[trigger] expr_at(t, i + 2, k, index, 9) && k + 1 < stmt_end(j, semi) && t[k].kind is RBracket
                && (assign_op_of(t[k + 1].kind) matches Some(op) && assigned_at(
                t,
                k + 2,
                stmt_end(j, semi),
                op,
                |l: Expr|
                    l matches Expr::ArrayGet { name: ln, name_span: lns, index: li, span: ls } && ln
                        == n && lns == t[i].span && same_expr(index, *li) && ls == t[i].span.join_spec(
                        index.spec_span(),
                    ),
                name_span,
                expr,
            ) && span == name_span.join_spec(
                end_span(t, j, semi, assigned_rhs(op, expr).spec_span()),
            )),
        _ => false,
    }
}

/// Tokens `i..j` spell a statement that holds no statements: a declaration, assignment,
/// output, input, call, `return`, `break` or `continue`.
pub open spec fn simple_stmt_at(t: Seq<Token>, i: int, j: int, s: Stmt) -> bool {
    &&& 0 <= i && i + 2 <= j <= t.len()
    &&& {
        ||| let_at(t, i, j, s, true)
        ||| assign_at(t, i, j, s, true)
        ||| s matches Stmt::Const { name, name_span, expr, span } && t[i].kind is Const && (t[i
            + 1].kind matches TokenKind::Ident(n) && name == n) && name_span == t[i + 1].span
            && t[i + 2].kind is Eq && expr_at(t, i + 3, j - 1, expr, 9) && t[j - 1].kind is Semi
            && span == t[i].span.join_spec(t[j - 1].span)
        ||| s matches Stmt::Put(e, span) && t[i].kind is Put && expr_at(t, i + 1, j - 1, e, 9)
            && t[j - 1].kind is Semi && span == t[i].span.join_spec(t[j - 1].span)
        ||| s matches Stmt::Print(e, span) && t[i].kind is Print && expr_at(t, i + 1, j - 1, e, 9)
            && t[j - 1].kind is Semi && span == t[i].span.join_spec(t[j - 1].span)
        ||| s matches Stmt::Println(e, span) && t[i].kind is Println && expr_at(
            t,
            i + 1,
            j - 1,
            e,
            9,
        ) && t[j - 1].kind is Semi && span == t[i].span.join_spec(t[j - 1].span)
        ||| s matches Stmt::Puts(bytes, span) && j == i + 3 && t[i].kind is Puts && (t[i
            + 1].kind matches TokenKind::StringLit(b) && bytes@ == b@) && t[i + 2].kind is Semi
            && span == t[i].span.join_spec(t[i + 2].span)
        ||| s matches Stmt::PrintFormat { segments, args, span } && t[i].kind is Print && (t[i
            + 1].kind matches TokenKind::StringLit(b) && format_pieces(b@) matches Some(ps)
            && segment_views(segments@) == group_pieces(ps)) && placeholder_count(segments@)
            == args@.len() && t[j - 1].kind is Semi && span == t[i].span.join_spec(t[j - 1].span)
            && if args@.len() == 0 {
            j == i + 3
        } else {
            t[i + 2].kind is Comma && args_at(t, i + 3, j - 1, args@)
        }
        ||| s matches Stmt::Read(name, span) && j == i + 3 && t[i].kind is Read && (t[i
            + 1].kind matches TokenKind::Ident(n) && name == n) && span == t[i + 1].span && t[i
            + 2].kind is Semi
        ||| s matches Stmt::ReadArray { name, name_span, index, span } && t[i].kind is Read && (t[i
            + 1].kind matches TokenKind::Ident(n) && name == n) && name_span == t[i + 1].span && t[i
            + 2].kind is LBracket && expr_at(t, i + 3, j - 2, index, 9) && t[j - 2].kind is RBracket
            && t[j - 1].kind is Semi && span == t[i + 1].span.join_spec(t[j - 2].span)
        ||| s matches Stmt::Return(e, span) && t[i].kind is Return && t[j - 1].kind is Semi && span
            == t[i].span.join_spec(t[j - 1].span) && match e {
            None => j == i + 2,
            Some(x) => expr_at(t, i + 1, j - 1, x, 9),
        }
        ||| s matches Stmt::Break(span) && j == i + 2 && t[i].kind is Break && t[i + 1].kind is Semi
            && span == t[i].span.join_spec(t[i + 1].span)
        ||| s matches Stmt::Continue(span) && j == i + 2 && t[i].kind is Continue && t[i
            + 1].kind is Semi && span == t[i].span.join_spec(t[i + 1].span)
        ||| s matches Stmt::Call { name, name_span, args, span } && t[j - 1].kind is Semi && expr_at(
            t,
            i,
            j - 1,
            Expr::Call { name, name_span, args, span: call_span(t, i, j - 1) },
            0,
        ) && span == call_span(t, i, j - 1).join_spec(t[j - 1].span)
    }
}

/// Tokens `i..r` spell the head of a `for` statement: `for`, an optional initializer and an
/// optional condition, each closed by `;`, and an optional step, up to the body's `{`;
/// the initializer ends at `p`, the condition at `q`.
pub open spec fn for_head_at(
    t: Seq<Token>,
    i: int,
    p: int,
    q: int,
    r: int,
    init: Option<Box<Stmt>>,
    cond: Option<Expr>,
    step: Option<Box<Stmt>>,
) -> bool {
    &&& 0 <= i < p <= q <= r < t.len()
    &&& t[i].kind is For
    &&& t[r].kind is LBrace
    &&& match init {
        None => p == i + 2 && t[i + 1].kind is Semi,
        Some(b) => t[p - 1].kind is Semi && ((t[i + 1].kind is Let && let_at(t, i + 1, p - 1, *b, false))
            || assign_at(t, i + 1, p - 1, *b, false)),
    }
    &&& match cond {
        None => q == p + 1 && t[p].kind is Semi,
        Some(c) => t[q - 1].kind is Semi && expr_at(t, p, q - 1, c, 9),
    }
    &&& match step {
        None => r == q,
        Some(b) => assign_at(t, q, r, *b, false),
    }
}

/// Tokens `i..j` spell statement `s`.
pub open spec fn stmt_at(t: Seq<Token>, i: int, j: int, s: Stmt) -> bool
    decreases j - i, 0nat,
{
    if !(0 <= i < j <= t.len()) {
        false
    } else {
        ||| simple_stmt_at(t, i, j, s)
        ||| s matches Stmt::Block(ss, span) && t[i].kind is LBrace && t[j - 1].kind is RBrace
            && i + 2 <= j && span == t[i].span.join_spec(t[j - 1].span) && stmts_at(
            t,
            i + 1,
            j - 1,
            ss@,
        )
        ||| s matches Stmt::If { cond, then_branch, else_branch, span } && t[i].kind is If && exists|
            k: int,
            m: int,
        |
            #![trigger expr_at(t, i + 1, k, cond, 9), pos(t, m)]
            i + 1 < k && k < m && m <= j && expr_at(t, i + 1, k, cond, 9) && block_at(
                t,
                k,
                m,
                then_branch@,
            ) && {
                let then_span = t[k].span.join_spec(t[m - 1].span);
                ||| m == j && else_branch@.len() == 0 && span == t[i].span.join_spec(then_span)
                ||| m + 1 < j && t[m].kind is Else && t[m + 1].kind is If && else_branch@.len()
                    == 1 && else_branch@[0] is If && stmt_at(t, m + 1, j, else_branch@[0]) && span
                    == t[i].span.join_spec(else_branch@[0].spec_span())
                ||| m + 1 < j && t[m].kind is Else && block_at(t, m + 1, j, else_branch@) && span
                    == t[i].span.join_spec(t[m + 1].span.join_spec(t[j - 1].span))
            }
        ||| s matches Stmt::While { cond, body, span } && t[i].kind is While && exists|k: int|
            i + 1 < k && k < j && #[trigger] expr_at(t, i + 1, k, cond, 9) && block_at(
                t,
                k,
                j,
                body@,
            ) && span == t[i].span.join_spec(t[k].span.join_spec(t[j - 1].span))
        ||| s matches Stmt::Loop { body, span } && t[i].kind is Loop && block_at(t, i + 1, j, body@)
            && span == t[i].span.join_spec(t[i + 1].span.join_spec(t[j - 1].span))
        ||| s matches Stmt::For { init, cond, step, body, span } && exists|p: int, q: int, r: int|
            #[trigger] for_head_at(t, i, p, q, r, init, cond, step) && i < r && r < j && block_at(t, r, j, body@)
                && span == t[i].span.join_spec(t[r].span.join_spec(t[j - 1].span))
    }
}

/// Tokens `i..j` spell the statements `ss` one after another.
pub open spec fn stmts_at(t: Seq<Token>, i: int, j: int, ss: Seq<Stmt>) -> bool
    decreases j - i, 1nat,
{
    if !(0 <= i <= j <= t.len()) {
        false
    } else if ss.len() == 0 {
        i == j
    } else {
        exists|k: int|
            i <= k && k < j && #[trigger] pos(t, k) && stmts_at(t, i, k, ss.drop_last()) && stmt_at(
                t,
                k,
                j,
                ss.last(),
            )
    }
}

/// Tokens `i..j` spell a block: `{`, the statements `ss`, `}`.
pub open spec fn block_at(t: Seq<Token>, i: int, j: int, ss: Seq<Stmt>) -> bool
    decreases j - i, 2nat,
{
    &&& 0 <= i && i + 2 <= j <= t.len()
    &&& t[i].kind is LBrace
    &&& t[j - 1].kind is RBrace
    &&& stmts_at(t, i + 1, j - 1, ss)
}

/// Token `i` starts the parameter `name: byte`.
pub open spec fn param_at(t: Seq<Token>, i: int, p: Param) -> bool {
    &&& 0 <= i && i + 3 <= t.len()
    &&& t[i].kind matches TokenKind::Ident(n) && p.name == n
    &&& p.name_span == t[i].span
    &&& t[i + 1].kind is Colon
    &&& t[i + 2].kind is ByteTy
}

/// Tokens `i..j` spell the parameters `ps`, separated by commas.
pub open spec fn param_list_at(t: Seq<Token>, i: int, j: int, ps: Seq<Param>) -> bool
    decreases ps.len(),
{
    &&& ps.len() > 0
    &&& 0 <= i && j <= t.len()
    &&& param_at(t, j - 3, ps.last())
    &&& if ps.len() == 1 {
        j == i + 3
    } else {
        t[j - 4].kind is Comma && param_list_at(t, i, j - 4, ps.drop_last())
    }
}

/// Tokens `i..j` spell a parameter list after its `(`, through the closing `)`.
pub open spec fn params_at(t: Seq<Token>, i: int, j: int, ps: Seq<Param>) -> bool {
    &&& 0 <= i < j <= t.len()
    &&& t[j - 1].kind is RParen
    &&& if ps.len() == 0 {
        j == i + 1
    } else {
        param_list_at(t, i, j - 1, ps)
    }
}

/// Tokens `i..j` spell function `f`: `fn name(params) (-> byte)? { body }`.
pub open spec fn function_at(t: Seq<Token>, i: int, j: int, f: Function) -> bool {
    &&& 0 <= i && i + 3 < j <= t.len()
    &&& t[i].kind is Fn
    &&& t[i + 1].kind matches TokenKind::Ident(n) && f.name == n
    &&& f.name_span == t[i + 1].span
    &&& t[i + 2].kind is LParen
    &&& exists|p: int, b: int|
        #![trigger params_at(t, i + 3, p, f.params@), block_at(t, b, j, f.body@)]
        params_at(t, i + 3, p, f.params@) && block_at(t, b, j, f.body@) && f.span
            == t[i].span.join_spec(t[b].span.join_spec(t[j - 1].span)) && match f.return_type {
            ReturnType::Byte => t[p].kind is Arrow && t[p + 1].kind is ByteTy && b == p + 2,
            ReturnType::Void => !(t[p].kind is Arrow) && b == p,
        }
}

/// Tokens `i..j` spell a program whose function declarations are `fs` and whose top-level
/// statements are `ss`, each list in the order written.
pub open spec fn program_at(
    t: Seq<Token>,
    i: int,
    j: int,
    fs: Seq<Function>,
    ss: Seq<Stmt>,
) -> bool
    decreases j - i,
{
    if !(0 <= i <= j <= t.len()) {
        false
    } else if fs.len() == 0 && ss.len() == 0 {
        i == j
    } else {
        ||| fs.len() > 0 && exists|k: int|
            i <= k && k < j && program_at(t, i, k, fs.drop_last(), ss) && #[trigger] function_at(
                t,
                k,
                j,
                fs.last(),
            )
        ||| ss.len() > 0 && exists|k: int|
            i <= k && k < j && program_at(t, i, k, fs, ss.drop_last()) && #[trigger] stmt_at(
                t,
                k,
                j,
                ss.last(),
            )
    }
}

/// A list spelled up to a comma at `c - 1` (or nothing, with `c == i`), and one more
/// expression after it, spell the longer list.
pub proof fn lemma_args_extend(t: Seq<Token>, i: int, c: int, j: int, args: Seq<Expr>, e: Expr)
    requires
        args.len() == 0 ==> c == i,
        args.len() > 0 ==> args_at(t, i, c - 1, args) && comma_at(t, c - 1),
        expr_at(t, c, j, e, 9),
    ensures
        args_at(t, i, j, args.push(e)),
{
    assert(args.push(e).drop_last() =~= args);
    if args.len() == 0 {
        assert(args.push(e)[0] == e);
    }
}

/// Statements spelled up to `k`, and one more statement from `k`, spell the longer list.
pub proof fn lemma_stmts_push(t: Seq<Token>, i: int, k: int, j: int, ss: Seq<Stmt>, s: Stmt)
    requires
        stmts_at(t, i, k, ss),
        stmt_at(t, k, j, s),
    ensures
        stmts_at(t, i, j, ss.push(s)),
{
    assert(ss.push(s).drop_last() =~= ss);
    assert(pos(t, k));
}

/// Parameters spelled up to `k` (a comma there, or nothing with `k == i - 1`) and one more
/// parameter from `k + 1` spell the longer list.
pub proof fn lemma_params_push(t: Seq<Token>, i: int, k: int, ps: Seq<Param>, p: Param)
    requires
        ps.len() == 0 ==> k + 1 == i,
        ps.len() > 0 ==> param_list_at(t, i, k, ps) && comma_at(t, k),
        param_at(t, k + 1, p),
    ensures
        param_list_at(t, i, k + 4, ps.push(p)),
{
    assert(ps.push(p).drop_last() =~= ps);
    assert(ps.push(p).last() == p);
}

/// A program spelled up to `k`, and one more function from `k`, spell the longer program.
pub proof fn lemma_program_push_function(
    t: Seq<Token>,
    i: int,
    k: int,
    j: int,
    fs: Seq<Function>,
    ss: Seq<Stmt>,
    f: Function,
)
    requires
        program_at(t, i, k, fs, ss),
        function_at(t, k, j, f),
    ensures
        program_at(t, i, j, fs.push(f), ss),
{
    assert(fs.push(f).drop_last() =~= fs);
    assert(fs.push(f).last() == f);
}

/// A program spelled up to `k`, and one more statement from `k`, spell the longer program.
pub proof fn lemma_program_push_stmt(
    t: Seq<Token>,
    i: int,
    k: int,
    j: int,
    fs: Seq<Function>,
    ss: Seq<Stmt>,
    s: Stmt,
)
    requires
        program_at(t, i, k, fs, ss),
        stmt_at(t, k, j, s),
    ensures
        program_at(t, i, j, fs, ss.push(s)),
{
    assert(ss.push(s).drop_last() =~= ss);
    assert(ss.push(s).last() == s);
}

} // verus!
