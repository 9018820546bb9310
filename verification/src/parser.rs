use vstd::prelude::*;
use crate::ast::{
    ArrayInit, ArrayLen, BinOp, Expr, FormatSegment, Function, Param, Program, ReturnType, Stmt,
    UnOp,
};
use crate::diagnostic::{Diagnostic, Span};
use crate::lexer::{describe_kind, kind_tag, tag_of, Token, TokenKind};
use crate::text::decimal;
use crate::grammar::{
    args_at, array_init_at, assign_at, call_span, assign_op_of, binop_level, binop_of, comma_at, expr_at,
    lemma_args_extend, let_at, let_array_at, let_inferred_at, let_scalar_at, same_expr,
    simple_stmt_at, unop_of, block_at, stmt_at, stmts_at, for_head_at, lemma_stmts_push, pos,
    function_at, params_at, param_list_at, param_at, lemma_params_push, program_at,
    lemma_program_push_function, lemma_program_push_stmt,
};

verus! {

/// A recursive-descent parser over a token stream that ends with `Eof`.
pub struct Parser {
    tokens: Vec<Token>,
    current: usize,
}

/// A token stream the parser can work on: non-empty and ending with `Eof`.
pub open spec fn parsable(tokens: Seq<Token>) -> bool {
    tokens.len() >= 1 && tokens.last().kind is Eof
}

/// Token `p` is a byte literal that no binary operator follows: an expression of one token.
pub open spec fn lone_byte(t: Seq<Token>, p: int) -> bool {
    (t[p].kind matches TokenKind::Number(n) && n <= 255) && binop_of(t[p + 1].kind) is None
}

/// The number of tokens of a plain statement at `p` (`put BYTE;`, `let NAME = BYTE;`,
/// `let NAME: byte;`, `break;` or `continue;`), or 0 when none starts there.
pub open spec fn simple_stmt_len(t: Seq<Token>, p: int) -> int {
    if t[p].kind is Put && lone_byte(t, p + 1) && t[p + 2].kind is Semi {
        3
    } else if t[p].kind is Let && t[p + 1].kind is Ident && t[p + 2].kind is Eq && lone_byte(t, p + 3)
        && t[p + 4].kind is Semi {
        5
    } else if t[p].kind is Let && t[p + 1].kind is Ident && t[p + 2].kind is Colon && t[p + 3].kind is ByteTy
        && t[p + 4].kind is Semi {
        5
    } else if (t[p].kind is Break || t[p].kind is Continue) && t[p + 1].kind is Semi {
        2
    } else {
        0
    }
}

/// The tokens from `p` are a run of plain statements up to the end.
pub open spec fn simple_program(t: Seq<Token>, p: int) -> bool
    decreases t.len() - p,
{
    if p < 0 || p >= t.len() {
        false
    } else if t[p].kind is Eof {
        true
    } else if simple_stmt_len(t, p) > 0 && p + simple_stmt_len(t, p) <= t.len() {
        simple_program(t, p + simple_stmt_len(t, p))
    } else {
        false
    }
}

/// The tokens at `p` are a whole program of one statement `let NAME = BYTE;`.
pub open spec fn single_let_byte(t: Seq<Token>, p: int) -> bool {
    &&& t[p].kind is Let
    &&& t[p + 1].kind is Ident
    &&& t[p + 2].kind is Eq
    &&& lone_byte(t, p + 3)
    &&& t[p + 4].kind is Semi
    &&& t[p + 5].kind is Eof
}

/// A token kind that carries no data: one number of `kind_tag` stands for it alone.
pub open spec fn plain_kind(k: TokenKind) -> bool {
    !(k is Ident) && !(k is Number) && !(k is StringLit)
}

proof fn lemma_same_tag(a: TokenKind, k: TokenKind)
    requires
        kind_tag(a) == kind_tag(k),
    ensures
        plain_kind(k) ==> a == k,
        k is Ident ==> a is Ident,
        k is Number ==> a is Number,
        k is StringLit ==> a is StringLit,
{
}

fn err_at(msg: &str, span: Span) -> (d: Diagnostic)
    ensures
        d.span == Some(span),
        d.message@ == msg@,
{
    let m = msg.to_string();
    proof {
        broadcast use vstd::string::to_string_from_display_ensures_for_str;
    }
    Diagnostic::new(m, span)
}

/// The first statement at token `i` is `put` of a literal above 255.
pub open spec fn put_big_at(t: Seq<Token>, i: int) -> bool {
    t[i].kind is Put && big_number_at(t, i + 1)
}

/// The first statement at token `i` declares `let name` with neither a type nor a value.
pub open spec fn let_untyped_bare_at(t: Seq<Token>, i: int) -> bool {
    t[i].kind is Let && t[i + 1].kind is Ident && !(t[i + 2].kind is Colon) && !(t[i + 2].kind is Eq)
}

/// The first statement at token `i` is `let name = []`.
pub open spec fn let_empty_list_at(t: Seq<Token>, i: int) -> bool {
    t[i].kind is Let && t[i + 1].kind is Ident && t[i + 2].kind is Eq && t[i + 3].kind is LBracket
        && t[i + 4].kind is RBracket
}

/// The error a statement starting at token `i` gets when it is one of the three shapes above.
pub open spec fn first_stmt_error<T>(r: Result<T, Diagnostic>, t: Seq<Token>, i: int) -> bool {
    &&& put_big_at(t, i) ==> out_of_range_at(r, t, i + 1)
    &&& let_untyped_bare_at(t, i) ==> (r matches Err(d) && d.message@
        == "inferred byte declaration requires an initializer"@ && d.span == Some(t[i + 1].span))
    &&& let_empty_list_at(t, i) ==> (r matches Err(d) && d.message@
        == "cannot infer the element type of an empty array"@)
}

/// Token `i` is a number literal above 255.
pub open spec fn big_number_at(t: Seq<Token>, i: int) -> bool {
    t[i].kind matches TokenKind::Number(n) && n > 255
}

/// `r` is the error for the out-of-range literal at token `i`.
pub open spec fn out_of_range_at<T>(r: Result<T, Diagnostic>, t: Seq<Token>, i: int) -> bool {
    r matches Err(d) && d.message@ == "byte literal out of range"@ && d.span == Some(t[i].span)
}

fn copy_bytes(v: &Vec<u8>) -> (r: Vec<u8>)
    ensures
        r@ == v@,
{
    let mut r: Vec<u8> = Vec::new();
    let mut i: usize = 0;
    while i < v.len()
        invariant
            i <= v@.len(),
            r@ == v@.take(i as int),
        decreases v@.len() - i,
    {
        r.push(v[i]);
        assert(v@.take(i + 1) =~= v@.take(i as int).push(v@[i as int]));
        i = i + 1;
    }
    assert(v@.take(v@.len() as int) =~= v@);
    r
}

/// A copy of an expression tree, with the same spans.
pub fn copy_expr(e: &Expr) -> (r: Expr)
    ensures
        r.spec_span() == e.spec_span(),
        same_expr(*e, r),
    decreases e,
{
    match e {
        Expr::Byte(v, span) => Expr::Byte(*v, *span),
        Expr::Var(name, span) => Expr::Var(name.clone(), *span),
        Expr::ArrayGet { name, name_span, index, span } => Expr::ArrayGet {
            name: name.clone(),
            name_span: *name_span,
            index: Box::new(copy_expr(index)),
            span: *span,
        },
        Expr::Call { name, name_span, args, span } => {
            assert(decreases_to!(*e => *args));
            let mut copied: Vec<Expr> = Vec::new();
            let mut i: usize = 0;
            while i < args.len()
                invariant
                    i <= args@.len(),
                    decreases_to!(*e => *args),
                    copied@.len() == i,
                    forall|k: int| 0 <= k < i ==> same_expr(#[trigger] args@[k], copied@[k]),
                decreases args@.len() - i,
            {
                proof {
                    vstd::std_specs::vec::axiom_vec_index_decreases(*args, i as int);
                    assert(decreases_to!(*args => args[i as int]));
                    assert(decreases_to!(*e => args[i as int]));
                }
                copied.push(copy_expr(&args[i]));
                i = i + 1;
            }
            Expr::Call { name: name.clone(), name_span: *name_span, args: copied, span: *span }
        },
        Expr::Unary { op, expr, span } => Expr::Unary {
            op: *op,
            expr: Box::new(copy_expr(expr)),
            span: *span,
        },
        Expr::Binary { left, op, right, span } => Expr::Binary {
            left: Box::new(copy_expr(left)),
            op: *op,
            right: Box::new(copy_expr(right)),
            span: *span,
        },
    }
}

fn binary(left: Expr, op: BinOp, right: Expr) -> (e: Expr)
    ensures
        e == (Expr::Binary {
            left: Box::new(left),
            op,
            right: Box::new(right),
            span: left.spec_span().join_spec(right.spec_span()),
        }),
{
    let span = left.span().join(right.span());
    Expr::Binary { left: Box::new(left), op, right: Box::new(right), span }
}

/// The span recorded for a statement.
pub fn stmt_span(stmt: &Stmt) -> (sp: Span)
    ensures
        sp == stmt.spec_span(),
{
    match stmt {
        Stmt::Const { span, .. } => *span,
        Stmt::Let { span, .. } => *span,
        Stmt::LetArray { span, .. } => *span,
        Stmt::Assign { span, .. } => *span,
        Stmt::ArrayAssign { span, .. } => *span,
        Stmt::Put(_, span) => *span,
        Stmt::Puts(_, span) => *span,
        Stmt::Print(_, span) => *span,
        Stmt::PrintFormat { span, .. } => *span,
        Stmt::Println(_, span) => *span,
        Stmt::Read(_, span) => *span,
        Stmt::ReadArray { span, .. } => *span,
        Stmt::Call { span, .. } => *span,
        Stmt::Return(_, span) => *span,
        Stmt::Break(span) => *span,
        Stmt::Continue(span) => *span,
        Stmt::Block(_, span) => *span,
        Stmt::If { span, .. } => *span,
        Stmt::While { span, .. } => *span,
        Stmt::Loop { span, .. } => *span,
        Stmt::For { span, .. } => *span,
    }
}

/// Number of placeholders among format segments.
pub open spec fn placeholder_count(segs: Seq<FormatSegment>) -> nat
    decreases segs.len(),
{
    if segs.len() == 0 {
        0
    } else {
        placeholder_count(segs.drop_last()) + if segs.last() is Literal { 0nat } else { 1nat }
    }
}

/// One unit of a format string: a byte written as it is, or a placeholder.
pub enum FormatPiece {
    Char(u8),
    Decimal,
    Byte,
}

/// A format segment as the contracts see it.
pub enum FormatView {
    Literal(Seq<u8>),
    Decimal,
    Byte,
}

pub open spec fn segment_view(s: FormatSegment) -> FormatView {
    match s {
        FormatSegment::Literal(l) => FormatView::Literal(l@),
        FormatSegment::Decimal => FormatView::Decimal,
        FormatSegment::Byte => FormatView::Byte,
    }
}

pub open spec fn segment_views(s: Seq<FormatSegment>) -> Seq<FormatView> {
    s.map_values(|x: FormatSegment| segment_view(x))
}

/// The units of a format string, read from the front: `{{` and `}}` are single braces, `{}`
/// and `{:d}` decimal placeholders, `{:c}` a raw-byte placeholder; none when another brace
/// occurs.
pub open spec fn format_pieces(b: Seq<u8>) -> Option<Seq<FormatPiece>>
    decreases b.len(),
{
    if b.len() == 0 {
        Some(Seq::empty())
    } else {
        let (piece, used): (Option<FormatPiece>, int) = if b.len() >= 2 && b[0] == 123 && b[1] == 123 {
            (Some(FormatPiece::Char(123)), 2)
        } else if b.len() >= 2 && b[0] == 125 && b[1] == 125 {
            (Some(FormatPiece::Char(125)), 2)
        } else if b.len() >= 2 && b[0] == 123 && b[1] == 125 {
            (Some(FormatPiece::Decimal), 2)
        } else if b.len() >= 4 && b[0] == 123 && b[1] == 58 && b[3] == 125 && b[2] == 100 {
            (Some(FormatPiece::Decimal), 4)
        } else if b.len() >= 4 && b[0] == 123 && b[1] == 58 && b[3] == 125 && b[2] == 99 {
            (Some(FormatPiece::Byte), 4)
        } else if b[0] == 123 || b[0] == 125 {
            (None, 1)
        } else {
            (Some(FormatPiece::Char(b[0])), 1)
        };
        match piece {
            None => None,
            Some(p) => match format_pieces(b.subrange(used, b.len() as int)) {
                Some(rest) => Some(seq![p] + rest),
                None => None,
            },
        }
    }
}

/// The segments of a sequence of units: runs of written bytes join into one literal.
pub open spec fn group_pieces(ps: Seq<FormatPiece>) -> Seq<FormatView>
    decreases ps.len(),
{
    if ps.len() == 0 {
        Seq::empty()
    } else {
        let g = group_pieces(ps.drop_last());
        match ps.last() {
            FormatPiece::Char(c) => if g.len() > 0 && g.last() is Literal {
                g.drop_last().push(FormatView::Literal(g.last()->Literal_0.push(c)))
            } else {
                g.push(FormatView::Literal(seq![c]))
            },
            FormatPiece::Decimal => g.push(FormatView::Decimal),
            FormatPiece::Byte => g.push(FormatView::Byte),
        }
    }
}

/// Splits the bytes of a `print` format string into literal runs and placeholders.
/// `{{` and `}}` stand for single braces; `{}` and `{:d}` are decimal placeholders and `{:c}`
/// a raw-byte placeholder; any other brace is an error.
pub fn parse_format_segments(bytes: &Vec<u8>, span: Span) -> (r: Result<Vec<FormatSegment>, Diagnostic>)
    ensures
        r is Ok <==> format_pieces(bytes@) is Some,
        r matches Ok(segs) ==> segment_views(segs@) == group_pieces(format_pieces(bytes@)->0),
        r matches Err(d) ==> d.span == Some(span),
        r matches Ok(segs) ==> forall|k: int|
            0 <= k < segs@.len() ==> (#[trigger] segs@[k] matches FormatSegment::Literal(l) ==> l@.len() > 0),
{
    let mut segs: Vec<FormatSegment> = Vec::new();
    let mut literal: Vec<u8> = Vec::new();
    let mut i: usize = 0;
    let n = bytes.len();
    let ghost mut done: Seq<FormatPiece> = Seq::empty();
    proof {
        assert(bytes@.subrange(0, n as int) =~= bytes@);
    }
    while i < n
        invariant
            n == bytes@.len(),
            i <= n,
            forall|k: int|
                0 <= k < segs@.len() ==> (#[trigger] segs@[k] matches FormatSegment::Literal(l)
                    ==> l@.len() > 0),
            format_pieces(bytes@) == match format_pieces(bytes@.subrange(i as int, n as int)) {
                Some(rest) => Some(done + rest),
                None => None::<Seq<FormatPiece>>,
            },
            group_pieces(done) == if literal@.len() > 0 {
                segment_views(segs@).push(FormatView::Literal(literal@))
            } else {
                segment_views(segs@)
            },
            segs@.len() > 0 ==> !(segs@.last() is Literal),
        decreases n - i,
    {
        let c = bytes[i];
        let next = if i + 1 < n { bytes[i + 1] } else { 0u8 };
        let ghost b = bytes@.subrange(i as int, n as int);
        let ghost old_segs = segs@;
        let ghost old_lit = literal@;
        if c == 123u8 && next == 123u8 {
            literal.push(123u8);
            i = i + 2;
            proof {
                lemma_piece_char(done, 123u8, old_segs, old_lit);
                done = done.push(FormatPiece::Char(123));
                assert(b.subrange(2, b.len() as int) =~= bytes@.subrange(i as int, n as int));
            }
        } else if c == 125u8 && next == 125u8 {
            literal.push(125u8);
            i = i + 2;
            proof {
                lemma_piece_char(done, 125u8, old_segs, old_lit);
                done = done.push(FormatPiece::Char(125));
                assert(b.subrange(2, b.len() as int) =~= bytes@.subrange(i as int, n as int));
            }
        } else if c == 123u8 && next == 125u8 {
            if literal.len() > 0 {
                segs.push(FormatSegment::Literal(literal));
                literal = Vec::new();
            }
            segs.push(FormatSegment::Decimal);
            i = i + 2;
            proof {
                assert(segment_views(segs@) =~= if old_lit.len() > 0 {
                    segment_views(old_segs).push(FormatView::Literal(old_lit)).push(FormatView::Decimal)
                } else {
                    segment_views(old_segs).push(FormatView::Decimal)
                });
                lemma_piece_mark(done, FormatPiece::Decimal, FormatView::Decimal, old_segs, old_lit, segs@);
                done = done.push(FormatPiece::Decimal);
                assert(b.subrange(2, b.len() as int) =~= bytes@.subrange(i as int, n as int));
            }
        } else if c == 123u8 && next == 58u8 && n - i > 3 && bytes[i + 3] == 125u8 && (bytes[i
            + 2] == 100u8 || bytes[i + 2] == 99u8) {
            if literal.len() > 0 {
                segs.push(FormatSegment::Literal(literal));
                literal = Vec::new();
            }
            let ghost piece = if bytes[i + 2] == 100u8 {
                FormatPiece::Decimal
            } else {
                FormatPiece::Byte
            };
            let ghost view = if bytes[i + 2] == 100u8 {
                FormatView::Decimal
            } else {
                FormatView::Byte
            };
            if bytes[i + 2] == 100u8 {
                segs.push(FormatSegment::Decimal);
            } else {
                segs.push(FormatSegment::Byte);
            }
            i = i + 4;
            proof {
                assert(segment_views(segs@) =~= if old_lit.len() > 0 {
                    segment_views(old_segs).push(FormatView::Literal(old_lit)).push(view)
                } else {
                    segment_views(old_segs).push(view)
                });
                lemma_piece_mark(done, piece, view, old_segs, old_lit, segs@);
                done = done.push(piece);
                assert(b.subrange(4, b.len() as int) =~= bytes@.subrange(i as int, n as int));
            }
        } else if c == 123u8 || c == 125u8 {
            return Err(err_at(
                "unmatched brace in format string; use `{{`, `}}`, `{}`, `{:d}`, or `{:c}`",
                span,
            ));
        } else {
            literal.push(c);
            i = i + 1;
            proof {
                lemma_piece_char(done, c, old_segs, old_lit);
                done = done.push(FormatPiece::Char(c));
                assert(b.subrange(1, b.len() as int) =~= bytes@.subrange(i as int, n as int));
            }
        }
    }
    proof {
        assert(bytes@.subrange(n as int, n as int) =~= Seq::<u8>::empty());
        assert(done + Seq::<FormatPiece>::empty() =~= done);
    }
    if literal.len() > 0 {
        let ghost before = segs@;
        segs.push(FormatSegment::Literal(literal));
        proof {
            assert(segment_views(segs@) =~= segment_views(before).push(FormatView::Literal(literal@)));
        }
    }
    Ok(segs)
}

proof fn lemma_piece_char(done: Seq<FormatPiece>, c: u8, segs: Seq<FormatSegment>, lit: Seq<u8>)
    requires
        group_pieces(done) == if lit.len() > 0 {
            segment_views(segs).push(FormatView::Literal(lit))
        } else {
            segment_views(segs)
        },
        segs.len() > 0 ==> !(segs.last() is Literal),
    ensures
        group_pieces(done.push(FormatPiece::Char(c))) == segment_views(segs).push(
            FormatView::Literal(lit.push(c)),
        ),
{
    let ps = done.push(FormatPiece::Char(c));
    assert(ps.drop_last() =~= done);
    if lit.len() == 0 {
        assert(lit.push(c) =~= seq![c]);
        if segs.len() > 0 {
            assert(segment_views(segs).last() == segment_view(segs.last()));
        }
    } else {
        assert(segment_views(segs).push(FormatView::Literal(lit)).drop_last() =~= segment_views(segs));
    }
}

proof fn lemma_piece_mark(
    done: Seq<FormatPiece>,
    p: FormatPiece,
    v: FormatView,
    segs: Seq<FormatSegment>,
    lit: Seq<u8>,
    after: Seq<FormatSegment>,
)
    requires
        group_pieces(done) == if lit.len() > 0 {
            segment_views(segs).push(FormatView::Literal(lit))
        } else {
            segment_views(segs)
        },
        (p == FormatPiece::Decimal && v == FormatView::Decimal) || (p == FormatPiece::Byte && v
            == FormatView::Byte),
        segment_views(after) == if lit.len() > 0 {
            segment_views(segs).push(FormatView::Literal(lit)).push(v)
        } else {
            segment_views(segs).push(v)
        },
    ensures
        group_pieces(done.push(p)) == segment_views(after),
{
    let ps = done.push(p);
    assert(ps.drop_last() =~= done);
}

fn count_placeholders(segs: &Vec<FormatSegment>) -> (n: usize)
    ensures
        n == placeholder_count(segs@),
{
    let mut n: usize = 0;
    let mut i: usize = 0;
    while i < segs.len()
        invariant
            i <= segs@.len(),
            n == placeholder_count(segs@.take(i as int)),
            n <= i,
        decreases segs@.len() - i,
    {
        assert(segs@.take(i + 1).drop_last() =~= segs@.take(i as int));
        match &segs[i] {
            FormatSegment::Literal(_) => {},
            _ => {
                n = n + 1;
            },
        }
        i = i + 1;
    }
    assert(segs@.take(segs@.len() as int) =~= segs@);
    n
}

impl Parser {
    /// The parser is positioned on a token of a stream that ends with `Eof`.
    pub closed spec fn valid(&self) -> bool {
        parsable(self.tokens@) && self.current < self.tokens@.len()
    }

    /// Number of tokens not yet consumed.
    pub closed spec fn remaining(&self) -> nat {
        (self.tokens@.len() - self.current) as nat
    }

    pub closed spec fn token_seq(&self) -> Seq<Token> {
        self.tokens@
    }

    /// Whether the parser stands on an `Eof` token (for a lexer's output: every token consumed).
    pub closed spec fn at_end(&self) -> bool {
        self.tokens@[self.current as int].kind is Eof
    }

    /// Index of the token the parser stands on.
    pub closed spec fn position(&self) -> int {
        self.current as int
    }

    pub fn new(tokens: Vec<Token>) -> (p: Self)
        requires
            parsable(tokens@),
        ensures
            p.valid(),
            p.token_seq() == tokens@,
            p.remaining() == tokens@.len(),
            p.position() == 0,
    {
        Self { tokens, current: 0 }
    }

    /// Parses a whole program: function declarations and top-level statements, up to `Eof`.
    pub fn parse_program(&mut self) -> (r: Result<Program, Diagnostic>)
        requires
            old(self).valid(),
        ensures
            final(self).valid(),
            final(self).token_seq() == old(self).token_seq(),
            r is Ok ==> final(self).at_end(),
            r matches Ok(p) ==> program_at(
                old(self).token_seq(),
                old(self).position(),
                final(self).position(),
                p.functions@,
                p.stmts@,
            ),
            old(self).token_seq()[old(self).position()].kind is Eof ==> (r matches Ok(p)
                && p.functions@.len() == 0 && p.stmts@.len() == 0),
            first_stmt_error(r, old(self).token_seq(), old(self).position()),
            (old(self).token_seq()[old(self).position()].kind is Break || old(self).token_seq()[old(
                self,
            ).position()].kind is Continue) && old(self).token_seq()[old(self).position() + 1].kind is Semi
                && old(self).token_seq()[old(self).position() + 2].kind is Eof ==> (r matches Ok(p)
                && p.functions@.len() == 0 && p.stmts@.len() == 1),
            single_let_byte(old(self).token_seq(), old(self).position()) ==> (r matches Ok(p)
                && p.functions@.len() == 0 && p.stmts@.len() == 1),
            simple_program(old(self).token_seq(), old(self).position()) ==> r is Ok,
    {
        let ghost t = self.tokens@;
        let ghost c0 = self.current as int;
        let mut functions: Vec<Function> = Vec::new();
        let mut stmts: Vec<Stmt> = Vec::new();
        loop
            invariant
                self.valid(),
                self.tokens@ == old(self).tokens@,
                t == old(self).tokens@,
                c0 == old(self).current,
                self.current >= c0,
                program_at(t, c0, self.current as int, functions@, stmts@),
                t[c0].kind is Eof ==> (self.current == c0 && functions@.len() == 0
                    && stmts@.len() == 0),
                put_big_at(t, c0) || let_untyped_bare_at(t, c0) || let_empty_list_at(t, c0) ==> (
                self.current == c0 && functions@.len() == 0 && stmts@.len() == 0),
                (t[c0].kind is Break || t[c0].kind is Continue) && t[c0 + 1].kind is Semi
                    && t[c0 + 2].kind is Eof ==> ((self.current == c0 && functions@.len() == 0
                    && stmts@.len() == 0) || (self.current == c0 + 2 && functions@.len() == 0
                    && stmts@.len() == 1)),
                single_let_byte(t, c0) ==> ((self.current == c0 && functions@.len() == 0
                    && stmts@.len() == 0) || (self.current == c0 + 5 && functions@.len() == 0
                    && stmts@.len() == 1)),
                simple_program(t, c0) ==> simple_program(t, self.current as int),
            ensures
                self.valid(),
                self.tokens@ == old(self).tokens@,
                kind_tag(self.tokens@[self.current as int].kind) == kind_tag(TokenKind::Eof),
                program_at(t, c0, self.current as int, functions@, stmts@),
                t[c0].kind is Eof ==> (functions@.len() == 0 && stmts@.len() == 0),
                (t[c0].kind is Break || t[c0].kind is Continue) && t[c0 + 1].kind is Semi
                    && t[c0 + 2].kind is Eof ==> (functions@.len() == 0 && stmts@.len() == 1),
                single_let_byte(t, c0) ==> (functions@.len() == 0 && stmts@.len() == 1),
            decreases self.tokens@.len() - self.current,
        {
            if self.at(&TokenKind::Eof) {
                break;
            }
            let ghost ca = self.current as int;
            let ghost fs = functions@;
            let ghost ss = stmts@;
            if self.at(&TokenKind::Fn) {
                let f = self.parse_function()?;
                functions.push(f);
                proof {
                    lemma_program_push_function(t, c0, ca, self.current as int, fs, ss, f);
                }
            } else {
                let st = self.parse_stmt()?;
                stmts.push(st);
                proof {
                    lemma_program_push_stmt(t, c0, ca, self.current as int, fs, ss, st);
                }
            }
        }
        Ok(Program { functions, stmts })
    }

    fn peek(&self) -> (k: &TokenKind)
        requires
            self.valid(),
        ensures
            *k == self.tokens@[self.current as int].kind,
    {
        &self.tokens[self.current].kind
    }

    fn at(&self, kind: &TokenKind) -> (b: bool)
        requires
            self.valid(),
        ensures
            b == (kind_tag(self.tokens@[self.current as int].kind) == kind_tag(*kind)),
            plain_kind(*kind) ==> (b <==> self.tokens@[self.current as int].kind == *kind),
            *kind is Ident ==> (b <==> self.tokens@[self.current as int].kind is Ident),
            *kind is StringLit ==> (b <==> self.tokens@[self.current as int].kind is StringLit),
    {
        proof {
            if kind_tag(self.tokens@[self.current as int].kind) == kind_tag(*kind) {
                lemma_same_tag(self.tokens@[self.current as int].kind, *kind);
            }
        }
        tag_of(&self.tokens[self.current].kind) == tag_of(kind)
    }

    fn at_next(&self, kind: &TokenKind) -> (b: bool)
        requires
            self.valid(),
        ensures
            b == (self.current + 1 < self.tokens@.len() && kind_tag(
                self.tokens@[self.current + 1].kind,
            ) == kind_tag(*kind)),
    {
        let n = self.tokens.len();
        if self.current + 1 < n {
            tag_of(&self.tokens[self.current + 1].kind) == tag_of(kind)
        } else {
            false
        }
    }

    /// Moves past the current token (staying on the final `Eof`); returns its index.
    fn advance(&mut self) -> (i: usize)
        requires
            old(self).valid(),
        ensures
            final(self).valid(),
            final(self).tokens@ == old(self).tokens@,
            i == old(self).current,
            !(old(self).tokens@[i as int].kind is Eof) ==> final(self).current == old(
                self,
            ).current + 1,
            old(self).tokens@[i as int].kind is Eof ==> final(self).current >= old(self).current,
    {
        let i = self.current;
        let n = self.tokens.len();
        if self.current + 1 < n {
            self.current = self.current + 1;
        }
        i
    }

    fn error_here(&self, msg: String) -> (d: Diagnostic)
        requires
            self.valid(),
        ensures
            d.message == msg,
            d.span == Some(self.tokens@[self.current as int].span),
    {
        Diagnostic::new(msg, self.tokens[self.current].span)
    }

    fn match_token(&mut self, kind: &TokenKind) -> (r: Option<Span>)
        requires
            old(self).valid(),
            !(kind is Eof),
            plain_kind(*kind),
        ensures
            final(self).valid(),
            final(self).tokens@ == old(self).tokens@,
            r is Some ==> final(self).current == old(self).current + 1,
            r is None ==> final(self).current == old(self).current,
            r is Some <==> old(self).tokens@[old(self).current as int].kind == *kind,
            r matches Some(sp) ==> sp == old(self).tokens@[old(self).current as int].span,
    {
        if self.at(kind) {
            let i = self.advance();
            Some(self.tokens[i].span)
        } else {
            None
        }
    }

    fn match_kind(&mut self, kind: &TokenKind) -> (b: bool)
        requires
            old(self).valid(),
            !(kind is Eof),
            plain_kind(*kind),
        ensures
            final(self).valid(),
            final(self).tokens@ == old(self).tokens@,
            b ==> final(self).current == old(self).current + 1,
            !b ==> final(self).current == old(self).current,
            b <==> old(self).tokens@[old(self).current as int].kind == *kind,
    {
        self.match_token(kind).is_some()
    }

    fn expect(&mut self, kind: &TokenKind) -> (r: Result<Span, Diagnostic>)
        requires
            old(self).valid(),
            !(kind is Eof),
            plain_kind(*kind),
        ensures
            final(self).valid(),
            final(self).tokens@ == old(self).tokens@,
            r is Ok ==> final(self).current == old(self).current + 1,
            r is Err ==> final(self).current == old(self).current,
            r is Ok <==> old(self).tokens@[old(self).current as int].kind == *kind,
            r matches Ok(sp) ==> sp == old(self).tokens@[old(self).current as int].span,
    {
        if self.at(kind) {
            let i = self.advance();
            Ok(self.tokens[i].span)
        } else {
            let mut msg = "expected ".to_string();
            let want = describe_kind(kind);
            msg.append(want.as_str());
            msg.append(", found ");
            let found = describe_kind(self.peek());
            msg.append(found.as_str());
            Err(self.error_here(msg))
        }
    }

    fn expect_ident(&mut self) -> (r: Result<(String, Span), Diagnostic>)
        requires
            old(self).valid(),
        ensures
            final(self).valid(),
            final(self).tokens@ == old(self).tokens@,
            final(self).current >= old(self).current,
            r is Ok ==> final(self).current == old(self).current + 1,
            r matches Ok((name, sp)) ==> old(self).tokens@[old(self).current as int].kind
                == TokenKind::Ident(name) && sp == old(self).tokens@[old(self).current as int].span,
            r is Ok <==> old(self).tokens@[old(self).current as int].kind is Ident,
    {
        let i = self.advance();
        match &self.tokens[i].kind {
            TokenKind::Ident(name) => Ok((name.clone(), self.tokens[i].span)),
            kind => {
                let mut msg = "expected identifier, found ".to_string();
                let found = describe_kind(kind);
                msg.append(found.as_str());
                Err(Diagnostic::new(msg, self.tokens[i].span))
            },
        }
    }

    fn parse_function(&mut self) -> (r: Result<Function, Diagnostic>)
        requires
            old(self).valid(),
        ensures
            final(self).valid(),
            final(self).tokens@ == old(self).tokens@,
            final(self).current >= old(self).current,
            r is Ok ==> final(self).current > old(self).current,
            r matches Ok(f) ==> function_at(
                old(self).tokens@,
                old(self).current as int,
                final(self).current as int,
                f,
            ),
            old(self).tokens@[old(self).current as int].kind is Fn && old(self).tokens@[old(self).current as int + 1].kind is Ident && old(self).tokens@[old(self).current as int + 2].kind is LParen && old(self).tokens@[old(self).current as int + 3].kind is RParen && old(self).tokens@[old(self).current as int + 4].kind is LBrace
                && old(self).tokens@[old(self).current as int + 5].kind is RBrace ==> r is Ok,
        decreases old(self).tokens@.len() - old(self).current, 30nat,
    {
        let ghost t = self.tokens@;
        let ghost c0 = self.current as int;
        let start = self.expect(&TokenKind::Fn)?;
        let (name, name_span) = self.expect_ident()?;
        self.expect(&TokenKind::LParen)?;
        let mut params: Vec<Param> = Vec::new();
        if !self.match_kind(&TokenKind::RParen) {
            loop
                invariant_except_break
                    params@.len() == 0 ==> self.current == c0 + 3,
                    params@.len() > 0 ==> param_list_at(t, c0 + 3, self.current - 1, params@)
                        && comma_at(t, self.current - 1),
                invariant
                    self.valid(),
                    self.tokens@ == old(self).tokens@,
                    t == old(self).tokens@,
                    c0 == old(self).current,
                    self.current > old(self).current,
                    !(t[c0 + 3].kind is RParen),
                ensures
                    self.valid(),
                    self.tokens@ == old(self).tokens@,
                    params@.len() > 0,
                    param_list_at(t, c0 + 3, self.current - 1, params@),
                    t[self.current - 1].kind is RParen,
                decreases self.tokens@.len() - self.current,
            {
                let ghost ca = self.current as int;
                let ghost before = params@;
                let (param_name, param_span) = self.expect_ident()?;
                self.expect(&TokenKind::Colon)?;
                self.expect(&TokenKind::ByteTy)?;
                let param = Param { name: param_name, name_span: param_span };
                params.push(param);
                proof {
                    assert(param_at(t, ca, param));
                    lemma_params_push(t, c0 + 3, ca - 1, before, param);
                }
                if self.match_kind(&TokenKind::Comma) {
                    continue;
                }
                self.expect(&TokenKind::RParen)?;
                break;
            }
        }
        let ghost p = self.current as int;
        assert(params_at(t, c0 + 3, p, params@));
        let return_type = if self.match_kind(&TokenKind::Arrow) {
            self.expect(&TokenKind::ByteTy)?;
            ReturnType::Byte
        } else {
            ReturnType::Void
        };
        let ghost b = self.current as int;
        let (body, end) = self.parse_block_with_span()?;
        let f = Function { name, name_span, params, return_type, body, span: start.join(end) };
        proof {
            assert(params_at(t, c0 + 3, p, f.params@));
            assert(block_at(t, b, self.current as int, f.body@));
            assert(f.span == t[c0].span.join_spec(t[b].span.join_spec(t[self.current - 1].span)));
            assert(t[c0 + 1].kind == TokenKind::Ident(f.name));
        }
        Ok(f)
    }

    fn parse_stmt(&mut self) -> (r: Result<Stmt, Diagnostic>)
        requires
            old(self).valid(),
        ensures
            final(self).valid(),
            final(self).tokens@ == old(self).tokens@,
            final(self).current >= old(self).current,
            r is Ok ==> final(self).current > old(self).current,
            r matches Ok(st) ==> stmt_at(
                old(self).tokens@,
                old(self).current as int,
                final(self).current as int,
                st,
            ),
            (old(self).tokens@[old(self).current as int].kind is Break || old(self).tokens@[old(self).current as int].kind is Continue) && old(self).tokens@[old(self).current as int + 1].kind is Semi ==> r is Ok
                && final(self).current == old(self).current + 2,
            simple_stmt_len(old(self).tokens@, old(self).current as int) > 0 ==> r is Ok && final(self).current
                == old(self).current + simple_stmt_len(old(self).tokens@, old(self).current as int),
            old(self).tokens@[old(self).current as int].kind is LBrace && old(self).tokens@[old(self).current as int + 1].kind is RBrace ==> r is Ok,
            old(self).tokens@[old(self).current as int].kind is Put && lone_byte(old(self).tokens@, old(self).current as int + 1) && old(self).tokens@[old(self).current as int + 2].kind is Semi ==> r is Ok,
            old(self).tokens@[old(self).current as int].kind is Let && old(self).tokens@[old(self).current as int + 1].kind is Ident && old(self).tokens@[old(self).current as int + 2].kind is Eq
                && lone_byte(old(self).tokens@, old(self).current as int + 3) && old(self).tokens@[old(self).current as int + 4].kind is Semi ==> r is Ok
                && final(self).current == old(self).current + 5,
            !(old(self).tokens@[old(self).current as int].kind is Const || old(self).tokens@[old(self).current as int].kind is Let || old(self).tokens@[old(self).current as int].kind is Put || old(self).tokens@[old(self).current as int].kind is Puts || old(self).tokens@[old(self).current as int].kind is Print
                || old(self).tokens@[old(self).current as int].kind is Println || old(self).tokens@[old(self).current as int].kind is Read || old(self).tokens@[old(self).current as int].kind is Return || old(self).tokens@[old(self).current as int].kind is Break
                || old(self).tokens@[old(self).current as int].kind is Continue || old(self).tokens@[old(self).current as int].kind is LBrace || old(self).tokens@[old(self).current as int].kind is If || old(self).tokens@[old(self).current as int].kind is While
                || old(self).tokens@[old(self).current as int].kind is Loop || old(self).tokens@[old(self).current as int].kind is For || old(self).tokens@[old(self).current as int].kind is Ident) ==> r is Err,
            first_stmt_error(r, old(self).tokens@, old(self).current as int),
        decreases old(self).tokens@.len() - old(self).current, 29nat,
    {
        let ghost t = self.tokens@;
        let ghost c0 = self.current as int;
        let t = tag_of(self.peek());
        if t == tag_of(&TokenKind::Const) {
            self.parse_const()
        } else if t == tag_of(&TokenKind::Let) {
            self.parse_let_with_semi(true)
        } else if t == tag_of(&TokenKind::Put) {
            self.parse_put()
        } else if t == tag_of(&TokenKind::Puts) {
            self.parse_puts()
        } else if t == tag_of(&TokenKind::Print) {
            self.parse_print(false)
        } else if t == tag_of(&TokenKind::Println) {
            self.parse_print(true)
        } else if t == tag_of(&TokenKind::Read) {
            self.parse_read()
        } else if t == tag_of(&TokenKind::Return) {
            self.parse_return()
        } else if t == tag_of(&TokenKind::Break) {
            let start = self.expect(&TokenKind::Break)?;
            let end = self.expect(&TokenKind::Semi)?;
            Ok(Stmt::Break(start.join(end)))
        } else if t == tag_of(&TokenKind::Continue) {
            let start = self.expect(&TokenKind::Continue)?;
            let end = self.expect(&TokenKind::Semi)?;
            Ok(Stmt::Continue(start.join(end)))
        } else if t == tag_of(&TokenKind::LBrace) {
            let (stmts, span) = self.parse_block_with_span()?;
            Ok(Stmt::Block(stmts, span))
        } else if t == tag_of(&TokenKind::If) {
            self.parse_if()
        } else if t == tag_of(&TokenKind::While) {
            let start = self.expect(&TokenKind::While)?;
            let cond = self.parse_expr()?;
            let (body, end) = self.parse_block_with_span()?;
            Ok(Stmt::While { cond, body, span: start.join(end) })
        } else if t == tag_of(&TokenKind::Loop) {
            let start = self.expect(&TokenKind::Loop)?;
            let (body, end) = self.parse_block_with_span()?;
            Ok(Stmt::Loop { body, span: start.join(end) })
        } else if t == tag_of(&TokenKind::For) {
            self.parse_for()
        } else if t == tag_of(&TokenKind::Ident(String::new())) && self.at_next(&TokenKind::LParen) {
            proof {
                lemma_same_tag(self.tokens@[self.current as int].kind, TokenKind::Ident(vstd::pervasive::arbitrary()));
            }
            self.parse_call_stmt()
        } else if t == tag_of(&TokenKind::Ident(String::new())) {
            self.parse_assign_with_semi(true)
        } else {
            let mut msg = "expected statement, found ".to_string();
            let found = describe_kind(self.peek());
            msg.append(found.as_str());
            Err(self.error_here(msg))
        }
    }

    fn parse_const(&mut self) -> (r: Result<Stmt, Diagnostic>)
        requires
            old(self).valid(),
        ensures
            final(self).valid(),
            final(self).tokens@ == old(self).tokens@,
            final(self).current >= old(self).current,
            r is Ok ==> final(self).current > old(self).current,
            r matches Ok(st) ==> simple_stmt_at(
                old(self).tokens@,
                old(self).current as int,
                final(self).current as int,
                st,
            ),
            old(self).tokens@[old(self).current as int].kind is Const && old(self).tokens@[old(self).current as int + 1].kind is Ident && old(self).tokens@[old(self).current as int + 2].kind is Eq && lone_byte(old(self).tokens@, old(self).current as int + 3) && old(self).tokens@[old(self).current as int + 4].kind is Semi
                ==> r is Ok,
        decreases old(self).tokens@.len() - old(self).current, 28nat,
    {
        let ghost t = self.tokens@;
        let ghost c0 = self.current as int;
        let start = self.expect(&TokenKind::Const)?;
        let (name, name_span) = self.expect_ident()?;
        self.expect(&TokenKind::Eq)?;
        let expr = self.parse_expr()?;
        let end = self.expect(&TokenKind::Semi)?;
        Ok(Stmt::Const { name, name_span, expr, span: start.join(end) })
    }

    fn parse_let_with_semi(&mut self, semi: bool) -> (r: Result<Stmt, Diagnostic>)
        requires
            old(self).valid(),
        ensures
            final(self).valid(),
            final(self).tokens@ == old(self).tokens@,
            final(self).current >= old(self).current,
            r is Ok ==> final(self).current > old(self).current,
            r matches Ok(st) ==> let_at(
                old(self).tokens@,
                old(self).current as int,
                final(self).current as int,
                st,
                semi,
            ),
            old(self).tokens@[old(self).current as int].kind is Let && old(self).tokens@[old(self).current as int + 1].kind is Ident && old(self).tokens@[old(self).current as int + 2].kind is Colon && old(self).tokens@[old(self).current as int + 3].kind is ByteTy && (if semi {
                old(self).tokens@[old(self).current as int + 4].kind is Semi
            } else {
                !(old(self).tokens@[old(self).current as int + 4].kind is LBracket) && !(old(self).tokens@[old(self).current as int + 4].kind is Eq)
            }) ==> r is Ok && final(self).current == old(self).current + (if semi { 5int } else { 4int }),
            old(self).tokens@[old(self).current as int].kind is Let && old(self).tokens@[old(self).current as int + 1].kind is Ident && old(self).tokens@[old(self).current as int + 2].kind is Eq
                && lone_byte(old(self).tokens@, old(self).current as int + 3) && (semi ==> old(self).tokens@[old(self).current as int + 4].kind is Semi) ==> r is Ok
                && final(self).current == old(self).current + (if semi { 5int } else { 4int }),
            old(self).tokens@[old(self).current as int].kind is Let && old(self).tokens@[old(self).current as int + 1].kind is Ident && !(old(self).tokens@[old(self).current as int + 2].kind is Colon)
                && !(old(self).tokens@[old(self).current as int + 2].kind is Eq) ==> (r matches Err(d) && d.message@
                == "inferred byte declaration requires an initializer"@ && d.span == Some(old(self).tokens@[old(self).current as int + 1].span)),
            old(self).tokens@[old(self).current as int].kind is Let && old(self).tokens@[old(self).current as int + 1].kind is Ident && old(self).tokens@[old(self).current as int + 2].kind is Eq
                && old(self).tokens@[old(self).current as int + 3].kind is LBracket && old(self).tokens@[old(self).current as int + 4].kind is RBracket ==> (r matches Err(d)
                && d.message@ == "cannot infer the element type of an empty array"@),
            old(self).tokens@[old(self).current as int + 3].kind matches TokenKind::StringLit(b) ==> (old(self).tokens@[old(self).current as int].kind is Let && old(self).tokens@[old(self).current as int + 1].kind is Ident
                && old(self).tokens@[old(self).current as int + 2].kind is Eq && (semi ==> old(self).tokens@[old(self).current as int + 4].kind is Semi) ==> (r matches Ok(
                Stmt::LetArray { len, init, .. },
            ) && len == ArrayLen::Inferred(b@.len() as usize) && (init matches Some(ArrayInit::Bytes(v, _))
                && v@ == b@))),
        decreases old(self).tokens@.len() - old(self).current, 28nat,
    {
        let ghost t = self.tokens@;
        let ghost c0 = self.current as int;
        let start = self.expect(&TokenKind::Let)?;
        let (name, name_span) = self.expect_ident()?;
        let typed = if self.match_kind(&TokenKind::Colon) {
            self.expect(&TokenKind::ByteTy)?;
            true
        } else {
            false
        };
        if typed && self.match_kind(&TokenKind::LBracket) {
            let len_expr = self.parse_expr()?;
            let ghost k = self.current as int;
            self.expect(&TokenKind::RBracket)?;
            let init = if self.match_kind(&TokenKind::Eq) {
                Some(self.parse_array_initializer()?)
            } else {
                None
            };
            let end = if semi {
                self.expect(&TokenKind::Semi)?
            } else {
                match &init {
                    Some(i) => i.span(),
                    None => len_expr.span(),
                }
            };
            let st = Stmt::LetArray {
                name,
                name_span,
                len: ArrayLen::Explicit(len_expr),
                init,
                span: start.join(end),
            };
            proof {
                assert(expr_at(t, c0 + 5, k, len_expr, 9));
                assert(let_array_at(t, c0, self.current as int, st, semi));
            }
            return Ok(st);
        }
        let init = if self.match_kind(&TokenKind::Eq) {
            if !typed && (self.at(&TokenKind::LBracket) || self.at(
                &TokenKind::StringLit(Vec::new()),
            )) {
                let init = self.parse_array_initializer()?;
                let empty_list = match &init {
                    ArrayInit::Items(items) => items.len() == 0,
                    ArrayInit::Bytes(_, _) => false,
                };
                if empty_list {
                    return Err(err_at(
                        "cannot infer the element type of an empty array",
                        init.span(),
                    ));
                }
                let len = init.len();
                let end = if semi {
                    self.expect(&TokenKind::Semi)?
                } else {
                    init.span()
                };
                let st = Stmt::LetArray {
                    name,
                    name_span,
                    len: ArrayLen::Inferred(len),
                    init: Some(init),
                    span: start.join(end),
                };
                proof {
                    assert(let_inferred_at(t, c0, self.current as int, st, semi));
                }
                return Ok(st);
            }
            Some(self.parse_expr()?)
        } else if typed {
            None
        } else {
            return Err(err_at("inferred byte declaration requires an initializer", name_span));
        };
        let end = if semi {
            self.expect(&TokenKind::Semi)?
        } else {
            match &init {
                Some(e) => e.span(),
                None => name_span,
            }
        };
        let st = Stmt::Let { name, name_span, init, span: start.join(end) };
        proof {
            assert(let_scalar_at(t, c0, self.current as int, st, semi));
        }
        Ok(st)
    }

    fn parse_array_initializer(&mut self) -> (r: Result<ArrayInit, Diagnostic>)
        requires
            old(self).valid(),
        ensures
            final(self).valid(),
            final(self).tokens@ == old(self).tokens@,
            final(self).current >= old(self).current,
            r is Ok ==> final(self).current > old(self).current,
            r matches Ok(a) ==> array_init_at(
                old(self).tokens@,
                old(self).current as int,
                final(self).current as int,
                a,
            ),
            old(self).tokens@[old(self).current as int].kind is StringLit ==> r is Ok,
            old(self).tokens@[old(self).current as int].kind is LBracket && old(self).tokens@[old(self).current as int + 1].kind is RBracket ==> r is Ok,
            old(self).tokens@[old(self).current as int].kind is LBracket && old(self).tokens@[old(self).current as int + 1].kind is RBracket
                ==> (r matches Ok(ArrayInit::Items(v)) && v@.len() == 0 && final(self).current == old(self).current + 2),
            old(self).tokens@[old(self).current as int].kind matches TokenKind::StringLit(b) ==> (r matches Ok(ArrayInit::Bytes(v, sp))
                && v@ == b@ && sp == old(self).tokens@[old(self).current as int].span && final(self).current == old(self).current + 1),
            !(old(self).tokens@[old(self).current as int].kind is StringLit || old(self).tokens@[old(self).current as int].kind is LBracket) ==> r is Err,
        decreases old(self).tokens@.len() - old(self).current, 27nat,
    {
        let ghost t = self.tokens@;
        let ghost c0 = self.current as int;
        if self.at(&TokenKind::StringLit(Vec::new())) {
            let i = self.advance();
            match &self.tokens[i].kind {
                TokenKind::StringLit(bytes) => {
                    return Ok(ArrayInit::Bytes(copy_bytes(bytes), self.tokens[i].span));
                },
                _ => {
                    return Err(err_at("expected string literal", self.tokens[i].span));
                },
            }
        }
        self.expect(&TokenKind::LBracket)?;
        let mut items: Vec<Expr> = Vec::new();
        if self.match_kind(&TokenKind::RBracket) {
            return Ok(ArrayInit::Items(items));
        }
        loop
            invariant_except_break
                items@.len() == 0 ==> self.current == c0 + 1,
                items@.len() > 0 ==> args_at(t, c0 + 1, self.current - 1, items@) && comma_at(
                    t,
                    self.current - 1,
                ),
            invariant
                self.valid(),
                self.tokens@ == old(self).tokens@,
                t == old(self).tokens@,
                c0 == old(self).current,
                self.current > old(self).current,
                t[c0].kind is LBracket,
                !(t[c0 + 1].kind is RBracket),
            ensures
                self.valid(),
                self.tokens@ == old(self).tokens@,
                self.current > c0 + 2,
                items@.len() > 0,
                t[self.current - 1].kind is RBracket,
                args_at(t, c0 + 1, self.current - 1, items@) || (t[self.current - 2].kind is Comma
                    && args_at(t, c0 + 1, self.current - 2, items@)),
            decreases self.tokens@.len() - self.current,
        {
            let ghost ca = self.current as int;
            let ghost before = items@;
            let item = self.parse_expr()?;
            items.push(item);
            proof {
                lemma_args_extend(t, c0 + 1, ca, self.current as int, before, item);
            }
            if self.match_kind(&TokenKind::Comma) {
                if self.match_kind(&TokenKind::RBracket) {
                    break;
                }
            } else {
                self.expect(&TokenKind::RBracket)?;
                break;
            }
        }
        Ok(ArrayInit::Items(items))
    }

    fn parse_assign_with_semi(&mut self, semi: bool) -> (r: Result<Stmt, Diagnostic>)
        requires
            old(self).valid(),
        ensures
            final(self).valid(),
            final(self).tokens@ == old(self).tokens@,
            final(self).current >= old(self).current,
            r is Ok ==> final(self).current > old(self).current,
            r matches Ok(st) ==> assign_at(
                old(self).tokens@,
                old(self).current as int,
                final(self).current as int,
                st,
                semi,
            ),
            old(self).tokens@[old(self).current as int].kind is Ident && old(self).tokens@[old(self).current as int + 1].kind is Eq && lone_byte(old(self).tokens@, old(self).current as int + 2) && (semi ==> old(self).tokens@[old(self).current as int + 3].kind is Semi)
                ==> r is Ok,
            old(self).tokens@[old(self).current as int].kind is Ident && assign_op_of(old(self).tokens@[old(self).current as int + 1].kind) is Some && lone_byte(old(self).tokens@, old(self).current as int + 2)
                && (semi ==> old(self).tokens@[old(self).current as int + 3].kind is Semi) ==> r is Ok,
            old(self).tokens@[old(self).current as int].kind matches TokenKind::Ident(x) ==> (assign_op_of(old(self).tokens@[old(self).current as int + 1].kind) matches Some(Some(o))
                ==> (r matches Ok(Stmt::Assign { name, expr, .. }) ==> name == x && (expr matches Expr::Binary {
                left,
                op,
                ..
            } && op == o && (*left matches Expr::Var(n, _) && n == x)))),
        decreases old(self).tokens@.len() - old(self).current, 28nat,
    {
        let ghost t = self.tokens@;
        let ghost c0 = self.current as int;
        let (name, name_span) = self.expect_ident()?;
        let ghost k = 0int;
        let array_index = if self.match_kind(&TokenKind::LBracket) {
            let index = self.parse_expr()?;
            proof {
                k = self.current as int;
            }
            self.expect(&TokenKind::RBracket)?;
            Some(index)
        } else {
            None
        };
        let ghost p = self.current as int;
        let compound: Option<BinOp> = if self.match_kind(&TokenKind::Eq) {
            None
        } else if self.match_kind(&TokenKind::PlusEq) {
            Some(BinOp::Add)
        } else if self.match_kind(&TokenKind::MinusEq) {
            Some(BinOp::Sub)
        } else if self.match_kind(&TokenKind::StarEq) {
            Some(BinOp::Mul)
        } else if self.match_kind(&TokenKind::SlashEq) {
            Some(BinOp::Div)
        } else if self.match_kind(&TokenKind::PercentEq) {
            Some(BinOp::Mod)
        } else if self.match_kind(&TokenKind::AmpEq) {
            Some(BinOp::BitAnd)
        } else if self.match_kind(&TokenKind::PipeEq) {
            Some(BinOp::BitOr)
        } else if self.match_kind(&TokenKind::CaretEq) {
            Some(BinOp::BitXor)
        } else if self.match_kind(&TokenKind::ShlEq) {
            Some(BinOp::Shl)
        } else if self.match_kind(&TokenKind::ShrEq) {
            Some(BinOp::Shr)
        } else {
            let mut msg = "expected assignment operator, found ".to_string();
            let found = describe_kind(self.peek());
            msg.append(found.as_str());
            return Err(self.error_here(msg));
        };
        assert(assign_op_of(t[p].kind) == Some(compound));
        let rhs = self.parse_expr()?;
        let end = if semi {
            self.expect(&TokenKind::Semi)?
        } else {
            rhs.span()
        };
        match array_index {
            Some(index) => {
                let expr = match compound {
                    Some(op) => {
                        let span = name_span.join(rhs.span());
                        let index_span = index.span();
                        Expr::Binary {
                            left: Box::new(
                                Expr::ArrayGet {
                                    name: name.clone(),
                                    name_span,
                                    index: Box::new(copy_expr(&index)),
                                    span: name_span.join(index_span),
                                },
                            ),
                            op,
                            right: Box::new(rhs),
                            span,
                        }
                    },
                    None => rhs,
                };
                let st = Stmt::ArrayAssign { name, name_span, index, expr, span: name_span.join(end) };
                proof {
                    assert(expr_at(t, c0 + 2, k, index, 9));
                    assert(assign_at(t, c0, self.current as int, st, semi));
                }
                Ok(st)
            },
            None => {
                let expr = match compound {
                    Some(op) => {
                        let span = name_span.join(rhs.span());
                        Expr::Binary {
                            left: Box::new(Expr::Var(name.clone(), name_span)),
                            op,
                            right: Box::new(rhs),
                            span,
                        }
                    },
                    None => rhs,
                };
                let st = Stmt::Assign { name, name_span, expr, span: name_span.join(end) };
                proof {
                    assert(assign_at(t, c0, self.current as int, st, semi));
                }
                Ok(st)
            },
        }
    }

    fn parse_put(&mut self) -> (r: Result<Stmt, Diagnostic>)
        requires
            old(self).valid(),
        ensures
            final(self).valid(),
            final(self).tokens@ == old(self).tokens@,
            final(self).current >= old(self).current,
            r is Ok ==> final(self).current > old(self).current,
            r matches Ok(st) ==> simple_stmt_at(
                old(self).tokens@,
                old(self).current as int,
                final(self).current as int,
                st,
            ),
            old(self).tokens@[old(self).current as int].kind is Put && lone_byte(old(self).tokens@, old(self).current as int + 1) && old(self).tokens@[old(self).current as int + 2].kind is Semi ==> r is Ok
                && final(self).current == old(self).current + 3,
            !(old(self).tokens@[old(self).current as int].kind is Put) ==> r is Err,
            old(self).tokens@[old(self).current as int].kind is Put && big_number_at(old(self).tokens@, old(self).current + 1)
                ==> out_of_range_at(r, old(self).tokens@, old(self).current + 1),
        decreases old(self).tokens@.len() - old(self).current, 28nat,
    {
        let ghost t = self.tokens@;
        let ghost c0 = self.current as int;
        let start = self.expect(&TokenKind::Put)?;
        let expr = self.parse_expr()?;
        let end = self.expect(&TokenKind::Semi)?;
        Ok(Stmt::Put(expr, start.join(end)))
    }

    fn parse_puts(&mut self) -> (r: Result<Stmt, Diagnostic>)
        requires
            old(self).valid(),
        ensures
            final(self).valid(),
            final(self).tokens@ == old(self).tokens@,
            final(self).current >= old(self).current,
            r is Ok ==> final(self).current > old(self).current,
            r matches Ok(st) ==> simple_stmt_at(
                old(self).tokens@,
                old(self).current as int,
                final(self).current as int,
                st,
            ),
            r is Ok <==> (old(self).tokens@[old(self).current as int].kind is Puts && old(self).tokens@[old(self).current as int + 1].kind is StringLit && old(self).tokens@[old(self).current as int
                + 2].kind is Semi),
    {
        let ghost t = self.tokens@;
        let ghost c0 = self.current as int;
        let start = self.expect(&TokenKind::Puts)?;
        let i = self.advance();
        let bytes = match &self.tokens[i].kind {
            TokenKind::StringLit(bytes) => copy_bytes(bytes),
            kind => {
                let mut msg = "expected string literal, found ".to_string();
                let found = describe_kind(kind);
                msg.append(found.as_str());
                return Err(Diagnostic::new(msg, self.tokens[i].span));
            },
        };
        let end = self.expect(&TokenKind::Semi)?;
        Ok(Stmt::Puts(bytes, start.join(end)))
    }

    fn parse_print(&mut self, newline: bool) -> (r: Result<Stmt, Diagnostic>)
        requires
            old(self).valid(),
        ensures
            final(self).valid(),
            final(self).tokens@ == old(self).tokens@,
            final(self).current >= old(self).current,
            r is Ok ==> final(self).current > old(self).current,
            r matches Ok(st) ==> simple_stmt_at(
                old(self).tokens@,
                old(self).current as int,
                final(self).current as int,
                st,
            ),
            (if newline { old(self).tokens@[old(self).current as int].kind is Println } else { old(self).tokens@[old(self).current as int].kind is Print }) && lone_byte(old(self).tokens@, old(self).current as int + 1)
                && old(self).tokens@[old(self).current as int + 2].kind is Semi ==> r is Ok,
        decreases old(self).tokens@.len() - old(self).current, 28nat,
    {
        let ghost t = self.tokens@;
        let ghost c0 = self.current as int;
        let start = if newline {
            self.expect(&TokenKind::Println)?
        } else {
            self.expect(&TokenKind::Print)?
        };
        if !newline && self.at(&TokenKind::StringLit(Vec::new())) {
            let i = self.advance();
            let token_span = self.tokens[i].span;
            let segments = match &self.tokens[i].kind {
                TokenKind::StringLit(bytes) => parse_format_segments(bytes, token_span)?,
                _ => {
                    return Err(err_at("expected string literal", token_span));
                },
            };
            let mut args: Vec<Expr> = Vec::new();
            loop
                invariant
                    self.valid(),
                    self.tokens@ == old(self).tokens@,
                    t == old(self).tokens@,
                    c0 == old(self).current,
                    self.current >= c0 + 2,
                    args@.len() == 0 ==> self.current == c0 + 2,
                    args@.len() > 0 ==> args_at(t, c0 + 3, self.current as int, args@) && t[c0
                        + 2].kind is Comma,
                decreases self.tokens@.len() - self.current,
            {
                let ghost ca = self.current as int;
                let ghost before = args@;
                if !self.match_kind(&TokenKind::Comma) {
                    break;
                }
                let item = self.parse_expr()?;
                args.push(item);
                proof {
                    assert(comma_at(t, ca));
                    lemma_args_extend(t, c0 + 3, ca + 1, self.current as int, before, item);
                }
            }
            let end = self.expect(&TokenKind::Semi)?;
            let placeholders = count_placeholders(&segments);
            if placeholders != args.len() {
                let mut msg = "format string has ".to_string();
                let a = decimal(placeholders as u64);
                msg.append(a.as_str());
                msg.append(" placeholders, but ");
                let b = decimal(args.len() as u64);
                msg.append(b.as_str());
                msg.append(" arguments were provided");
                return Err(Diagnostic::new(msg, token_span));
            }
            return Ok(Stmt::PrintFormat { segments, args, span: start.join(end) });
        }
        let expr = self.parse_expr()?;
        let end = self.expect(&TokenKind::Semi)?;
        if newline {
            Ok(Stmt::Println(expr, start.join(end)))
        } else {
            Ok(Stmt::Print(expr, start.join(end)))
        }
    }

    fn parse_read(&mut self) -> (r: Result<Stmt, Diagnostic>)
        requires
            old(self).valid(),
        ensures
            final(self).valid(),
            final(self).tokens@ == old(self).tokens@,
            final(self).current >= old(self).current,
            r is Ok ==> final(self).current > old(self).current,
            r matches Ok(st) ==> simple_stmt_at(
                old(self).tokens@,
                old(self).current as int,
                final(self).current as int,
                st,
            ),
            old(self).tokens@[old(self).current as int].kind is Read && old(self).tokens@[old(self).current as int + 1].kind is Ident && !(old(self).tokens@[old(self).current as int + 2].kind is LBracket) ==> (r is Ok <==> old(self).tokens@[old(self).current as int + 2].kind is Semi),
        decreases old(self).tokens@.len() - old(self).current, 28nat,
    {
        let ghost t = self.tokens@;
        let ghost c0 = self.current as int;
        self.expect(&TokenKind::Read)?;
        let (name, name_span) = self.expect_ident()?;
        if self.match_kind(&TokenKind::LBracket) {
            let index = self.parse_expr()?;
            let end = self.expect(&TokenKind::RBracket)?;
            self.expect(&TokenKind::Semi)?;
            Ok(Stmt::ReadArray { name, name_span, index, span: name_span.join(end) })
        } else {
            self.expect(&TokenKind::Semi)?;
            Ok(Stmt::Read(name, name_span))
        }
    }

    fn parse_return(&mut self) -> (r: Result<Stmt, Diagnostic>)
        requires
            old(self).valid(),
        ensures
            final(self).valid(),
            final(self).tokens@ == old(self).tokens@,
            final(self).current >= old(self).current,
            r is Ok ==> final(self).current > old(self).current,
            r matches Ok(st) ==> simple_stmt_at(
                old(self).tokens@,
                old(self).current as int,
                final(self).current as int,
                st,
            ),
            old(self).tokens@[old(self).current as int].kind is Return && old(self).tokens@[old(self).current as int + 1].kind is Semi ==> r is Ok,
        decreases old(self).tokens@.len() - old(self).current, 28nat,
    {
        let ghost t = self.tokens@;
        let ghost c0 = self.current as int;
        let start = self.expect(&TokenKind::Return)?;
        let expr = if self.at(&TokenKind::Semi) {
            None
        } else {
            Some(self.parse_expr()?)
        };
        let end = self.expect(&TokenKind::Semi)?;
        Ok(Stmt::Return(expr, start.join(end)))
    }

    fn parse_call_stmt(&mut self) -> (r: Result<Stmt, Diagnostic>)
        requires
            old(self).valid(),
            old(self).tokens@[old(self).current as int].kind is Ident,
        ensures
            final(self).valid(),
            final(self).tokens@ == old(self).tokens@,
            final(self).current >= old(self).current,
            r is Ok ==> final(self).current > old(self).current,
            r matches Ok(st) ==> simple_stmt_at(
                old(self).tokens@,
                old(self).current as int,
                final(self).current as int,
                st,
            ),
            old(self).tokens@[old(self).current as int + 1].kind is LParen && old(self).tokens@[old(self).current as int + 2].kind is RParen && old(self).tokens@[old(self).current as int + 3].kind is Semi ==> r is Ok,
        decreases old(self).tokens@.len() - old(self).current, 28nat,
    {
        let ghost t = self.tokens@;
        let ghost c0 = self.current as int;
        let expr = self.parse_primary()?;
        let ghost e0 = expr;
        let end = self.expect(&TokenKind::Semi)?;
        match expr {
            Expr::Call { name, name_span, args, span } => {
                let st = Stmt::Call { name, name_span, args, span: span.join(end) };
                proof {
                    assert(e0 == Expr::Call { name, name_span, args, span });
                    assert(expr_at(t, c0, self.current - 1, Expr::Call { name, name_span, args, span }, 0));
                    assert(span == call_span(t, c0, self.current - 1));
                }
                Ok(st)
            },
            other => Err(err_at("expected function call", other.span())),
        }
    }

    fn parse_if(&mut self) -> (r: Result<Stmt, Diagnostic>)
        requires
            old(self).valid(),
        ensures
            final(self).valid(),
            final(self).tokens@ == old(self).tokens@,
            final(self).current >= old(self).current,
            r is Ok ==> final(self).current > old(self).current,
            r matches Ok(st) ==> stmt_at(
                old(self).tokens@,
                old(self).current as int,
                final(self).current as int,
                st,
            ),
            r matches Ok(st) ==> st is If,
            old(self).tokens@[old(self).current as int].kind is If && lone_byte(old(self).tokens@, old(self).current as int + 1) && old(self).tokens@[old(self).current as int + 2].kind is LBrace && old(self).tokens@[old(self).current as int + 3].kind is RBrace && !(old(self).tokens@[old(self).current as int + 4].kind is Else)
                ==> r is Ok,
        decreases old(self).tokens@.len() - old(self).current, 28nat,
    {
        let ghost t = self.tokens@;
        let ghost c0 = self.current as int;
        let start = self.expect(&TokenKind::If)?;
        let cond = self.parse_expr()?;
        let ghost k = self.current as int;
        let (then_branch, then_span) = self.parse_block_with_span()?;
        let ghost m = self.current as int;
        let (else_branch, end) = if self.match_kind(&TokenKind::Else) {
            if self.at(&TokenKind::If) {
                let stmt = self.parse_if()?;
                let span = stmt_span(&stmt);
                let v = vec![stmt];
                assert(v@ =~= seq![stmt]);
                (v, span)
            } else {
                self.parse_block_with_span()?
            }
        } else {
            (Vec::new(), then_span)
        };
        let st = Stmt::If { cond, then_branch, else_branch, span: start.join(end) };
        proof {
            assert(expr_at(t, c0 + 1, k, cond, 9));
            assert(pos(t, m));
        }
        Ok(st)
    }

    fn parse_for(&mut self) -> (r: Result<Stmt, Diagnostic>)
        requires
            old(self).valid(),
        ensures
            final(self).valid(),
            final(self).tokens@ == old(self).tokens@,
            final(self).current >= old(self).current,
            r is Ok ==> final(self).current > old(self).current,
            r matches Ok(st) ==> stmt_at(
                old(self).tokens@,
                old(self).current as int,
                final(self).current as int,
                st,
            ),
            old(self).tokens@[old(self).current as int].kind is For && old(self).tokens@[old(self).current as int + 1].kind is Semi && old(self).tokens@[old(self).current as int + 2].kind is Semi && old(self).tokens@[old(self).current as int + 3].kind is LBrace && old(self).tokens@[old(self).current as int + 4].kind is RBrace ==> r is Ok,
        decreases old(self).tokens@.len() - old(self).current, 28nat,
    {
        let ghost t = self.tokens@;
        let ghost c0 = self.current as int;
        let start = self.expect(&TokenKind::For)?;
        let init = if self.match_kind(&TokenKind::Semi) {
            None
        } else {
            let init = if self.at(&TokenKind::Let) {
                self.parse_let_with_semi(false)?
            } else if self.at(&TokenKind::Ident(String::new())) {
                proof {
                    lemma_same_tag(self.tokens@[self.current as int].kind, TokenKind::Ident(vstd::pervasive::arbitrary()));
                }
                self.parse_assign_with_semi(false)?
            } else {
                let mut msg = "expected for initializer, found ".to_string();
                let found = describe_kind(self.peek());
                msg.append(found.as_str());
                return Err(self.error_here(msg));
            };
            self.expect(&TokenKind::Semi)?;
            Some(Box::new(init))
        };
        let ghost p = self.current as int;
        let cond = if self.match_kind(&TokenKind::Semi) {
            None
        } else {
            let cond = self.parse_expr()?;
            self.expect(&TokenKind::Semi)?;
            Some(cond)
        };
        let ghost q = self.current as int;
        let step = if self.at(&TokenKind::LBrace) {
            None
        } else if self.at(&TokenKind::Ident(String::new())) {
            Some(Box::new(self.parse_assign_with_semi(false)?))
        } else {
            let mut msg = "expected for step assignment, found ".to_string();
            let found = describe_kind(self.peek());
            msg.append(found.as_str());
            return Err(self.error_here(msg));
        };
        let ghost r = self.current as int;
        let (body, end) = self.parse_block_with_span()?;
        let st = Stmt::For { init, cond, step, body, span: start.join(end) };
        proof {
            assert(for_head_at(t, c0, p, q, r, init, cond, step));
        }
        Ok(st)
    }

    fn parse_block_with_span(&mut self) -> (r: Result<(Vec<Stmt>, Span), Diagnostic>)
        requires
            old(self).valid(),
        ensures
            final(self).valid(),
            final(self).tokens@ == old(self).tokens@,
            final(self).current >= old(self).current,
            r is Ok ==> final(self).current > old(self).current,
            r matches Ok((ss, sp)) ==> block_at(
                old(self).tokens@,
                old(self).current as int,
                final(self).current as int,
                ss@,
            ) && sp == old(self).tokens@[old(self).current as int].span.join_spec(
                old(self).tokens@[final(self).current - 1].span,
            ),
            old(self).tokens@[old(self).current as int].kind is LBrace && old(self).tokens@[old(self).current as int + 1].kind is RBrace ==> (r matches Ok((ss, _)) && ss@.len() == 0
                && final(self).current == old(self).current + 2),
            !(old(self).tokens@[old(self).current as int].kind is LBrace) ==> r is Err,
        decreases old(self).tokens@.len() - old(self).current, 28nat,
    {
        let ghost t = self.tokens@;
        let ghost c0 = self.current as int;
        let start = self.expect(&TokenKind::LBrace)?;
        let mut stmts: Vec<Stmt> = Vec::new();
        loop
            invariant
                self.valid(),
                self.tokens@ == old(self).tokens@,
                t == old(self).tokens@,
                c0 == old(self).current,
                self.current > old(self).current,
                stmts_at(t, c0 + 1, self.current as int, stmts@),
                t[c0].kind is LBrace,
                t[c0 + 1].kind is RBrace ==> self.current == c0 + 1 && stmts@.len() == 0,
            decreases self.tokens@.len() - self.current,
        {
            if self.at(&TokenKind::RBrace) {
                break;
            }
            if self.at(&TokenKind::Eof) {
                return Err(err_at("unterminated block", start));
            }
            let ghost ca = self.current as int;
            let ghost before = stmts@;
            let st = self.parse_stmt()?;
            stmts.push(st);
            proof {
                lemma_stmts_push(t, c0 + 1, ca, self.current as int, before, st);
            }
        }
        let end = self.expect(&TokenKind::RBrace)?;
        Ok((stmts, start.join(end)))
    }

    fn parse_expr(&mut self) -> (r: Result<Expr, Diagnostic>)
        requires
            old(self).valid(),
        ensures
            final(self).valid(),
            final(self).tokens@ == old(self).tokens@,
            final(self).current >= old(self).current,
            r is Ok ==> final(self).current > old(self).current,
            r matches Ok(e) ==> expr_at(
                old(self).tokens@,
                old(self).current as int,
                final(self).current as int,
                e,
                9,
            ),
            (old(self).tokens@[old(self).current as int].kind matches TokenKind::Number(n) && n <= 255) && binop_of(old(self).tokens@[old(self).current as int + 1].kind) is None ==> r is Ok && final(self).current
                == old(self).current + 1,
            big_number_at(old(self).tokens@, old(self).current as int) ==> out_of_range_at(r, old(self).tokens@, old(self).current as int),
        decreases old(self).tokens@.len() - old(self).current, 12nat,
    {
        self.parse_binary_level(9)
    }

    /// Parses a left-associative chain of operators of one precedence level
    /// (9 `||`, 8 `&&`, 7 `|`, 6 `^`, 5 `&`, 4 comparisons, 3 shifts, 2 `+ -`, 1 `* / %`);
    /// level 0 is a unary expression.
    fn parse_binary_level(&mut self, level: u8) -> (r: Result<Expr, Diagnostic>)
        requires
            old(self).valid(),
            level <= 9,
        ensures
            final(self).valid(),
            final(self).tokens@ == old(self).tokens@,
            final(self).current >= old(self).current,
            r is Ok ==> final(self).current > old(self).current,
            r matches Ok(e) ==> expr_at(
                old(self).tokens@,
                old(self).current as int,
                final(self).current as int,
                e,
                level as nat,
            ),
            (old(self).tokens@[old(self).current as int].kind matches TokenKind::Number(n) && n <= 255) && binop_of(old(self).tokens@[old(self).current as int + 1].kind) is None ==> r is Ok && final(self).current
                == old(self).current + 1,
            big_number_at(old(self).tokens@, old(self).current as int) ==> out_of_range_at(r, old(self).tokens@, old(self).current as int),
        decreases old(self).tokens@.len() - old(self).current, 2nat + level as nat,
    {
        if level == 0 {
            return self.parse_unary();
        }
        let ghost t = self.tokens@;
        let ghost c0 = self.current as int;
        let mut expr = self.parse_binary_level(level - 1)?;
        assert(expr_at(t, c0, self.current as int, expr, level as nat));
        loop
            invariant
                self.valid(),
                self.tokens@ == old(self).tokens@,
                t == old(self).tokens@,
                c0 == old(self).current,
                self.current > old(self).current,
                1 <= level <= 9,
                expr_at(t, c0, self.current as int, expr, level as nat),
                (t[c0].kind matches TokenKind::Number(n) && n <= 255) && binop_of(t[c0 + 1].kind) is None
                    ==> self.current == c0 + 1,
                !big_number_at(t, c0),
            decreases self.tokens@.len() - self.current,
        {
            let ghost cop = self.current as int;
            let op = match self.match_operator(level) {
                Some(op) => op,
                None => break,
            };
            let right = self.parse_binary_level(level - 1)?;
            let ghost left = expr;
            expr = binary(expr, op, right);
            proof {
                assert(binop_of(t[cop].kind) == Some(op));
                assert(expr_at(t, c0, self.current as int, expr, level as nat));
            }
        }
        Ok(expr)
    }

    /// Consumes an operator of the given precedence level, if the current token is one.
    fn match_operator(&mut self, level: u8) -> (r: Option<BinOp>)
        requires
            old(self).valid(),
        ensures
            final(self).valid(),
            final(self).tokens@ == old(self).tokens@,
            r is Some ==> final(self).current == old(self).current + 1,
            r is None ==> final(self).current == old(self).current,
            r matches Some(op) ==> binop_of(old(self).tokens@[old(self).current as int].kind)
                == Some(op) && binop_level(op) == level,
            r is Some <==> (binop_of(old(self).tokens@[old(self).current as int].kind) matches Some(op) && binop_level(op) == level),
    {
        if level == 9 {
            if self.match_kind(&TokenKind::OrOr) { Some(BinOp::Or) } else { None }
        } else if level == 8 {
            if self.match_kind(&TokenKind::AndAnd) { Some(BinOp::And) } else { None }
        } else if level == 7 {
            if self.match_kind(&TokenKind::Pipe) { Some(BinOp::BitOr) } else { None }
        } else if level == 6 {
            if self.match_kind(&TokenKind::Caret) { Some(BinOp::BitXor) } else { None }
        } else if level == 5 {
            if self.match_kind(&TokenKind::Amp) { Some(BinOp::BitAnd) } else { None }
        } else if level == 4 {
            if self.match_kind(&TokenKind::EqEq) {
                Some(BinOp::Eq)
            } else if self.match_kind(&TokenKind::BangEq) {
                Some(BinOp::Ne)
            } else if self.match_kind(&TokenKind::Lt) {
                Some(BinOp::Lt)
            } else if self.match_kind(&TokenKind::LtEq) {
                Some(BinOp::Le)
            } else if self.match_kind(&TokenKind::Gt) {
                Some(BinOp::Gt)
            } else if self.match_kind(&TokenKind::GtEq) {
                Some(BinOp::Ge)
            } else {
                None
            }
        } else if level == 3 {
            if self.match_kind(&TokenKind::Shl) {
                Some(BinOp::Shl)
            } else if self.match_kind(&TokenKind::Shr) {
                Some(BinOp::Shr)
            } else {
                None
            }
        } else if level == 2 {
            if self.match_kind(&TokenKind::Plus) {
                Some(BinOp::Add)
            } else if self.match_kind(&TokenKind::Minus) {
                Some(BinOp::Sub)
            } else {
                None
            }
        } else if level == 1 {
            if self.match_kind(&TokenKind::Star) {
                Some(BinOp::Mul)
            } else if self.match_kind(&TokenKind::Slash) {
                Some(BinOp::Div)
            } else if self.match_kind(&TokenKind::Percent) {
                Some(BinOp::Mod)
            } else {
                None
            }
        } else {
            None
        }
    }

    fn parse_unary(&mut self) -> (r: Result<Expr, Diagnostic>)
        requires
            old(self).valid(),
        ensures
            final(self).valid(),
            final(self).tokens@ == old(self).tokens@,
            final(self).current >= old(self).current,
            r is Ok ==> final(self).current > old(self).current,
            r matches Ok(e) ==> expr_at(
                old(self).tokens@,
                old(self).current as int,
                final(self).current as int,
                e,
                0,
            ),
            (old(self).tokens@[old(self).current as int].kind matches TokenKind::Number(n) && n <= 255) ==> r is Ok && final(self).current == old(self).current + 1,
            big_number_at(old(self).tokens@, old(self).current as int) ==> out_of_range_at(r, old(self).tokens@, old(self).current as int),
            !(old(self).tokens@[old(self).current as int].kind is Number || old(self).tokens@[old(self).current as int].kind is True || old(self).tokens@[old(self).current as int].kind is False
                || old(self).tokens@[old(self).current as int].kind is Ident || old(self).tokens@[old(self).current as int].kind is LParen || old(self).tokens@[old(self).current as int].kind is Bang
                || old(self).tokens@[old(self).current as int].kind is Tilde) ==> r is Err,
        decreases old(self).tokens@.len() - old(self).current, 1nat,
    {
        if let Some(op_span) = self.match_token(&TokenKind::Bang) {
            let expr = self.parse_unary()?;
            let span = op_span.join(expr.span());
            return Ok(Expr::Unary { op: UnOp::Not, expr: Box::new(expr), span });
        }
        if let Some(op_span) = self.match_token(&TokenKind::Tilde) {
            let expr = self.parse_unary()?;
            let span = op_span.join(expr.span());
            return Ok(Expr::Unary { op: UnOp::BitNot, expr: Box::new(expr), span });
        }
        self.parse_primary()
    }

    fn parse_primary(&mut self) -> (r: Result<Expr, Diagnostic>)
        requires
            old(self).valid(),
        ensures
            final(self).valid(),
            final(self).tokens@ == old(self).tokens@,
            final(self).current >= old(self).current,
            r is Ok ==> final(self).current > old(self).current,
            r matches Ok(e) ==> expr_at(
                old(self).tokens@,
                old(self).current as int,
                final(self).current as int,
                e,
                0,
            ),
            old(self).tokens@[old(self).current as int].kind matches TokenKind::Number(n) ==> (r is Ok <==> n <= 255),
            big_number_at(old(self).tokens@, old(self).current as int) ==> out_of_range_at(r, old(self).tokens@, old(self).current as int),
            old(self).tokens@[old(self).current as int].kind is True || old(self).tokens@[old(self).current as int].kind is False ==> r is Ok,
            old(self).tokens@[old(self).current as int].kind is Ident && !(old(self).tokens@[old(self).current as int + 1].kind is LParen) && !(old(self).tokens@[old(self).current as int
                + 1].kind is LBracket) ==> r is Ok,
            !(old(self).tokens@[old(self).current as int].kind is Number || old(self).tokens@[old(self).current as int].kind is True || old(self).tokens@[old(self).current as int].kind is False
                || old(self).tokens@[old(self).current as int].kind is Ident || old(self).tokens@[old(self).current as int].kind is LParen) ==> r is Err,
            old(self).tokens@[old(self).current as int].kind is Ident && old(self).tokens@[old(self).current as int
                + 1].kind is LParen && old(self).tokens@[old(self).current as int + 2].kind is RParen ==> r is Ok
                && final(self).current == old(self).current + 3,
            r is Ok && !(old(self).tokens@[old(self).current as int].kind is Ident || old(self).tokens@[old(self).current as int].kind is LParen) ==> final(self).current
                == old(self).current + 1,
        decreases old(self).tokens@.len() - old(self).current, 0nat,
    {
        let ghost t = self.tokens@;
        let ghost c0 = self.current as int;
        let i = self.advance();
        let span = self.tokens[i].span;
        match &self.tokens[i].kind {
            TokenKind::Number(n) => {
                if *n > 255 {
                    Err(err_at("byte literal out of range", span))
                } else {
                    Ok(Expr::Byte(*n as u8, span))
                }
            },
            TokenKind::True => Ok(Expr::Byte(1, span)),
            TokenKind::False => Ok(Expr::Byte(0, span)),
            TokenKind::Ident(name) => {
                let name = name.clone();
                if self.match_kind(&TokenKind::LParen) {
                    let mut args: Vec<Expr> = Vec::new();
                    let end = if self.match_kind(&TokenKind::RParen) {
                        span
                    } else {
                        let mut end = span;
                        loop
                            invariant_except_break
                                args@.len() == 0 ==> self.current == c0 + 2,
                                args@.len() > 0 ==> args_at(t, c0 + 2, self.current - 1, args@)
                                    && comma_at(t, self.current - 1),
                            invariant
                                self.valid(),
                                self.tokens@ == old(self).tokens@,
                                t == old(self).tokens@,
                                c0 == old(self).current,
                                self.current >= c0 + 2,
                                t[c0].kind is Ident,
                                t[c0 + 1].kind is LParen,
                                !(t[c0 + 2].kind is RParen),
                            ensures
                                self.valid(),
                                self.tokens@ == old(self).tokens@,
                                args@.len() > 0,
                                args_at(t, c0 + 2, self.current - 1, args@),
                                t[self.current - 1].kind is RParen,
                                end == t[self.current - 1].span,
                            decreases self.tokens@.len() - self.current,
                        {
                            let ghost ca = self.current as int;
                            let ghost before = args@;
                            let item = self.parse_expr()?;
                            args.push(item);
                            proof {
                                lemma_args_extend(t, c0 + 2, ca, self.current as int, before, item);
                            }
                            if self.match_kind(&TokenKind::Comma) {
                                continue;
                            }
                            end = self.expect(&TokenKind::RParen)?;
                            break;
                        }
                        end
                    };
                    Ok(Expr::Call { name, name_span: span, args, span: span.join(end) })
                } else if self.match_kind(&TokenKind::LBracket) {
                    let index = self.parse_expr()?;
                    let end = self.expect(&TokenKind::RBracket)?;
                    Ok(
                        Expr::ArrayGet {
                            name,
                            name_span: span,
                            index: Box::new(index),
                            span: span.join(end),
                        },
                    )
                } else {
                    Ok(Expr::Var(name, span))
                }
            },
            TokenKind::LParen => {
                let expr = self.parse_expr()?;
                self.expect(&TokenKind::RParen)?;
                Ok(expr)
            },
            kind => {
                let mut msg = "expected expression, found ".to_string();
                let found = describe_kind(kind);
                msg.append(found.as_str());
                Err(Diagnostic::new(msg, span))
            },
        }
    }
}

} // verus!
