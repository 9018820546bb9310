use vstd::prelude::*;
use crate::bf::{all_bf, depth, is_bf_char, never_negative, valid_bf};
use crate::text::{chars_of, decimal_chars, push_decimal};

verus! {

/// Cells on the interpreter's tape.
pub const TAPE_SIZE: usize = 30_000;

/// An optimized Brainfuck operation.
#[derive(Debug, PartialEq, Eq)]
pub enum Op {
    /// Adds to the current cell (a run of `+` and `-`).
    Add(i16),
    /// Moves the data pointer (a run of `>` and `<`).
    Move(isize),
    Input,
    Output,
    /// `[-]` or `[+]`: sets the current cell to zero.
    Clear,
    /// A balanced transfer loop such as `[->++<]`: adds the current cell times each factor to
    /// the cell at each offset, then clears the current cell.
    AddMul(Vec<(isize, i16)>),
    Loop(Vec<Op>),
}

/// A parsed Brainfuck program.
#[derive(Debug, PartialEq, Eq)]
pub struct Program {
    ops: Vec<Op>,
}

/// An operation as the semantics see it.
pub enum OpView {
    Add(i16),
    Move(isize),
    Input,
    Output,
    Clear,
    AddMul(Seq<(isize, i16)>),
    Loop(Seq<OpView>),
}

pub open spec fn op_view(op: Op) -> OpView
    decreases op,
{
    match op {
        Op::Add(d) => OpView::Add(d),
        Op::Move(d) => OpView::Move(d),
        Op::Input => OpView::Input,
        Op::Output => OpView::Output,
        Op::Clear => OpView::Clear,
        Op::AddMul(e) => OpView::AddMul(e@),
        Op::Loop(body) => OpView::Loop(ops_view(body@)),
    }
}

pub open spec fn ops_view(ops: Seq<Op>) -> Seq<OpView>
    decreases ops,
{
    if ops.len() == 0 {
        Seq::empty()
    } else {
        ops_view(ops.drop_last()).push(op_view(ops.last()))
    }
}

/// The Brainfuck instruction characters of a text, in order; everything else is a comment.
pub open spec fn bf_chars(s: Seq<char>) -> Seq<char>
    decreases s.len(),
{
    if s.len() == 0 {
        s
    } else if is_bf_char(s.last()) {
        bf_chars(s.drop_last()).push(s.last())
    } else {
        bf_chars(s.drop_last())
    }
}

/// Every `]` closes an earlier `[` and every `[` is closed.
pub open spec fn balanced(f: Seq<char>) -> bool {
    never_negative(f) && depth(f) == 0
}

/// Instruction `i` is the first `]` that closes no `[`.
pub open spec fn first_unmatched_close(f: Seq<char>, i: int) -> bool {
    &&& 0 <= i < f.len()
    &&& never_negative(f.take(i))
    &&& depth(f.take(i + 1)) < 0
}

pub open spec fn unmatched_close_msg(i: nat) -> Seq<char> {
    "unmatched `]` at instruction "@ + decimal_chars(i)
}

pub open spec fn unmatched_open_msg() -> Seq<char> {
    "unmatched `[`"@
}

/// What parsing reports for instructions with unbalanced brackets.
pub open spec fn bracket_error(f: Seq<char>, e: Seq<char>) -> bool {
    ||| exists|i: int| first_unmatched_close(f, i) && e == unmatched_close_msg(i as nat)
    ||| never_negative(f) && depth(f) > 0 && e == unmatched_open_msg()
}

proof fn lemma_take_full(s: Seq<char>)
    ensures
        s.take(s.len() as int) == s,
{
    assert(s.take(s.len() as int) =~= s);
}

/// The Brainfuck characters of `src`.
fn filter_bf(src: &str) -> (f: Vec<char>)
    ensures
        f@ == bf_chars(src@),
{
    let chars = chars_of(src);
    let mut f: Vec<char> = Vec::new();
    let mut i: usize = 0;
    while i < chars.len()
        invariant
            chars@ == src@,
            i <= chars@.len(),
            f@ == bf_chars(chars@.take(i as int)),
        decreases chars@.len() - i,
    {
        let c = chars[i];
        proof {
            assert(chars@.take(i + 1).drop_last() =~= chars@.take(i as int));
        }
        if c == '+' || c == '-' || c == '<' || c == '>' || c == '.' || c == ',' || c == '['
            || c == ']' {
            f.push(c);
        }
        i = i + 1;
    }
    proof {
        assert(chars@.take(chars@.len() as int) =~= chars@);
    }
    f
}

/// Checks that the brackets of the instructions match.
fn check_brackets(f: &Vec<char>) -> (r: Result<(), String>)
    ensures
        r is Ok <==> balanced(f@),
        r matches Err(e) ==> bracket_error(f@, e@),
{
    let mut d: usize = 0;
    let mut i: usize = 0;
    while i < f.len()
        invariant
            i <= f@.len(),
            never_negative(f@.take(i as int)),
            d == depth(f@.take(i as int)),
            d <= i,
        decreases f@.len() - i,
    {
        let c = f[i];
        proof {
            assert(f@.take(i + 1) =~= f@.take(i as int).push(c));
            assert(f@.take(i + 1).drop_last() =~= f@.take(i as int));
        }
        if c == '[' {
            proof {
                assert forall|k: int| 0 <= k <= i + 1 implies #[trigger] depth(f@.take(i + 1).take(k)) >= 0 by {
                    if k <= i {
                        assert(f@.take(i + 1).take(k) =~= f@.take(i as int).take(k));
                    } else {
                        assert(f@.take(i + 1).take(k) =~= f@.take(i + 1));
                    }
                }
            }
            d = d + 1;
        } else if c == ']' {
            if d == 0 {
                let mut msg = "unmatched `]` at instruction ".to_string();
                push_decimal(&mut msg, i as u64);
                proof {
                    assert(first_unmatched_close(f@, i as int));
                    assert(!never_negative(f@)) by {
                        assert(f@.take(i + 1) =~= f@.take(i + 1));
                    }
                }
                return Err(msg);
            }
            proof {
                assert forall|k: int| 0 <= k <= i + 1 implies #[trigger] depth(f@.take(i + 1).take(k)) >= 0 by {
                    if k <= i {
                        assert(f@.take(i + 1).take(k) =~= f@.take(i as int).take(k));
                    } else {
                        assert(f@.take(i + 1).take(k) =~= f@.take(i + 1));
                    }
                }
            }
            d = d - 1;
        } else {
            proof {
                assert forall|k: int| 0 <= k <= i + 1 implies #[trigger] depth(f@.take(i + 1).take(k)) >= 0 by {
                    if k <= i {
                        assert(f@.take(i + 1).take(k) =~= f@.take(i as int).take(k));
                    } else {
                        assert(f@.take(i + 1).take(k) =~= f@.take(i + 1));
                    }
                }
            }
        }
        i = i + 1;
    }
    proof {
        lemma_take_full(f@);
    }
    if d > 0 {
        return Err("unmatched `[`".to_string());
    }
    Ok(())
}

/// Code that the compiler emits is all instruction characters, so nothing of it is a comment.
proof fn lemma_bf_chars_of_code(s: Seq<char>)
    requires
        all_bf(s),
    ensures
        bf_chars(s) == s,
    decreases s.len(),
{
    if s.len() > 0 {
        assert(all_bf(s.drop_last()));
        lemma_bf_chars_of_code(s.drop_last());
        assert(is_bf_char(s[s.len() - 1]));
        assert(s.drop_last().push(s.last()) =~= s);
    }
}

/// Every well-formed Brainfuck text, which is what the compiler emits, parses: its
/// instructions are the whole text and their brackets match.
pub proof fn law_compiled_code_parses(s: Seq<char>)
    requires
        valid_bf(s),
    ensures
        bf_chars(s) == s,
        balanced(bf_chars(s)),
{
    lemma_bf_chars_of_code(s);
}

/// `ops` with `d` added to the current cell: merged into a final addition, which goes away
/// when the sum is zero; nothing changes when `d` is zero.
pub open spec fn add_to(ops: Seq<OpView>, d: i16) -> Seq<OpView> {
    if d == 0 {
        ops
    } else if ops.len() == 0 {
        seq![OpView::Add(d)]
    } else {
        match ops.last() {
            OpView::Add(p) => {
                let sum = p.wrapping_add(d);
                if sum == 0 {
                    ops.drop_last()
                } else {
                    ops.drop_last().push(OpView::Add(sum))
                }
            },
            _ => ops.push(OpView::Add(d)),
        }
    }
}

/// `ops` with the pointer moved by `d`: merged into a final move, which goes away when the
/// sum is zero; nothing changes when `d` is zero.
pub open spec fn move_by(ops: Seq<OpView>, d: isize) -> Seq<OpView> {
    if d == 0 {
        ops
    } else if ops.len() == 0 {
        seq![OpView::Move(d)]
    } else {
        match ops.last() {
            OpView::Move(p) => {
                let sum = p.wrapping_add(d);
                if sum == 0 {
                    ops.drop_last()
                } else {
                    ops.drop_last().push(OpView::Move(sum))
                }
            },
            _ => ops.push(OpView::Move(d)),
        }
    }
}

/// `e`, a list of `(offset, delta)` sorted by offset, with `d` added at offset `o`.
pub open spec fn merge_effect(e: Seq<(isize, i16)>, o: isize, d: i16) -> Seq<(isize, i16)>
    decreases e.len(),
{
    if e.len() == 0 {
        seq![(o, d)]
    } else if e[0].0 == o {
        e.update(0, (o, e[0].1.wrapping_add(d)))
    } else if e[0].0 > o {
        seq![(o, d)] + e
    } else {
        seq![e[0]] + merge_effect(e.drop_first(), o, d)
    }
}

/// Walks a loop body of additions and moves: the offset it ends at, and the net addition at
/// each offset it adds to, in offset order; none when the body holds another operation.
pub open spec fn body_effects(body: Seq<OpView>) -> Option<(isize, Seq<(isize, i16)>)>
    decreases body.len(),
{
    if body.len() == 0 {
        Some((0isize, Seq::empty()))
    } else {
        match body_effects(body.drop_last()) {
            None => None,
            Some((off, e)) => match body.last() {
                OpView::Add(d) => Some((off, merge_effect(e, off, d))),
                OpView::Move(d) => Some((off.wrapping_add(d), e)),
                _ => None,
            },
        }
    }
}

/// The entries of `e` away from offset 0 that add something.
pub open spec fn kept_effects(e: Seq<(isize, i16)>) -> Seq<(isize, i16)>
    decreases e.len(),
{
    if e.len() == 0 {
        e
    } else if e.last().0 != 0 && e.last().1 != 0 {
        kept_effects(e.drop_last()).push(e.last())
    } else {
        kept_effects(e.drop_last())
    }
}

/// The effects of a transfer loop: its body walks additions and moves back to its start cell,
/// where it adds -1; the effects are its other nonzero additions, in offset order.
pub open spec fn transfer_effects(body: Seq<OpView>) -> Option<Seq<(isize, i16)>> {
    match body_effects(body) {
        Some((off, e)) => if off == 0 && (exists|k: int| 0 <= k < e.len() && #[trigger] e[k].0 == 0)
            && (forall|k: int| 0 <= k < e.len() && #[trigger] e[k].0 == 0 ==> e[k].1 == -1) {
            Some(kept_effects(e))
        } else {
            None
        },
        None => None,
    }
}

/// What a loop with this body becomes: a clear loop (`[-]` or `[+]`), a transfer loop, or a
/// general loop.
pub open spec fn loop_op(body: Seq<OpView>) -> OpView {
    if body.len() == 1 && (body[0] == OpView::Add(1i16) || body[0] == OpView::Add(-1i16)) {
        OpView::Clear
    } else {
        match transfer_effects(body) {
            Some(e) => OpView::AddMul(e),
            None => OpView::Loop(body),
        }
    }
}

/// The operations of each open loop, the outermost level first, after one more instruction:
/// additions and moves merge into the operation before them, `[` opens a level and `]` closes
/// one into a loop operation.
pub open spec fn parse_step(levels: Seq<Seq<OpView>>, c: char) -> Seq<Seq<OpView>> {
    let top = levels.last();
    let last = levels.len() - 1;
    if c == '+' {
        levels.update(last, add_to(top, 1i16))
    } else if c == '-' {
        levels.update(last, add_to(top, -1i16))
    } else if c == '>' {
        levels.update(last, move_by(top, 1isize))
    } else if c == '<' {
        levels.update(last, move_by(top, -1isize))
    } else if c == '.' {
        levels.update(last, top.push(OpView::Output))
    } else if c == ',' {
        levels.update(last, top.push(OpView::Input))
    } else if c == '[' {
        levels.push(Seq::empty())
    } else if c == ']' && levels.len() >= 2 {
        let outer = levels.drop_last();
        outer.update(outer.len() - 1, outer.last().push(loop_op(top)))
    } else {
        levels
    }
}

/// The open levels after the instructions `f`.
pub open spec fn parse_levels(f: Seq<char>) -> Seq<Seq<OpView>>
    decreases f.len(),
{
    if f.len() == 0 {
        seq![Seq::empty()]
    } else {
        parse_step(parse_levels(f.drop_last()), f.last())
    }
}

/// Characters other than the eight instructions are comments: parsing a text gives what
/// parsing its instruction characters alone gives.
pub proof fn law_comments_ignored(f: Seq<char>)
    ensures
        parse_levels(f) == parse_levels(bf_chars(f)),
    decreases f.len(),
{
    if f.len() > 0 {
        law_comments_ignored(f.drop_last());
        if is_bf_char(f.last()) {
            let g = bf_chars(f.drop_last());
            assert(g.push(f.last()).drop_last() =~= g);
            assert(g.push(f.last()).last() == f.last());
        }
    }
}

/// The operations that the instructions `f`, with matched brackets, parse to.
pub open spec fn parsed_ops(f: Seq<char>) -> Seq<OpView> {
    parse_levels(f)[0]
}

/// No addition or move of zero, and no two additions or two moves side by side.
spec fn normal(ops: Seq<OpView>) -> bool {
    &&& forall|k: int| #![trigger ops[k]] 0 <= k < ops.len() ==> ops[k] != OpView::Add(0i16) && ops[k]
        != OpView::Move(0isize)
    &&& forall|k: int|
        #![trigger ops[k]]
        0 <= k < ops.len() - 1 ==> !(ops[k] is Add && ops[k + 1] is Add) && !(ops[k] is Move
            && ops[k + 1] is Move)
}

spec fn levels_normal(levels: Seq<Seq<OpView>>) -> bool {
    forall|k: int| 0 <= k < levels.len() ==> normal(#[trigger] levels[k])
}

proof fn lemma_add_to_normal(ops: Seq<OpView>, d: i16)
    requires
        normal(ops),
    ensures
        normal(add_to(ops, d)),
{
    let r = add_to(ops, d);
    if d != 0 && ops.len() > 0 {
        if let OpView::Add(p) = ops.last() {
            assert forall|k: int| #![trigger r[k]] 0 <= k < r.len() - 1 implies !(r[k] is Add && r[k + 1] is Add) && !(
            r[k] is Move && r[k + 1] is Move) by {
                assert(r[k] == ops[k]);
            }
        } else {
            assert forall|k: int| #![trigger r[k]] 0 <= k < r.len() - 1 implies !(r[k] is Add && r[k + 1] is Add) && !(
            r[k] is Move && r[k + 1] is Move) by {
                assert(r[k] == ops[k]);
            }
        }
    }
}

proof fn lemma_move_by_normal(ops: Seq<OpView>, d: isize)
    requires
        normal(ops),
    ensures
        normal(move_by(ops, d)),
{
    let r = move_by(ops, d);
    if d != 0 && ops.len() > 0 {
        if let OpView::Move(p) = ops.last() {
            assert forall|k: int| #![trigger r[k]] 0 <= k < r.len() - 1 implies !(r[k] is Add && r[k + 1] is Add) && !(
            r[k] is Move && r[k + 1] is Move) by {
                assert(r[k] == ops[k]);
            }
        } else {
            assert forall|k: int| #![trigger r[k]] 0 <= k < r.len() - 1 implies !(r[k] is Add && r[k + 1] is Add) && !(
            r[k] is Move && r[k + 1] is Move) by {
                assert(r[k] == ops[k]);
            }
        }
    }
}

proof fn lemma_push_normal(ops: Seq<OpView>, x: OpView)
    requires
        normal(ops),
        !(x is Add),
        !(x is Move),
    ensures
        normal(ops.push(x)),
{
    let r = ops.push(x);
    assert forall|k: int| #![trigger r[k]] 0 <= k < r.len() - 1 implies !(r[k] is Add && r[k + 1] is Add) && !(r[k] is Move
        && r[k + 1] is Move) by {
        assert(r[k] == ops[k]);
    }
}

/// Two additions in a row are one addition of their wrapped sum.
proof fn lemma_add_to_twice(ops: Seq<OpView>, a: i16, b: i16)
    requires
        normal(ops),
    ensures
        add_to(add_to(ops, a), b) == add_to(ops, a.wrapping_add(b)),
{
    if ops.len() >= 2 {
        assert(!(ops[ops.len() - 2] is Add && ops[ops.len() - 1] is Add));
    }
    if ops.len() >= 1 {
        assert(ops.last() != OpView::Add(0i16));
        assert(ops.drop_last().len() == 0 || ops.drop_last().last() == ops[ops.len() - 2]);
    }
    assert(add_to(add_to(ops, a), b) =~= add_to(ops, a.wrapping_add(b)));
}

proof fn lemma_isize_wrap(x: isize, y: isize, z: isize)
    ensures
        x.wrapping_add(y).wrapping_add(z) == x.wrapping_add(y.wrapping_add(z)),
        x.wrapping_add(0) == x,
        0isize.wrapping_add(x) == x,
{
}

/// Two moves in a row are one move of their wrapped sum.
proof fn lemma_move_by_twice(ops: Seq<OpView>, a: isize, b: isize)
    requires
        normal(ops),
    ensures
        move_by(move_by(ops, a), b) == move_by(ops, a.wrapping_add(b)),
{
    lemma_isize_wrap(a, b, 0);
    lemma_isize_wrap(b, a, 0);
    let t = a.wrapping_add(b);
    if a != 0 && b != 0 && ops.len() > 0 {
        if let OpView::Move(p) = ops.last() {
            assert(ops.last() != OpView::Move(0isize));
            if ops.len() >= 2 {
                assert(!(ops[ops.len() - 2] is Move && ops[ops.len() - 1] is Move));
                assert(ops.drop_last().last() == ops[ops.len() - 2]);
            }
            let s1 = p.wrapping_add(a);
            lemma_isize_wrap(p, a, b);
            lemma_isize_wrap(s1, b, 0);
            if s1 == 0 {
                if t == 0 {
                    lemma_isize_wrap(p, a, b);
                    assert(ops.drop_last().push(OpView::Move(b)) =~= ops);
                } else {
                    assert(move_by(ops, t) =~= ops.drop_last().push(OpView::Move(b)));
                }
            } else {
                let r1 = ops.drop_last().push(OpView::Move(s1));
                assert(r1.drop_last() =~= ops.drop_last());
                if t == 0 {
                    assert(ops.drop_last().push(OpView::Move(p)) =~= ops);
                }
            }
        } else {
            let r1 = ops.push(OpView::Move(a));
            assert(r1.drop_last() =~= ops);
        }
    }
    assert(move_by(move_by(ops, a), b) =~= move_by(ops, t));
}

proof fn lemma_never_negative_prefix(f: Seq<char>, n: int)
    requires
        never_negative(f),
        0 <= n <= f.len(),
    ensures
        never_negative(f.take(n)),
{
    assert forall|i: int| 0 <= i <= f.take(n).len() implies #[trigger] depth(f.take(n).take(i)) >= 0 by {
        assert(f.take(n).take(i) =~= f.take(i));
    }
}

proof fn lemma_parse_step(levels: Seq<Seq<OpView>>, c: char)
    requires
        levels_normal(levels),
        levels.len() >= 1,
    ensures
        levels_normal(parse_step(levels, c)),
        parse_step(levels, c).len() >= 1,
        c == '[' ==> parse_step(levels, c).len() == levels.len() + 1,
        c == ']' && levels.len() >= 2 ==> parse_step(levels, c).len() == levels.len() - 1,
        c != '[' && c != ']' ==> parse_step(levels, c).len() == levels.len(),
{
    let top = levels.last();
    let r = parse_step(levels, c);
    assert(normal(top));
    if c == '[' {
        assert forall|k: int| 0 <= k < r.len() implies normal(#[trigger] r[k]) by {
            if k < levels.len() {
                assert(r[k] == levels[k]);
            } else {
                assert(r[k] =~= Seq::<OpView>::empty());
            }
        }
    } else if c == ']' {
        if levels.len() >= 2 {
            let outer = levels.drop_last();
            assert(normal(outer.last()));
            lemma_push_normal(outer.last(), loop_op(top));
            assert forall|k: int| 0 <= k < r.len() implies normal(#[trigger] r[k]) by {
                if k < outer.len() - 1 {
                    assert(r[k] == levels[k]);
                }
            }
        }
    } else {
        if c == '+' || c == '-' {
            lemma_add_to_normal(top, if c == '+' { 1i16 } else { -1i16 });
        } else if c == '>' || c == '<' {
            lemma_move_by_normal(top, if c == '>' { 1isize } else { -1isize });
        } else if c == '.' {
            lemma_push_normal(top, OpView::Output);
        } else if c == ',' {
            lemma_push_normal(top, OpView::Input);
        }
        assert forall|k: int| 0 <= k < r.len() implies normal(#[trigger] r[k]) by {
            if k < levels.len() - 1 {
                assert(r[k] == levels[k]);
            }
        }
    }
}

/// Every level stays normal, and with matched brackets so far there is one level per open
/// loop, plus the outermost.
proof fn lemma_parse_levels(f: Seq<char>)
    ensures
        levels_normal(parse_levels(f)),
        parse_levels(f).len() >= 1,
        never_negative(f) ==> parse_levels(f).len() == depth(f) + 1,
    decreases f.len(),
{
    if f.len() > 0 {
        let g = f.drop_last();
        lemma_parse_levels(g);
        lemma_parse_step(parse_levels(g), f.last());
        if never_negative(f) {
            lemma_never_negative_prefix(f, f.len() - 1);
            assert(f.take(f.len() - 1) =~= g);
            assert(f.take(f.len() as int) =~= f);
            assert(depth(f.take(f.len() as int)) >= 0);
        }
    }
}

/// Parses the instruction characters of a program into optimized operations.
struct OpParser {
    chars: Vec<char>,
    pos: usize,
}

/// The levels after one more instruction, when the levels before are `outer` and `top`.
proof fn lemma_step_top(f: Seq<char>, pos: int, outer: Seq<Seq<OpView>>, top: Seq<OpView>)
    requires
        0 <= pos < f.len(),
        parse_levels(f.take(pos)) == outer.push(top),
    ensures
        parse_levels(f.take(pos + 1)) == parse_step(outer.push(top), f[pos]),
{
    assert(f.take(pos + 1).drop_last() =~= f.take(pos));
}

proof fn lemma_step_push(f: Seq<char>, pos: int, outer: Seq<Seq<OpView>>, v: Seq<OpView>, x: OpView)
    requires
        0 <= pos < f.len(),
        parse_levels(f.take(pos)) == outer.push(v),
        (f[pos] == '.' && x == OpView::Output) || (f[pos] == ',' && x == OpView::Input),
    ensures
        parse_levels(f.take(pos + 1)) == outer.push(v.push(x)),
{
    lemma_step_top(f, pos, outer, v);
    assert(outer.push(v).update(outer.len() as int, v.push(x)) =~= outer.push(v.push(x)));
}

proof fn lemma_step_open(f: Seq<char>, pos: int, outer: Seq<Seq<OpView>>, v: Seq<OpView>)
    requires
        0 <= pos < f.len(),
        parse_levels(f.take(pos)) == outer.push(v),
        f[pos] == '[',
    ensures
        parse_levels(f.take(pos + 1)) == outer.push(v).push(Seq::empty()),
{
    lemma_step_top(f, pos, outer, v);
}

proof fn lemma_step_close(f: Seq<char>, pos: int, outer: Seq<Seq<OpView>>, v: Seq<OpView>)
    requires
        0 <= pos < f.len(),
        parse_levels(f.take(pos)) == outer.push(v),
        f[pos] == ']',
        never_negative(f),
    ensures
        outer.len() >= 1,
        parse_levels(f.take(pos + 1)) == outer.drop_last().push(outer.last().push(loop_op(v))),
{
    lemma_step_top(f, pos, outer, v);
    lemma_never_negative_prefix(f, pos);
    lemma_parse_levels(f.take(pos));
    assert(f.take(pos + 1).drop_last() =~= f.take(pos));
    assert(depth(f.take(pos + 1)) >= 0);
    assert(outer.push(v).drop_last() =~= outer);
}

proof fn lemma_step_other(f: Seq<char>, pos: int, outer: Seq<Seq<OpView>>, v: Seq<OpView>)
    requires
        0 <= pos < f.len(),
        parse_levels(f.take(pos)) == outer.push(v),
        !is_bf_char(f[pos]),
    ensures
        parse_levels(f.take(pos + 1)) == outer.push(v),
{
    lemma_step_top(f, pos, outer, v);
}

impl OpParser {
    spec fn at(&self, outer: Seq<Seq<OpView>>, ops: Seq<Op>) -> bool {
        &&& self.pos <= self.chars@.len()
        &&& parse_levels(self.chars@.take(self.pos as int)) == outer.push(ops_view(ops))
        &&& normal(ops_view(ops))
    }

    fn parse_ops(&mut self, in_loop: bool, Ghost(outer): Ghost<Seq<Seq<OpView>>>) -> (ops: Vec<Op>)
        requires
            old(self).at(outer, Seq::empty()),
            levels_normal(outer),
            in_loop <==> outer.len() >= 1,
            never_negative(old(self).chars@),
            depth(old(self).chars@) == 0,
        ensures
            final(self).chars@ == old(self).chars@,
            old(self).pos <= final(self).pos <= final(self).chars@.len(),
            in_loop ==> parse_levels(final(self).chars@.take(final(self).pos as int)) == outer.drop_last().push(
                outer.last().push(loop_op(ops_view(ops@))),
            ),
            !in_loop ==> final(self).pos == final(self).chars@.len() && parse_levels(final(self).chars@)
                == seq![ops_view(ops@)],
        decreases old(self).chars@.len() - old(self).pos,
    {
        let mut ops: Vec<Op> = Vec::new();
        proof {
            assert(ops_view(ops@) =~= Seq::<OpView>::empty());
        }
        while self.pos < self.chars.len()
            invariant
                self.chars@ == old(self).chars@,
                old(self).pos <= self.pos <= self.chars@.len(),
                self.at(outer, ops@),
                levels_normal(outer),
                in_loop <==> outer.len() >= 1,
                never_negative(self.chars@),
                depth(self.chars@) == 0,
            decreases self.chars@.len() - self.pos,
        {
            let c = self.chars[self.pos];
            let ghost pos = self.pos as int;
            let ghost f = self.chars@;
            let ghost v = ops_view(ops@);
            if c == '+' || c == '-' {
                self.parse_add(&mut ops, Ghost(outer));
            } else if c == '>' || c == '<' {
                self.parse_move(&mut ops, Ghost(outer));
            } else if c == '.' || c == ',' {
                let op = if c == '.' { Op::Output } else { Op::Input };
                self.pos = self.pos + 1;
                proof {
                    lemma_ops_view_push(ops@, op);
                    lemma_step_push(f, pos, outer, v, op_view(op));
                    lemma_push_normal(v, op_view(op));
                }
                ops.push(op);
            } else if c == '[' {
                self.pos = self.pos + 1;
                proof {
                    lemma_step_open(f, pos, outer, v);
                    assert forall|k: int| 0 <= k < outer.push(v).len() implies normal(
                        #[trigger] outer.push(v)[k],
                    ) by {
                        if k < outer.len() {
                            assert(outer.push(v)[k] == outer[k]);
                        }
                    }
                    assert(ops_view(Seq::<Op>::empty()) =~= Seq::<OpView>::empty());
                }
                let body = self.parse_ops(true, Ghost(outer.push(v)));
                let op = optimize_loop(body);
                proof {
                    lemma_ops_view_push(ops@, op);
                    assert(!(op_view(op) is Add) && !(op_view(op) is Move));
                    lemma_push_normal(v, op_view(op));
                    assert(outer.push(v).drop_last() =~= outer);
                }
                ops.push(op);
            } else if c == ']' {
                proof {
                    lemma_step_close(f, pos, outer, v);
                }
                self.pos = self.pos + 1;
                if in_loop {
                    return ops;
                }
            } else {
                proof {
                    lemma_step_other(f, pos, outer, v);
                }
                self.pos = self.pos + 1;
            }
        }
        proof {
            let f = self.chars@;
            assert(f.take(f.len() as int) =~= f);
            lemma_parse_levels(f);
            if in_loop {
                assert(false);
            }
            assert(outer.push(ops_view(ops@)) =~= seq![ops_view(ops@)]);
        }
        ops
    }

    /// A run of `+` and `-` as one addition.
    fn parse_add(&mut self, ops: &mut Vec<Op>, Ghost(outer): Ghost<Seq<Seq<OpView>>>)
        requires
            old(self).pos < old(self).chars@.len(),
            old(self).chars@[old(self).pos as int] == '+' || old(self).chars@[old(self).pos as int]
                == '-',
            old(self).at(outer, old(ops)@),
        ensures
            final(self).chars@ == old(self).chars@,
            old(self).pos < final(self).pos <= final(self).chars@.len(),
            final(self).at(outer, final(ops)@),
    {
        let ghost v = ops_view(ops@);
        let mut delta: i16 = 0;
        while self.pos < self.chars.len()
            invariant
                self.chars@ == old(self).chars@,
                old(self).pos <= self.pos <= self.chars@.len(),
                old(self).pos < old(self).chars@.len(),
                self.pos == old(self).pos ==> old(self).chars@[old(self).pos as int] == '+'
                    || old(self).chars@[old(self).pos as int] == '-',
                normal(v),
                parse_levels(self.chars@.take(self.pos as int)) == outer.push(add_to(v, delta)),
            ensures
                self.chars@ == old(self).chars@,
                old(self).pos < self.pos <= self.chars@.len(),
                normal(v),
                parse_levels(self.chars@.take(self.pos as int)) == outer.push(add_to(v, delta)),
            decreases self.chars@.len() - self.pos,
        {
            let c = self.chars[self.pos];
            let ghost before = add_to(v, delta);
            proof {
                lemma_step_top(self.chars@, self.pos as int, outer, before);
            }
            if c == '+' {
                proof {
                    lemma_add_to_twice(v, delta, 1i16);
                }
                delta = delta.wrapping_add(1);
            } else if c == '-' {
                proof {
                    lemma_add_to_twice(v, delta, -1i16);
                    assert(delta.wrapping_sub(1) == delta.wrapping_add(-1i16));
                }
                delta = delta.wrapping_sub(1);
            } else {
                break;
            }
            proof {
                assert(outer.push(before).update(outer.len() as int, add_to(v, delta)) =~= outer.push(
                    add_to(v, delta),
                ));
            }
            self.pos = self.pos + 1;
        }
        push_add(ops, delta);
        proof {
            lemma_add_to_normal(v, delta);
        }
    }

    /// A run of `>` and `<` as one move.
    fn parse_move(&mut self, ops: &mut Vec<Op>, Ghost(outer): Ghost<Seq<Seq<OpView>>>)
        requires
            old(self).pos < old(self).chars@.len(),
            old(self).chars@[old(self).pos as int] == '>' || old(self).chars@[old(self).pos as int]
                == '<',
            old(self).at(outer, old(ops)@),
        ensures
            final(self).chars@ == old(self).chars@,
            old(self).pos < final(self).pos <= final(self).chars@.len(),
            final(self).at(outer, final(ops)@),
    {
        let ghost v = ops_view(ops@);
        let mut delta: isize = 0;
        while self.pos < self.chars.len()
            invariant
                self.chars@ == old(self).chars@,
                old(self).pos <= self.pos <= self.chars@.len(),
                old(self).pos < old(self).chars@.len(),
                self.pos == old(self).pos ==> old(self).chars@[old(self).pos as int] == '>'
                    || old(self).chars@[old(self).pos as int] == '<',
                normal(v),
                parse_levels(self.chars@.take(self.pos as int)) == outer.push(move_by(v, delta)),
            ensures
                self.chars@ == old(self).chars@,
                old(self).pos < self.pos <= self.chars@.len(),
                normal(v),
                parse_levels(self.chars@.take(self.pos as int)) == outer.push(move_by(v, delta)),
            decreases self.chars@.len() - self.pos,
        {
            let c = self.chars[self.pos];
            let ghost before = move_by(v, delta);
            proof {
                lemma_step_top(self.chars@, self.pos as int, outer, before);
            }
            if c == '>' {
                proof {
                    lemma_move_by_twice(v, delta, 1isize);
                }
                delta = delta.wrapping_add(1);
            } else if c == '<' {
                proof {
                    lemma_move_by_twice(v, delta, -1isize);
                    assert(delta.wrapping_sub(1) == delta.wrapping_add(-1isize));
                }
                delta = delta.wrapping_sub(1);
            } else {
                break;
            }
            proof {
                assert(outer.push(before).update(outer.len() as int, move_by(v, delta)) =~= outer.push(
                    move_by(v, delta),
                ));
            }
            self.pos = self.pos + 1;
        }
        push_move(ops, delta);
        proof {
            lemma_move_by_normal(v, delta);
        }
    }
}

proof fn lemma_ops_view_push(ops: Seq<Op>, x: Op)
    ensures
        ops_view(ops.push(x)) == ops_view(ops).push(op_view(x)),
{
    assert(ops.push(x).drop_last() =~= ops);
}

proof fn lemma_ops_view_len(ops: Seq<Op>)
    ensures
        ops_view(ops).len() == ops.len(),
    decreases ops.len(),
{
    if ops.len() > 0 {
        lemma_ops_view_len(ops.drop_last());
    }
}

/// Appends an addition, merging it into a directly preceding one (and dropping the result
/// when it cancels out).
fn push_add(ops: &mut Vec<Op>, delta: i16)
    ensures
        ops_view(final(ops)@) == add_to(ops_view(old(ops)@), delta),
{
    if delta == 0 {
        return;
    }
    let n = ops.len();
    proof {
        lemma_ops_view_len(ops@);
    }
    if n > 0 {
        if let Op::Add(prev) = ops[n - 1] {
            let sum = prev.wrapping_add(delta);
            let ghost before = ops@;
            proof {
                assert(op_view(before.last()) == OpView::Add(prev));
                assert(ops_view(before) == ops_view(before.drop_last()).push(OpView::Add(prev)));
                assert(ops_view(before).drop_last() =~= ops_view(before.drop_last()));
            }
            ops.pop();
            proof {
                assert(ops@ =~= before.drop_last());
            }
            if sum != 0 {
                ops.push(Op::Add(sum));
                proof {
                    assert(ops@.drop_last() =~= before.drop_last());
                    assert(op_view(ops@.last()) == OpView::Add(sum));
                    assert(ops_view(ops@) == ops_view(ops@.drop_last()).push(OpView::Add(sum)));
                }
            }
            return;
        }
    }
    let ghost before = ops@;
    proof {
        if before.len() > 0 {
            assert(ops_view(before).last() == op_view(before.last()));
        }
    }
    ops.push(Op::Add(delta));
    proof {
        assert(ops@.drop_last() =~= before);
        assert(op_view(ops@.last()) == OpView::Add(delta));
        assert(ops_view(ops@) == ops_view(before).push(OpView::Add(delta)));
    }
}

/// Appends a move, merging it into a directly preceding one (and dropping the result when it
/// cancels out).
fn push_move(ops: &mut Vec<Op>, delta: isize)
    ensures
        ops_view(final(ops)@) == move_by(ops_view(old(ops)@), delta),
{
    if delta == 0 {
        return;
    }
    let n = ops.len();
    proof {
        lemma_ops_view_len(ops@);
    }
    if n > 0 {
        if let Op::Move(prev) = ops[n - 1] {
            let sum = prev.wrapping_add(delta);
            let ghost before = ops@;
            proof {
                assert(op_view(before.last()) == OpView::Move(prev));
                assert(ops_view(before) == ops_view(before.drop_last()).push(OpView::Move(prev)));
                assert(ops_view(before).drop_last() =~= ops_view(before.drop_last()));
            }
            ops.pop();
            proof {
                assert(ops@ =~= before.drop_last());
            }
            if sum != 0 {
                ops.push(Op::Move(sum));
                proof {
                    assert(ops@.drop_last() =~= before.drop_last());
                    assert(op_view(ops@.last()) == OpView::Move(sum));
                    assert(ops_view(ops@) == ops_view(ops@.drop_last()).push(OpView::Move(sum)));
                }
            }
            return;
        }
    }
    let ghost before = ops@;
    proof {
        if before.len() > 0 {
            assert(ops_view(before).last() == op_view(before.last()));
        }
    }
    ops.push(Op::Move(delta));
    proof {
        assert(ops@.drop_last() =~= before);
        assert(op_view(ops@.last()) == OpView::Move(delta));
        assert(ops_view(ops@) == ops_view(before).push(OpView::Move(delta)));
    }
}

/// A clear loop, a transfer loop, or a general loop.
fn optimize_loop(body: Vec<Op>) -> (op: Op)
    ensures
        op_view(op) == loop_op(ops_view(body@)),
{
    proof {
        lemma_ops_view_len(body@);
        if body@.len() == 1 {
            assert(ops_view(body@)[0] == op_view(body@[0])) by {
                assert(body@.drop_last() =~= Seq::<Op>::empty());
            }
        }
    }
    if body.len() == 1 {
        if let Op::Add(d) = body[0] {
            if d == 1 || d == -1 {
                return Op::Clear;
            }
        }
    }
    match add_mul_effects(&body) {
        Some(effects) => Op::AddMul(effects),
        None => Op::Loop(body),
    }
}

proof fn lemma_merge_effect_skip(e: Seq<(isize, i16)>, o: isize, d: i16, i: int)
    requires
        0 <= i <= e.len(),
        forall|k: int| 0 <= k < i ==> #[trigger] e[k].0 < o,
    ensures
        merge_effect(e, o, d) == e.take(i) + merge_effect(e.skip(i), o, d),
    decreases i,
{
    if i == 0 {
        assert(e.skip(0) =~= e);
        assert(e.take(0) + merge_effect(e.skip(0), o, d) =~= merge_effect(e, o, d));
    } else {
        let t = e.drop_first();
        assert forall|k: int| 0 <= k < i - 1 implies #[trigger] t[k].0 < o by {
            assert(t[k] == e[k + 1]);
        }
        lemma_merge_effect_skip(t, o, d, i - 1);
        assert(t.skip(i - 1) =~= e.skip(i));
        assert(seq![e[0]] + t.take(i - 1) =~= e.take(i));
        assert(e[0].0 < o);
        assert(merge_effect(e, o, d) == seq![e[0]] + merge_effect(t, o, d));
        assert(seq![e[0]] + (t.take(i - 1) + merge_effect(e.skip(i), o, d)) =~= e.take(i) + merge_effect(
            e.skip(i),
            o,
            d,
        ));
    }
}

/// Adds `delta` to the entry for `offset` in a list of `(offset, delta)` entries sorted by
/// offset, inserting the entry where it belongs.
fn add_effect(effects: &mut Vec<(isize, i16)>, offset: isize, delta: i16)
    requires
        forall|i: int, j: int| 0 <= i < j < old(effects)@.len() ==> old(effects)@[i].0 < old(effects)@[j].0,
    ensures
        forall|i: int, j: int| 0 <= i < j < final(effects)@.len() ==> final(effects)@[i].0 < final(effects)@[j].0,
        final(effects)@ == merge_effect(old(effects)@, offset, delta),
{
    let mut i: usize = 0;
    while i < effects.len()
        invariant
            i <= effects@.len(),
            effects@ == old(effects)@,
            forall|k: int| 0 <= k < i ==> effects@[k].0 < offset,
            forall|a: int, b: int| 0 <= a < b < old(effects)@.len() ==> old(effects)@[a].0 < old(effects)@[b].0,
        decreases effects@.len() - i,
    {
        let (o, d) = effects[i];
        proof {
            lemma_merge_effect_skip(old(effects)@, offset, delta, i as int);
        }
        if o == offset {
            effects.set(i, (o, d.wrapping_add(delta)));
            proof {
                let e = old(effects)@;
                assert(merge_effect(e.skip(i as int), offset, delta) == e.skip(i as int).update(
                    0,
                    (o, d.wrapping_add(delta)),
                ));
                assert(effects@ =~= e.take(i as int) + e.skip(i as int).update(0, (o, d.wrapping_add(delta))));
            }
            proof {
                assert forall|a: int, b: int| 0 <= a < b < effects@.len() implies effects@[a].0 < effects@[b].0 by {
                    assert(effects@[a].0 == old(effects)@[a].0);
                    assert(effects@[b].0 == old(effects)@[b].0);
                }
            }
            return;
        }
        if o > offset {
            effects.insert(i, (offset, delta));
            proof {
                let e = old(effects)@;
                assert(effects@ =~= e.take(i as int) + (seq![(offset, delta)] + e.skip(i as int)));
                assert forall|a: int, b: int| 0 <= a < b < effects@.len() implies effects@[a].0 < effects@[b].0 by {
                    if b < i {
                        assert(effects@[a] == old(effects)@[a]);
                        assert(effects@[b] == old(effects)@[b]);
                    } else if b == i {
                        assert(effects@[a] == old(effects)@[a]);
                    } else if a == i {
                        assert(effects@[b] == old(effects)@[b - 1]);
                        assert(old(effects)@[i as int].0 == o);
                    } else if a < i {
                        assert(effects@[a] == old(effects)@[a]);
                        assert(effects@[b] == old(effects)@[b - 1]);
                    } else {
                        assert(effects@[a] == old(effects)@[a - 1]);
                        assert(effects@[b] == old(effects)@[b - 1]);
                    }
                }
            }
            return;
        }
        i = i + 1;
    }
    proof {
        let e = old(effects)@;
        lemma_merge_effect_skip(e, offset, delta, e.len() as int);
        assert(e.skip(e.len() as int) =~= Seq::<(isize, i16)>::empty());
        assert(e.take(e.len() as int) =~= e);
    }
    effects.push((offset, delta));
}

/// For a loop body of additions and moves that returns to its start cell and subtracts one
/// from it, the net addition at every other offset that changes, in offset order.
fn add_mul_effects(body: &Vec<Op>) -> (r: Option<Vec<(isize, i16)>>)
    ensures
        r matches Some(e) ==> transfer_effects(ops_view(body@)) == Some(e@),
        r is None ==> transfer_effects(ops_view(body@)) is None,
{
    let mut offset: isize = 0;
    let mut effects: Vec<(isize, i16)> = Vec::new();
    let mut i: usize = 0;
    while i < body.len()
        invariant
            forall|a: int, b: int| 0 <= a < b < effects@.len() ==> effects@[a].0 < effects@[b].0,
            i <= body@.len(),
            body_effects(ops_view(body@.take(i as int))) == Some((offset, effects@)),
        decreases body@.len() - i,
    {
        let ghost vi = ops_view(body@.take(i as int));
        let ghost vn = ops_view(body@.take(i + 1));
        proof {
            assert(body@.take(i + 1).drop_last() =~= body@.take(i as int));
            assert(vn == vi.push(op_view(body@[i as int])));
            assert(vn.drop_last() =~= vi);
        }
        match &body[i] {
            Op::Add(delta) => {
                proof {
                    assert(op_view(body@[i as int]) == OpView::Add(*delta));
                }
                add_effect(&mut effects, offset, *delta);
            },
            Op::Move(delta) => {
                proof {
                    assert(op_view(body@[i as int]) == OpView::Move(*delta));
                }
                offset = offset.wrapping_add(*delta);
            },
            _ => {
                proof {
                    assert(!(op_view(body@[i as int]) is Add) && !(op_view(body@[i as int]) is Move));
                    assert(body_effects(vn) is None);
                    lemma_body_effects_none(body@, i + 1);
                }
                return None;
            },
        }
        i = i + 1;
    }
    proof {
        assert(body@.take(body@.len() as int) =~= body@);
    }
    if offset != 0 {
        return None;
    }
    let ghost e = effects@;
    let mut result: Vec<(isize, i16)> = Vec::new();
    let mut found_start = false;
    let mut k: usize = 0;
    while k < effects.len()
        invariant
            effects@ == e,
            k <= e.len(),
            result@ == kept_effects(e.take(k as int)),
            body_effects(ops_view(body@)) == Some((0isize, e)),
            found_start <==> exists|j: int| 0 <= j < k && #[trigger] e[j].0 == 0,
            forall|j: int| 0 <= j < k && #[trigger] e[j].0 == 0 ==> e[j].1 == -1,
        decreases effects@.len() - k,
    {
        let (o, d) = effects[k];
        proof {
            let t = e.take(k + 1);
            assert(t.drop_last() =~= e.take(k as int));
        }
        if o == 0 {
            if d != -1 {
                proof {
                    assert(e[k as int].0 == 0 && e[k as int].1 != -1);
                }
                return None;
            }
            found_start = true;
        } else if d != 0 {
            result.push((o, d));
        }
        k = k + 1;
    }
    proof {
        assert(e.take(e.len() as int) =~= e);
    }
    if !found_start {
        return None;
    }
    Some(result)
}

/// A body that holds an operation other than an addition or move among its first `k`
/// operations is no transfer body.
proof fn lemma_body_effects_none(body: Seq<Op>, k: int)
    requires
        0 <= k <= body.len(),
        body_effects(ops_view(body.take(k))) is None,
    ensures
        body_effects(ops_view(body)) is None,
    decreases body.len() - k,
{
    if k < body.len() {
        let vn = ops_view(body.take(k + 1));
        assert(body.take(k + 1).drop_last() =~= body.take(k));
        assert(vn.drop_last() =~= ops_view(body.take(k)));
        lemma_body_effects_none(body, k + 1);
    } else {
        assert(body.take(k) =~= body);
    }
}

impl Program {
    /// The program's operations, in order.
    pub closed spec fn op_seq(&self) -> Seq<OpView> {
        ops_view(self.ops@)
    }

    /// Parses a Brainfuck program, ignoring every character that is not an instruction.
    /// Fails exactly when the brackets do not match.
    pub fn parse(src: &str) -> (r: Result<Self, String>)
        ensures
            r is Ok <==> balanced(bf_chars(src@)),
            r matches Ok(p) ==> p.op_seq() == parsed_ops(bf_chars(src@)),
            r matches Err(e) ==> bracket_error(bf_chars(src@), e@),
    {
        let chars = filter_bf(src);
        check_brackets(&chars)?;
        let mut parser = OpParser { chars, pos: 0 };
        proof {
            assert(parser.chars@.take(0) =~= Seq::<char>::empty());
            assert(ops_view(Seq::<Op>::empty()) =~= Seq::<OpView>::empty());
            assert(Seq::<Seq<OpView>>::empty().push(Seq::<OpView>::empty()) =~= seq![Seq::<OpView>::empty()]);
        }
        let ops = parser.parse_ops(false, Ghost(Seq::empty()));
        Ok(Self { ops })
    }

    /// The operations of the program.
    pub fn ops(&self) -> (ops: &[Op])
        ensures
            ops_view(ops@) == self.op_seq(),
    {
        self.ops.as_slice()
    }
}

/// A runtime instruction: the operations with every loop turned into a pair of jumps.
pub enum Instr {
    Add(i16),
    Move(isize),
    Input,
    Output,
    Clear,
    AddMul(Vec<(isize, i16)>),
    /// Jumps past the matching `Close` (at the index given) when the cell is zero.
    Open(usize),
    /// Jumps back past the matching `Open` (at the index given) when the cell is not zero.
    Close(usize),
}

/// A runtime instruction as the semantics see it.
pub enum InstrView {
    Add(i16),
    Move(isize),
    Input,
    Output,
    Clear,
    AddMul(Seq<(isize, i16)>),
    Open(nat),
    Close(nat),
}

impl View for Instr {
    type V = InstrView;

    open spec fn view(&self) -> InstrView {
        match self {
            Instr::Add(d) => InstrView::Add(*d),
            Instr::Move(d) => InstrView::Move(*d),
            Instr::Input => InstrView::Input,
            Instr::Output => InstrView::Output,
            Instr::Clear => InstrView::Clear,
            Instr::AddMul(e) => InstrView::AddMul(e@),
            Instr::Open(t) => InstrView::Open(*t as nat),
            Instr::Close(t) => InstrView::Close(*t as nat),
        }
    }
}

/// The views of a sequence of instructions.
pub open spec fn views(code: Seq<Instr>) -> Seq<InstrView> {
    code.map_values(|i: Instr| i@)
}

/// The instructions of `ops` when the first of them stands at index `at`: each loop becomes
/// an `Open` that names the index of its `Close`, its body, and a `Close` that names the index
/// of its `Open`.
pub open spec fn flat_ops(ops: Seq<OpView>, at: nat) -> Seq<InstrView>
    decreases ops,
{
    if ops.len() == 0 {
        Seq::empty()
    } else {
        let front = flat_ops(ops.drop_last(), at);
        front + flat_op(ops.last(), at + front.len())
    }
}

/// The instructions of one operation standing at index `at`.
pub open spec fn flat_op(op: OpView, at: nat) -> Seq<InstrView>
    decreases op,
{
    match op {
        OpView::Add(d) => seq![InstrView::Add(d)],
        OpView::Move(d) => seq![InstrView::Move(d)],
        OpView::Input => seq![InstrView::Input],
        OpView::Output => seq![InstrView::Output],
        OpView::Clear => seq![InstrView::Clear],
        OpView::AddMul(e) => seq![InstrView::AddMul(e)],
        OpView::Loop(body) => {
            let inner = flat_ops(body, at + 1);
            seq![InstrView::Open(at + 1 + inner.len())] + inner + seq![InstrView::Close(at)]
        },
    }
}

spec fn jump_in(i: Instr, len: nat) -> bool {
    match i {
        Instr::Open(t) => t < len,
        Instr::Close(t) => t < len,
        _ => true,
    }
}

/// Every jump lands inside the code.
spec fn jumps_ok(code: Seq<Instr>) -> bool {
    forall|i: int| 0 <= i < code.len() ==> jump_in(#[trigger] code[i], code.len())
}

proof fn lemma_jumps_push(code: Seq<Instr>, x: Instr)
    requires
        jumps_ok(code),
        jump_in(x, code.len() + 1),
    ensures
        jumps_ok(code.push(x)),
{
    assert forall|i: int| 0 <= i < code.push(x).len() implies jump_in(#[trigger] code.push(x)[i], code.push(x).len()) by {
        if i < code.len() {
            assert(code.push(x)[i] == code[i]);
            assert(jump_in(code[i], code.len()));
        }
    }
}

fn copy_effects(v: &Vec<(isize, i16)>) -> (r: Vec<(isize, i16)>)
    ensures
        r@ == v@,
{
    let mut r: Vec<(isize, i16)> = Vec::new();
    let mut i: usize = 0;
    while i < v.len()
        invariant
            i <= v@.len(),
            r@ == v@.take(i as int),
        decreases v@.len() - i,
    {
        r.push(v[i]);
        i = i + 1;
        assert(r@ =~= v@.take(i as int));
    }
    assert(v@.take(v@.len() as int) =~= v@);
    r
}

/// Appends the runtime instructions of `ops` to `code`.
fn flatten(ops: &Vec<Op>, code: &mut Vec<Instr>)
    requires
        jumps_ok(old(code)@),
    ensures
        jumps_ok(final(code)@),
        views(final(code)@) == views(old(code)@) + flat_ops(ops_view(ops@), old(code)@.len()),
        final(code)@.len() >= old(code)@.len(),
    decreases ops,
{
    let ghost base = code@;
    let mut i: usize = 0;
    while i < ops.len()
        invariant
            jumps_ok(code@),
            i <= ops@.len(),
            views(code@) == views(base) + flat_ops(ops_view(ops@.take(i as int)), base.len()),
            code@.len() >= base.len(),
            base == old(code)@,
        decreases ops@.len() - i,
    {
        proof {
            vstd::std_specs::vec::axiom_vec_index_decreases(*ops, i as int);
            assert(ops@.take(i + 1).drop_last() =~= ops@.take(i as int));
            let vi = ops_view(ops@.take(i as int));
            let vn = ops_view(ops@.take(i + 1));
            assert(vn == vi.push(op_view(ops@[i as int])));
            assert(vn.drop_last() =~= vi);
            assert(flat_ops(vn, base.len()) == flat_ops(vi, base.len()) + flat_op(
                op_view(ops@[i as int]),
                base.len() + flat_ops(vi, base.len()).len(),
            ));
        }
        let ghost before = code@;
        let instr = match &ops[i] {
            Op::Add(d) => Instr::Add(*d),
            Op::Move(d) => Instr::Move(*d),
            Op::Input => Instr::Input,
            Op::Output => Instr::Output,
            Op::Clear => Instr::Clear,
            Op::AddMul(effects) => Instr::AddMul(copy_effects(effects)),
            Op::Loop(body) => {
                let open = code.len();
                proof {
                    lemma_jumps_push(code@, Instr::Open(0));
                }
                code.push(Instr::Open(0));
                let ghost opened = code@;
                flatten(body, code);
                let ghost after_body = code@;
                let close = code.len();
                assert(close > open);
                proof {
                    lemma_jumps_push(code@, Instr::Close(open));
                }
                code.push(Instr::Close(open));
                let ghost filled = code@;
                code.set(open, Instr::Open(close));
                proof {
                    assert forall|k: int| 0 <= k < code@.len() implies jump_in(#[trigger] code@[k], code@.len()) by {
                        if k != open {
                            assert(code@[k] == filled[k]);
                            assert(jump_in(filled[k], filled.len()));
                        }
                    }
                    let inner = flat_ops(ops_view(body@), (open + 1) as nat);
                    assert(views(opened) =~= views(before).push(InstrView::Open(0)));
                    assert(views(filled) =~= views(after_body).push(InstrView::Close(open as nat)));
                    assert(inner.len() == close - open - 1) by {
                        assert(views(after_body).len() == after_body.len());
                    }
                    assert(views(code@) =~= views(filled).update(open as int, InstrView::Open(close as nat)));
                    assert(flat_op(op_view(ops@[i as int]), open as nat) =~= seq![InstrView::Open(close as nat)]
                        + inner + seq![InstrView::Close(open as nat)]);
                    assert(views(code@) =~= views(before) + flat_op(op_view(ops@[i as int]), open as nat));
                }
                i = i + 1;
                continue;
            },
        };
        proof {
            lemma_jumps_push(code@, instr);
        }
        code.push(instr);
        proof {
            assert(views(code@) =~= views(before).push(instr@));
            assert(flat_op(op_view(ops@[i as int]), before.len()) =~= seq![instr@]);
            assert(views(code@) =~= views(before) + flat_op(op_view(ops@[i as int]), before.len()));
        }
        i = i + 1;
    }
    proof {
        assert(ops@.take(ops@.len() as int) =~= ops@);
    }
}

/// What a run reports back to its driver.
#[derive(Debug, Clone, Copy, PartialEq, Eq)]
pub enum Event {
    /// The program ran past its last instruction.
    Halted,
    /// The program wrote this byte.
    Output(u8),
    /// The program waits for an input byte (see `Runtime::provide_input`).
    NeedInput,
    /// The step budget ran out before anything else happened.
    OutOfSteps,
}

/// A running Brainfuck program: its instructions, a tape of `TAPE_SIZE` wrapping byte cells,
/// the data pointer and the next instruction.
pub struct Runtime {
    code: Vec<Instr>,
    tape: Vec<u8>,
    ptr: usize,
    pc: usize,
}

/// The state of a run: the tape, the data pointer, and the index of the next instruction.
pub struct Machine {
    pub tape: Seq<u8>,
    pub ptr: int,
    pub pc: int,
}

/// A run's first state: a zeroed tape, the pointer on cell 0, the first instruction next.
pub open spec fn start_machine() -> Machine {
    Machine { tape: Seq::new(TAPE_SIZE as nat, |i: int| 0u8), ptr: 0, pc: 0 }
}

pub open spec fn before_tape_msg() -> Seq<char> {
    "data pointer moved before cell 0"@
}

pub open spec fn past_tape_msg() -> Seq<char> {
    "data pointer moved past cell 29999"@
}

pub open spec fn step_limit_msg() -> Seq<char> {
    "step limit reached"@
}

/// The cell `delta` cells away from `ptr`, or why that leaves the tape.
pub open spec fn moved(ptr: int, delta: int) -> Result<int, Seq<char>> {
    if ptr + delta < 0 {
        Err(before_tape_msg())
    } else if ptr + delta >= TAPE_SIZE {
        Err(past_tape_msg())
    } else {
        Ok(ptr + delta)
    }
}

/// A transfer: for each `(offset, factor)` in turn, adds `value` times `factor` to the cell
/// `offset` cells from `ptr`, wrapping around modulo 256; fails at the first offset that
/// leaves the tape.
pub open spec fn transfer(tape: Seq<u8>, ptr: int, value: u8, effects: Seq<(isize, i16)>) -> Result<
    Seq<u8>,
    Seq<char>,
>
    decreases effects.len(),
{
    if effects.len() == 0 {
        Ok(tape)
    } else {
        match transfer(tape, ptr, value, effects.drop_last()) {
            Err(e) => Err(e),
            Ok(t) => match moved(ptr, effects.last().0 as int) {
                Err(e) => Err(e),
                Ok(i) => Ok(t.update(i, t[i].wrapping_add(value.wrapping_mul(effects.last().1 as u8)))),
            },
        }
    }
}

/// Runs instruction `i`, other than input or output, in state `m`.
pub open spec fn step(i: InstrView, m: Machine) -> Result<Machine, Seq<char>> {
    let cell = m.tape[m.ptr];
    let next = Machine { tape: m.tape, ptr: m.ptr, pc: m.pc + 1 };
    match i {
        InstrView::Add(d) => Ok(
            Machine { tape: m.tape.update(m.ptr, ((cell + d) % 256) as u8), ptr: m.ptr, pc: m.pc + 1 },
        ),
        InstrView::Move(d) => match moved(m.ptr, d as int) {
            Ok(p) => Ok(Machine { tape: m.tape, ptr: p, pc: m.pc + 1 }),
            Err(e) => Err(e),
        },
        InstrView::Clear => Ok(Machine { tape: m.tape.update(m.ptr, 0), ptr: m.ptr, pc: m.pc + 1 }),
        InstrView::AddMul(e) => if cell == 0 {
            Ok(next)
        } else {
            match transfer(m.tape, m.ptr, cell, e) {
                Ok(t) => Ok(Machine { tape: t.update(m.ptr, 0), ptr: m.ptr, pc: m.pc + 1 }),
                Err(x) => Err(x),
            }
        },
        InstrView::Open(t) => if cell == 0 {
            Ok(Machine { tape: m.tape, ptr: m.ptr, pc: t + 1int })
        } else {
            Ok(next)
        },
        InstrView::Close(t) => if cell != 0 {
            Ok(Machine { tape: m.tape, ptr: m.ptr, pc: t + 1int })
        } else {
            Ok(next)
        },
        _ => Ok(next),
    }
}

/// Runs `code` from state `m` on `input` for at most `fuel` instructions: how the run ends
/// (it fails when the pointer leaves the tape or the steps run out) and the bytes it writes.
/// Input past its end reads as zero.
pub open spec fn execute(code: Seq<InstrView>, m: Machine, input: Seq<u8>, fuel: nat) -> (
    Result<(), Seq<char>>,
    Seq<u8>,
)
    decreases fuel,
{
    if !(0 <= m.pc < code.len()) {
        (Ok(()), Seq::empty())
    } else if fuel == 0 {
        (Err(step_limit_msg()), Seq::empty())
    } else {
        let cell = m.tape[m.ptr];
        match code[m.pc] {
            InstrView::Input => {
                let byte: u8 = if input.len() > 0 {
                    input[0]
                } else {
                    0
                };
                execute(
                    code,
                    Machine { tape: m.tape.update(m.ptr, byte), ptr: m.ptr, pc: m.pc + 1 },
                    if input.len() > 0 {
                        input.drop_first()
                    } else {
                        input
                    },
                    (fuel - 1) as nat,
                )
            },
            InstrView::Output => {
                let rest = execute(
                    code,
                    Machine { tape: m.tape, ptr: m.ptr, pc: m.pc + 1 },
                    input,
                    (fuel - 1) as nat,
                );
                (rest.0, seq![cell] + rest.1)
            },
            i => match step(i, m) {
                Ok(m2) => execute(code, m2, input, (fuel - 1) as nat),
                Err(e) => (Err(e), Seq::empty()),
            },
        }
    }
}

/// Runs `code` from `m` until it runs past its last instruction: the state it ends in, or none
/// when it leaves the tape, meets an input or output instruction, or needs more than `fuel`
/// steps.
pub open spec fn finish(code: Seq<InstrView>, m: Machine, fuel: nat) -> Option<Machine>
    decreases fuel,
{
    if m.pc >= code.len() || m.pc < 0 {
        Some(m)
    } else if fuel == 0 {
        None
    } else {
        match code[m.pc] {
            InstrView::Input => None,
            InstrView::Output => None,
            i => match step(i, m) {
                Ok(m2) => finish(code, m2, (fuel - 1) as nat),
                Err(_) => None,
            },
        }
    }
}

/// A state on the tape.
pub open spec fn on_tape(m: Machine) -> bool {
    m.tape.len() == TAPE_SIZE && 0 <= m.ptr < TAPE_SIZE
}

proof fn lemma_clear_loop(d: i16, m: Machine, fuel: nat)
    requires
        d == 1 || d == -1,
        on_tape(m),
        0 <= m.pc <= 2,
        finish(seq![InstrView::Open(2), InstrView::Add(d), InstrView::Close(0)], m, fuel) is Some,
    ensures
        ({
            let e = finish(seq![InstrView::Open(2), InstrView::Add(d), InstrView::Close(0)], m, fuel)->0;
            e.tape == m.tape.update(m.ptr, 0) && e.ptr == m.ptr
        }),
    decreases fuel,
{
    let code = seq![InstrView::Open(2), InstrView::Add(d), InstrView::Close(0)];
    let cell = m.tape[m.ptr];
    if cell == 0 {
        assert(m.tape.update(m.ptr, 0) =~= m.tape);
    }
    if m.pc == 0 {
        if cell != 0 {
            lemma_clear_loop(d, Machine { tape: m.tape, ptr: m.ptr, pc: 1 }, (fuel - 1) as nat);
        }
    } else if m.pc == 1 {
        let t = m.tape.update(m.ptr, ((cell + d) % 256) as u8);
        lemma_clear_loop(d, Machine { tape: t, ptr: m.ptr, pc: 2 }, (fuel - 1) as nat);
        assert(t.update(m.ptr, 0) =~= m.tape.update(m.ptr, 0));
    } else {
        if cell != 0 {
            lemma_clear_loop(d, Machine { tape: m.tape, ptr: m.ptr, pc: 1 }, (fuel - 1) as nat);
        }
    }
}

/// A clear loop, `[-]` or `[+]`, does what `Clear` does: whenever the loop finishes it has set
/// the current cell to zero and left the other cells and the pointer as they were, which is
/// what `Clear` does in one step.
pub proof fn law_clear_loops(body: Seq<OpView>, m: Machine, fuel: nat)
    requires
        loop_op(body) == OpView::Clear,
        on_tape(m),
        m.pc == 0,
        finish(flat_ops(seq![OpView::Loop(body)], 0), m, fuel) is Some,
    ensures
        finish(flat_ops(seq![OpView::Loop(body)], 0), m, fuel)->0.tape == m.tape.update(m.ptr, 0),
        finish(flat_ops(seq![OpView::Loop(body)], 0), m, fuel)->0.ptr == m.ptr,
        finish(flat_ops(seq![OpView::Clear], 0), m, 1) == Some(
            Machine { tape: m.tape.update(m.ptr, 0), ptr: m.ptr, pc: 1 },
        ),
{
    let d: i16 = if body[0] == OpView::Add(1i16) { 1i16 } else { -1i16 };
    assert(body.len() == 1 && body[0] == OpView::Add(d)) by {
        if !(body.len() == 1 && (body[0] == OpView::Add(1i16) || body[0] == OpView::Add(-1i16))) {
            assert(!(loop_op(body) is Clear));
        }
    }
    let one = seq![OpView::Loop(body)];
    assert(one.drop_last() =~= Seq::<OpView>::empty());
    assert(body.drop_last() =~= Seq::<OpView>::empty());
    assert(flat_ops(Seq::<OpView>::empty(), 1) == Seq::<InstrView>::empty());
    assert(flat_ops(Seq::<OpView>::empty(), 0) == Seq::<InstrView>::empty());
    assert(flat_op(OpView::Add(d), 1) == seq![InstrView::Add(d)]);
    assert(flat_ops(body, 1) =~= seq![InstrView::Add(d)]);
    assert(flat_op(OpView::Loop(body), 0) =~= seq![InstrView::Open(2), InstrView::Add(d), InstrView::Close(0)]);
    assert(flat_ops(one, 0) =~= seq![InstrView::Open(2), InstrView::Add(d), InstrView::Close(0)]);
    lemma_clear_loop(d, m, fuel);
    let c = seq![OpView::Clear];
    assert(c.drop_last() =~= Seq::<OpView>::empty());
    assert(flat_op(OpView::Clear, 0) == seq![InstrView::Clear]);
    assert(flat_ops(c, 0) =~= seq![InstrView::Clear]);
    let end = Machine { tape: m.tape.update(m.ptr, 0), ptr: m.ptr, pc: 1 };
    assert(finish(seq![InstrView::Clear], end, 0) == Some(end));
}

/// The run of `ops` on `input`: from the first state, for at most `STEP_LIMIT` instructions.
pub open spec fn run_of(ops: Seq<OpView>, input: Seq<u8>) -> (Result<(), Seq<char>>, Seq<u8>) {
    execute(flat_ops(ops, 0), start_machine(), input, STEP_LIMIT as nat)
}

/// The run of `rest` preceded by an event: an output byte goes in front of what follows, an
/// error ends the run.
pub open spec fn resumed(r: Result<Event, String>, rest: (Result<(), Seq<char>>, Seq<u8>)) -> (
    Result<(), Seq<char>>,
    Seq<u8>,
) {
    match r {
        Ok(Event::Output(b)) => (rest.0, seq![b] + rest.1),
        Ok(_) => rest,
        Err(e) => (Err(e@), Seq::empty()),
    }
}

/// The cell `delta` cells away from `ptr`, or the error for leaving the tape.
fn checked_index(ptr: usize, delta: isize) -> (r: Result<usize, String>)
    requires
        ptr < TAPE_SIZE,
    ensures
        r matches Ok(n) ==> moved(ptr as int, delta as int) == Ok::<int, Seq<char>>(n as int),
        r matches Err(e) ==> moved(ptr as int, delta as int) == Err::<int, Seq<char>>(e@),
{
    match ptr.checked_add_signed(delta) {
        None => Err("data pointer moved before cell 0".to_string()),
        Some(next) => {
            if next >= TAPE_SIZE {
                Err("data pointer moved past cell 29999".to_string())
            } else {
                Ok(next)
            }
        },
    }
}

/// `value + delta`, wrapping around modulo 256.
fn add_wrapping(value: u8, delta: i16) -> (r: u8)
    ensures
        r as int == (value as int + delta as int) % 256,
{
    if delta >= 0 {
        let d: u8 = (delta % 256) as u8;
        let r = value.wrapping_add(d);
        assert(r as int == (value as int + delta as int) % 256) by (nonlinear_arith)
            requires
                d as int == delta as int % 256,
                r as int == (value as int + d as int) % 256,
                delta >= 0,
        ;
        r
    } else {
        let m: i32 = 0i32 - delta as i32;
        let d: u8 = (m % 256) as u8;
        let r = value.wrapping_sub(d);
        assert(r as int == (value as int + delta as int) % 256) by (nonlinear_arith)
            requires
                m == -(delta as int),
                d as int == m as int % 256,
                m > 0,
                r as int == (value as int - d as int) % 256,
        ;
        r
    }
}

impl Runtime {
    pub closed spec fn wf(&self) -> bool {
        &&& self.tape@.len() == TAPE_SIZE
        &&& self.ptr < TAPE_SIZE
        &&& jumps_ok(self.code@)
    }

    /// The instructions being run.
    pub closed spec fn code(&self) -> Seq<InstrView> {
        views(self.code@)
    }

    /// The state of the run.
    pub closed spec fn machine(&self) -> Machine {
        Machine { tape: self.tape@, ptr: self.ptr as int, pc: self.pc as int }
    }

    /// The run stands on an input instruction.
    pub open spec fn awaiting_input(&self) -> bool {
        &&& 0 <= self.machine().pc < self.code().len()
        &&& self.code()[self.machine().pc] is Input
    }

    /// Starts a program with a zeroed tape, the data pointer at cell 0.
    pub fn new(program: &Program) -> (rt: Self)
        ensures
            rt.wf(),
            rt.code() == flat_ops(program.op_seq(), 0),
            rt.machine() == start_machine(),
    {
        let mut code: Vec<Instr> = Vec::new();
        flatten(&program.ops, &mut code);
        assert(views(Seq::<Instr>::empty()) =~= Seq::<InstrView>::empty());
        assert(views(code@) =~= flat_ops(ops_view(program.ops@), 0));
        let rt = Self { code, tape: vec![0u8; TAPE_SIZE], ptr: 0, pc: 0 };
        assert(rt.tape@ =~= Seq::new(TAPE_SIZE as nat, |i: int| 0u8));
        rt
    }

    /// Runs until the program halts, writes a byte, waits for input, or `fuel` instructions
    /// have run. What the run from the new state gives, after the event, is what the run from
    /// the old state would have given.
    pub fn resume(&mut self, fuel: &mut u64) -> (r: Result<Event, String>)
        requires
            old(self).wf(),
        ensures
            final(self).wf(),
            final(self).code() == old(self).code(),
            *final(fuel) <= *old(fuel),
            forall|input: Seq<u8>|
                #[trigger] execute(old(self).code(), old(self).machine(), input, *old(fuel) as nat)
                    == resumed(r, execute(final(self).code(), final(self).machine(), input, *final(fuel) as nat)),
            r matches Ok(Event::Output(_)) ==> *final(fuel) < *old(fuel),
            r matches Ok(Event::Halted) ==> final(self).machine().pc >= final(self).code().len(),
            r matches Ok(Event::NeedInput) ==> final(self).awaiting_input() && *final(fuel) > 0,
            r matches Ok(Event::OutOfSteps) ==> *final(fuel) == 0 && final(self).machine().pc
                < final(self).code().len(),
    {
        loop
            invariant
                self.wf(),
                self.code() == old(self).code(),
                *fuel <= *old(fuel),
                forall|input: Seq<u8>|
                    #[trigger] execute(old(self).code(), old(self).machine(), input, *old(fuel) as nat)
                        == execute(self.code(), self.machine(), input, *fuel as nat),
            decreases *fuel,
        {
            let ghost cur = self.machine();
            let ghost f = *fuel as nat;
            let ghost code = self.code();
            if self.pc >= self.code.len() {
                return Ok(Event::Halted);
            }
            if *fuel == 0 {
                return Ok(Event::OutOfSteps);
            }
            let pc = self.pc;
            let ptr = self.ptr;
            assert(code[pc as int] == self.code@[pc as int]@);
            match &self.code[pc] {
                Instr::Input => {
                    return Ok(Event::NeedInput);
                },
                Instr::Output => {
                    *fuel = *fuel - 1;
                    self.pc = pc + 1;
                    return Ok(Event::Output(self.tape[ptr]));
                },
                Instr::Add(d) => {
                    let v = add_wrapping(self.tape[ptr], *d);
                    self.tape.set(ptr, v);
                    self.pc = pc + 1;
                },
                Instr::Move(d) => {
                    self.ptr = checked_index(ptr, *d)?;
                    self.pc = pc + 1;
                },
                Instr::Clear => {
                    self.tape.set(ptr, 0);
                    self.pc = pc + 1;
                },
                Instr::AddMul(effects) => {
                    let value = self.tape[ptr];
                    if value == 0 {
                        self.pc = pc + 1;
                        *fuel = *fuel - 1;
                        proof {
                            assert(step(code[pc as int], cur) == Ok::<Machine, Seq<char>>(self.machine()));
                        }
                        continue;
                    }
                    let mut k: usize = 0;
                    while k < effects.len()
                        invariant
                            self.tape@.len() == TAPE_SIZE,
                            self.ptr == ptr,
                            ptr < TAPE_SIZE,
                            jumps_ok(self.code@),
                            views(self.code@) == code,
                            code == old(self).code(),
                            *fuel <= *old(fuel),
                            *fuel > 0,
                            f == *fuel as nat,
                            cur.pc == pc,
                            cur.ptr == ptr,
                            cur.tape.len() == TAPE_SIZE,
                            code[pc as int] == InstrView::AddMul(effects@),
                            forall|input: Seq<u8>|
                                #[trigger] execute(old(self).code(), old(self).machine(), input, *old(fuel) as nat)
                                    == execute(code, cur, input, f),
                            self.pc == pc,
                            pc < self.code@.len(),
                            k <= effects@.len(),
                            value == cur.tape[ptr as int],
                            value != 0,
                            transfer(cur.tape, ptr as int, value, effects@.take(k as int)) == Ok::<
                                Seq<u8>,
                                Seq<char>,
                            >(self.tape@),
                        decreases effects@.len() - k,
                    {
                        let (offset, factor) = effects[k];
                        proof {
                            assert(effects@.take(k + 1).drop_last() =~= effects@.take(k as int));
                        }
                        let index = match checked_index(ptr, offset) {
                            Ok(i) => i,
                            Err(e) => {
                                proof {
                                    lemma_transfer_fails(cur.tape, ptr as int, value, effects@, k + 1);
                                }
                                return Err(e);
                            },
                        };
                        let delta = value.wrapping_mul(#[verifier::truncate] (factor as u8));
                        let v = self.tape[index].wrapping_add(delta);
                        self.tape.set(index, v);
                        k = k + 1;
                    }
                    proof {
                        assert(effects@.take(effects@.len() as int) =~= effects@);
                    }
                    self.tape.set(ptr, 0);
                    self.pc = pc + 1;
                },
                Instr::Open(target) => {
                    if self.tape[ptr] == 0 {
                        self.pc = *target + 1;
                    } else {
                        self.pc = pc + 1;
                    }
                },
                Instr::Close(target) => {
                    if self.tape[ptr] != 0 {
                        self.pc = *target + 1;
                    } else {
                        self.pc = pc + 1;
                    }
                },
            }
            *fuel = *fuel - 1;
            proof {
                assert(step(code[pc as int], cur) == Ok::<Machine, Seq<char>>(self.machine()));
            }
        }
    }

    /// Whether the runtime stands on an input instruction.
    pub fn waiting_for_input(&self) -> (b: bool)
        requires
            self.wf(),
        ensures
            b == self.awaiting_input(),
    {
        if self.pc < self.code.len() {
            assert(self.code()[self.pc as int] == self.code@[self.pc as int]@);
            match self.code[self.pc] {
                Instr::Input => true,
                _ => false,
            }
        } else {
            false
        }
    }

    /// Stores an input byte (zero at the end of input) in the current cell and moves past the
    /// input instruction.
    pub fn provide_input(&mut self, byte: Option<u8>)
        requires
            old(self).wf(),
            old(self).awaiting_input(),
        ensures
            final(self).wf(),
            final(self).code() == old(self).code(),
            final(self).machine() == (Machine {
                tape: old(self).machine().tape.update(
                    old(self).machine().ptr,
                    match byte {
                        Some(b) => b,
                        None => 0u8,
                    },
                ),
                ptr: old(self).machine().ptr,
                pc: old(self).machine().pc + 1,
            }),
    {
        let value = match byte {
            Some(b) => b,
            None => 0,
        };
        let n = self.code.len();
        assert(self.code().len() == n);
        self.tape.set(self.ptr, value);
        self.pc = self.pc + 1;
    }
}

/// A transfer that fails on its first `k` effects fails on all of them, with the same error.
proof fn lemma_transfer_fails(tape: Seq<u8>, ptr: int, value: u8, effects: Seq<(isize, i16)>, k: int)
    requires
        0 < k <= effects.len(),
        transfer(tape, ptr, value, effects.take(k)) is Err,
    ensures
        transfer(tape, ptr, value, effects) == transfer(tape, ptr, value, effects.take(k)),
    decreases effects.len() - k,
{
    if k < effects.len() {
        assert(effects.take(k + 1).drop_last() =~= effects.take(k));
        lemma_transfer_fails(tape, ptr, value, effects, k + 1);
    } else {
        assert(effects.take(k) =~= effects);
    }
}

/// Steps a run may take before it is stopped.
pub const STEP_LIMIT: u64 = 0xffff_ffff_ffff_ffff;

impl Program {
    /// Runs the program on `input` (end of input reads as zero), appending what it writes to
    /// `output`. Fails when the data pointer leaves the tape, or after `STEP_LIMIT` steps.
    pub fn run(&self, input: &[u8], output: &mut Vec<u8>) -> (r: Result<(), String>)
        ensures
            final(output)@ == old(output)@ + run_of(self.op_seq(), input@).1,
            r is Ok <==> run_of(self.op_seq(), input@).0 is Ok,
            r matches Err(e) ==> run_of(self.op_seq(), input@).0 == Err::<(), Seq<char>>(e@),
    {
        let mut rt = Runtime::new(self);
        let mut fuel: u64 = STEP_LIMIT;
        let mut pos: usize = 0;
        let ghost start = output@;
        let ghost code = rt.code();
        let ghost total = run_of(self.op_seq(), input@);
        proof {
            assert(input@.subrange(0, input@.len() as int) =~= input@);
            assert(output@.subrange(0, start.len() as int) =~= start);
            let rest = execute(code, rt.machine(), input@, fuel as nat);
            assert(output@.subrange(start.len() as int, output@.len() as int) + rest.1 =~= rest.1);
        }
        loop
            invariant
                rt.wf(),
                rt.code() == code,
                code == flat_ops(self.op_seq(), 0),
                total == run_of(self.op_seq(), input@),
                start == old(output)@,
                pos <= input@.len(),
                output@.len() >= start.len(),
                output@.subrange(0, start.len() as int) == start,
                total == ({
                    let rest = execute(code, rt.machine(), input@.subrange(pos as int, input@.len() as int), fuel as nat);
                    (rest.0, output@.subrange(start.len() as int, output@.len() as int) + rest.1)
                }),
            decreases fuel,
        {
            let ghost inp = input@.subrange(pos as int, input@.len() as int);
            let ghost produced = output@.subrange(start.len() as int, output@.len() as int);
            let event = match rt.resume(&mut fuel) {
                Ok(ev) => ev,
                Err(e) => {
                    proof {
                        assert(output@ =~= start + produced);
                    }
                    return Err(e);
                },
            };
            match event {
                Event::Halted => {
                    proof {
                        assert(output@ =~= start + produced);
                        assert(produced + Seq::<u8>::empty() =~= produced);
                    }
                    return Ok(());
                },
                Event::Output(b) => {
                    output.push(b);
                    proof {
                        assert(output@.subrange(0, start.len() as int) =~= start);
                        assert(output@.subrange(start.len() as int, output@.len() as int) =~= produced.push(b));
                        let rest = execute(code, rt.machine(), inp, fuel as nat);
                        assert(produced + (seq![b] + rest.1) =~= produced.push(b) + rest.1);
                    }
                },
                Event::NeedInput => {
                    if fuel == 0 {
                        return Err("step limit reached".to_string());
                    }
                    let ghost before = rt.machine();
                    fuel = fuel - 1;
                    let byte = if pos < input.len() {
                        Some(input[pos])
                    } else {
                        None
                    };
                    if pos < input.len() {
                        pos = pos + 1;
                    }
                    rt.provide_input(byte);
                    proof {
                        let next = input@.subrange(pos as int, input@.len() as int);
                        if inp.len() > 0 {
                            assert(inp.drop_first() =~= next);
                        } else {
                            assert(inp =~= next);
                        }
                    }
                },
                Event::OutOfSteps => {
                    proof {
                        assert(output@ =~= start + produced);
                        assert(produced + Seq::<u8>::empty() =~= produced);
                    }
                    return Err("step limit reached".to_string());
                },
            }
        }
    }
}

/// Parses and runs a Brainfuck program.
pub fn run_source(src: &str, input: &[u8], output: &mut Vec<u8>) -> (r: Result<(), String>)
    ensures
        !balanced(bf_chars(src@)) ==> (r matches Err(e) && bracket_error(bf_chars(src@), e@)
            && final(output)@ == old(output)@),
        balanced(bf_chars(src@)) ==> final(output)@ == old(output)@ + run_of(
            parsed_ops(bf_chars(src@)),
            input@,
        ).1,
        balanced(bf_chars(src@)) ==> (r is Ok <==> run_of(parsed_ops(bf_chars(src@)), input@).0 is Ok),
        balanced(bf_chars(src@)) ==> (r matches Err(e) ==> run_of(parsed_ops(bf_chars(src@)), input@).0
            == Err::<(), Seq<char>>(e@)),
{
    let program = Program::parse(src)?;
    program.run(input, output)
}

} // verus!
