//! Why a transfer loop such as `[->++<]` may run as one `AddMul` operation: whenever the loop
//! finishes, it has added the start cell's value times each net addition of its body to the
//! cell at that offset, and cleared the start cell.
use vstd::prelude::*;
use vstd::arithmetic::div_mod::{
    lemma_add_mod_noop_right, lemma_mod_multiples_vanish, lemma_mul_mod_noop_right,
};
use crate::interpreter::{
    body_effects, finish, flat_op, flat_ops, kept_effects, merge_effect, moved, on_tape, step,
    transfer, transfer_effects, InstrView, Machine, OpView, TAPE_SIZE,
};

verus! {

/// The net addition an effect list makes at offset `x` (its first entry for `x`), or 0.
pub open spec fn lookup(e: Seq<(isize, i16)>, x: int) -> i16
    decreases e.len(),
{
    if e.len() == 0 {
        0
    } else if e[0].0 == x {
        e[0].1
    } else {
        lookup(e.drop_first(), x)
    }
}

/// The offsets of an effect list increase strictly.
pub open spec fn sorted_effects(e: Seq<(isize, i16)>) -> bool {
    forall|i: int, j: int| 0 <= i < j < e.len() ==> #[trigger] e[i].0 < #[trigger] e[j].0
}

proof fn lemma_lookup_absent(e: Seq<(isize, i16)>, x: int)
    requires
        forall|k: int| 0 <= k < e.len() ==> #[trigger] e[k].0 != x,
    ensures
        lookup(e, x) == 0,
    decreases e.len(),
{
    if e.len() > 0 {
        let t = e.drop_first();
        assert forall|k: int| 0 <= k < t.len() implies #[trigger] t[k].0 != x by {
            assert(t[k] == e[k + 1]);
        }
        lemma_lookup_absent(t, x);
    }
}

proof fn lemma_lookup_at(e: Seq<(isize, i16)>, k: int)
    requires
        sorted_effects(e),
        0 <= k < e.len(),
    ensures
        lookup(e, e[k].0 as int) == e[k].1,
    decreases k,
{
    if k > 0 {
        let t = e.drop_first();
        assert(sorted_effects(t)) by {
            assert forall|i: int, j: int| 0 <= i < j < t.len() implies #[trigger] t[i].0 < #[trigger] t[j].0 by {
                assert(t[i] == e[i + 1] && t[j] == e[j + 1]);
            }
        }
        assert(e[0].0 < e[k].0);
        assert(t[k - 1] == e[k]);
        lemma_lookup_at(t, k - 1);
    }
}

/// Merging keeps an effect list sorted and adds `d` at offset `o` only.
proof fn lemma_merge(e: Seq<(isize, i16)>, o: isize, d: i16)
    requires
        sorted_effects(e),
    ensures
        sorted_effects(merge_effect(e, o, d)),
        forall|x: int|
            #[trigger] lookup(merge_effect(e, o, d), x) == if x == o {
                lookup(e, x).wrapping_add(d)
            } else {
                lookup(e, x)
            },
        forall|k: int|
            0 <= k < merge_effect(e, o, d).len() ==> (#[trigger] merge_effect(e, o, d)[k]).0 == o
                || exists|j: int| 0 <= j < e.len() && e[j].0 == merge_effect(e, o, d)[k].0,
    decreases e.len(),
{
    let r = merge_effect(e, o, d);
    if e.len() == 0 {
        assert forall|x: int| #[trigger] lookup(r, x) == if x == o { lookup(e, x).wrapping_add(d) } else {
            lookup(e, x)
        } by {
            assert(r.drop_first() =~= Seq::<(isize, i16)>::empty());
            assert(lookup(Seq::<(isize, i16)>::empty(), x) == 0);
            assert(lookup(e, x) == 0);
            assert(0i16.wrapping_add(d) == d);
        }
    } else if e[0].0 == o {
        assert forall|i: int, j: int| 0 <= i < j < r.len() implies #[trigger] r[i].0 < #[trigger] r[j].0 by {
            assert(e[i].0 < e[j].0);
        }
        assert(r.drop_first() =~= e.drop_first());
        assert forall|k: int| 0 <= k < r.len() implies (#[trigger] r[k]).0 == o || exists|j: int|
            0 <= j < e.len() && e[j].0 == r[k].0 by {
            assert(r[k].0 == e[k].0);
        }
        assert forall|x: int| #[trigger] lookup(r, x) == if x == o { lookup(e, x).wrapping_add(d) } else {
            lookup(e, x)
        } by {
            if x != o {
                assert(lookup(r, x) == lookup(r.drop_first(), x));
                assert(lookup(e, x) == lookup(e.drop_first(), x));
            }
        }
    } else if e[0].0 > o {
        assert forall|i: int, j: int| 0 <= i < j < r.len() implies #[trigger] r[i].0 < #[trigger] r[j].0 by {
            if i > 0 {
                assert(r[i] == e[i - 1] && r[j] == e[j - 1]);
            } else {
                assert(r[j] == e[j - 1]);
                assert(e[0].0 <= e[j - 1].0);
            }
        }
        assert(r.drop_first() =~= e);
        assert forall|x: int| #[trigger] lookup(r, x) == if x == o { lookup(e, x).wrapping_add(d) } else {
            lookup(e, x)
        } by {
            if x == o {
                assert forall|k: int| 0 <= k < e.len() implies #[trigger] e[k].0 != x by {
                    assert(e[0].0 <= e[k].0);
                }
                lemma_lookup_absent(e, x);
            }
        }
        assert forall|k: int| 0 <= k < r.len() implies (#[trigger] r[k]).0 == o || exists|j: int|
            0 <= j < e.len() && e[j].0 == r[k].0 by {
            if k > 0 {
                assert(r[k] == e[k - 1]);
            }
        }
    } else {
        let t = e.drop_first();
        assert(sorted_effects(t)) by {
            assert forall|i: int, j: int| 0 <= i < j < t.len() implies #[trigger] t[i].0 < #[trigger] t[j].0 by {
                assert(t[i] == e[i + 1] && t[j] == e[j + 1]);
            }
        }
        lemma_merge(t, o, d);
        let mt = merge_effect(t, o, d);
        assert(r == seq![e[0]] + mt);
        assert(r.drop_first() =~= mt);
        assert forall|x: int| #[trigger] lookup(r, x) == if x == o { lookup(e, x).wrapping_add(d) } else {
            lookup(e, x)
        } by {
            if e[0].0 != x {
                assert(lookup(r, x) == lookup(mt, x));
                assert(lookup(e, x) == lookup(t, x));
                assert(lookup(mt, x) == if x == o { lookup(t, x).wrapping_add(d) } else { lookup(t, x) });
            }
        }
        assert forall|k: int| 0 <= k < r.len() implies (#[trigger] r[k]).0 == o || exists|j: int|
            0 <= j < e.len() && e[j].0 == r[k].0 by {
            if k > 0 {
                assert(r[k] == mt[k - 1]);
                if mt[k - 1].0 != o {
                    let j = choose|j: int| 0 <= j < t.len() && t[j].0 == mt[k - 1].0;
                    assert(e[j + 1] == t[j]);
                }
            } else {
                assert(r[0] == e[0]);
            }
        }
        assert forall|i: int, j: int| 0 <= i < j < r.len() implies #[trigger] r[i].0 < #[trigger] r[j].0 by {
            if i > 0 {
                assert(r[i] == mt[i - 1] && r[j] == mt[j - 1]);
            } else {
                assert(r[j] == mt[j - 1]);
                if mt[j - 1].0 != o {
                    let q = choose|q: int| 0 <= q < t.len() && t[q].0 == mt[j - 1].0;
                    assert(e[q + 1] == t[q]);
                    assert(e[0].0 < e[q + 1].0);
                }
            }
        }
    }
}

/// Adding `l` and then `d` to a byte is adding their 16-bit wrapped sum.
proof fn lemma_add_twice(t: int, l: i16, d: i16)
    ensures
        ((t + l) % 256 + d) % 256 == (t + l.wrapping_add(d)) % 256,
{
    lemma_add_mod_noop_right(d as int, t + l, 256);
    let s = t + l + d;
    if l + d > i16::MAX {
        lemma_mod_multiples_vanish(-256, s, 256);
        assert(s - 65536 == 256 * -256 + s);
    } else if l + d < i16::MIN {
        lemma_mod_multiples_vanish(256, s, 256);
        assert(s + 65536 == 256 * 256 + s);
    }
}

pub open spec fn instr_of(op: OpView) -> InstrView {
    match op {
        OpView::Add(d) => InstrView::Add(d),
        OpView::Move(d) => InstrView::Move(d),
        _ => InstrView::Input,
    }
}

/// Runs a body of additions and moves, one step per operation: the state it ends in, or none
/// when a move leaves the tape.
pub open spec fn walk(body: Seq<OpView>, m: Machine) -> Option<Machine>
    decreases body.len(),
{
    if body.len() == 0 {
        Some(m)
    } else {
        match walk(body.drop_last(), m) {
            None => None,
            Some(w) => match step(instr_of(body.last()), w) {
                Ok(n) => Some(n),
                Err(_) => None,
            },
        }
    }
}

/// Walking a body adds its net effects to the cells around the start cell and moves the
/// pointer by the body's net move.
proof fn lemma_walk(body: Seq<OpView>, m: Machine)
    requires
        body_effects(body) is Some,
        on_tape(m),
        walk(body, m) is Some,
    ensures
        ({
            let (off, e) = body_effects(body)->0;
            let w = walk(body, m)->0;
            &&& sorted_effects(e)
            &&& on_tape(w)
            &&& w.ptr == m.ptr + off
            &&& w.pc == m.pc + body.len()
            &&& forall|i: int| 0 <= i < TAPE_SIZE ==> #[trigger] w.tape[i] == ((m.tape[i] + lookup(e, i - m.ptr)) % 256) as u8
        }),
    decreases body.len(),
{
    if body.len() == 0 {
        assert forall|i: int| 0 <= i < TAPE_SIZE implies #[trigger] m.tape[i] == ((m.tape[i] + lookup(
            Seq::<(isize, i16)>::empty(),
            i - m.ptr,
        )) % 256) as u8 by {}
    } else {
        let front = body.drop_last();
        lemma_walk(front, m);
        let (off0, e0) = body_effects(front)->0;
        let w0 = walk(front, m)->0;
        let q = w0.ptr;
        match body.last() {
            OpView::Add(d) => {
                lemma_merge(e0, off0, d);
                let e = merge_effect(e0, off0, d);
                let w = walk(body, m)->0;
                assert forall|i: int| 0 <= i < TAPE_SIZE implies #[trigger] w.tape[i] == ((m.tape[i]
                    + lookup(e, i - m.ptr)) % 256) as u8 by {
                    assert(w0.tape[i] == ((m.tape[i] + lookup(e0, i - m.ptr)) % 256) as u8);
                    if i == q {
                        lemma_add_twice(m.tape[i] as int, lookup(e0, i - m.ptr), d);
                    }
                }
            },
            OpView::Move(d) => {
                assert(moved(q, d as int) is Ok);
                assert(off0.wrapping_add(d) == off0 + d);
            },
            _ => {},
        }
    }
}

/// A body of additions and moves flattens to one instruction per operation.
proof fn lemma_flat_body(body: Seq<OpView>, at: nat)
    requires
        body_effects(body) is Some,
    ensures
        flat_ops(body, at).len() == body.len(),
        forall|k: int| 0 <= k < body.len() ==> #[trigger] flat_ops(body, at)[k] == instr_of(body[k]),
        forall|k: int| 0 <= k < body.len() ==> (#[trigger] body[k] is Add) || body[k] is Move,
    decreases body.len(),
{
    if body.len() > 0 {
        let front = body.drop_last();
        lemma_flat_body(front, at);
        let last = body.last();
        assert(last is Add || last is Move);
        assert(flat_op(last, at + flat_ops(front, at).len()) == seq![instr_of(last)]);
        assert forall|k: int| 0 <= k < body.len() implies #[trigger] flat_ops(body, at)[k] == instr_of(
            body[k],
        ) by {
            if k < front.len() {
                assert(body[k] == front[k]);
            }
        }
        assert forall|k: int| 0 <= k < body.len() implies (#[trigger] body[k] is Add) || body[k] is Move by {
            if k < front.len() {
                assert(body[k] == front[k]);
            }
        }
    }
}

/// The instructions of a loop whose body is additions and moves.
proof fn lemma_flat_loop(body: Seq<OpView>)
    requires
        body_effects(body) is Some,
    ensures
        ({
            let code = flat_ops(seq![OpView::Loop(body)], 0);
            &&& code.len() == body.len() + 2
            &&& code[0] == InstrView::Open(body.len() + 1)
            &&& code[body.len() + 1int] == InstrView::Close(0)
            &&& forall|k: int| 0 <= k < body.len() ==> #[trigger] code[k + 1] == instr_of(body[k])
        }),
{
    lemma_flat_body(body, 1);
    let one = seq![OpView::Loop(body)];
    assert(one.drop_last() =~= Seq::<OpView>::empty());
    assert(flat_ops(Seq::<OpView>::empty(), 0) == Seq::<InstrView>::empty());
    let inner = flat_ops(body, 1);
    assert(flat_op(OpView::Loop(body), 0) == seq![InstrView::Open(body.len() + 1)] + inner + seq![
        InstrView::Close(0),
    ]);
    let code = flat_ops(one, 0);
    assert(code =~= seq![InstrView::Open(body.len() + 1)] + inner + seq![InstrView::Close(0)]);
    assert forall|k: int| 0 <= k < body.len() implies #[trigger] code[k + 1] == instr_of(body[k]) by {
        assert(code[k + 1] == inner[k]);
    }
}

/// A loop run that finishes goes through the whole body from its first instruction.
proof fn lemma_run_body(body: Seq<OpView>, m: Machine, fuel: nat, k: int)
    requires
        body_effects(body) is Some,
        m.pc == 1,
        0 <= k <= body.len(),
        finish(flat_ops(seq![OpView::Loop(body)], 0), m, fuel) is Some,
    ensures
        walk(body.take(k), m) is Some,
        fuel >= k,
        finish(flat_ops(seq![OpView::Loop(body)], 0), walk(body.take(k), m)->0, (fuel - k) as nat)
            == finish(flat_ops(seq![OpView::Loop(body)], 0), m, fuel),
        walk(body.take(k), m)->0.pc == 1 + k,
    decreases k,
{
    let code = flat_ops(seq![OpView::Loop(body)], 0);
    if k == 0 {
        assert(body.take(0) =~= Seq::<OpView>::empty());
    } else {
        lemma_run_body(body, m, fuel, k - 1);
        lemma_flat_loop(body);
        lemma_flat_body(body, 1);
        let w = walk(body.take(k - 1), m)->0;
        let f = (fuel - (k - 1)) as nat;
        assert(body.take(k).drop_last() =~= body.take(k - 1));
        assert(body.take(k).last() == body[k - 1]);
        assert(code[w.pc] == instr_of(body[k - 1]));
        assert(body[k - 1] is Add || body[k - 1] is Move);
    }
}

/// `x` plus `a` times `l` and `x` plus `b` times `l` agree modulo 256 when `a` and `b` do.
proof fn lemma_congruent_times(x: int, a: int, b: int, l: int)
    requires
        (a - b) % 256 == 0,
    ensures
        (x + a * l) % 256 == (x + b * l) % 256,
{
    let k = (a - b) / 256;
    assert(a - b == 256 * k);
    assert(a * l == b * l + 256 * (k * l)) by (nonlinear_arith)
        requires
            a - b == 256 * k,
    ;
    lemma_mod_multiples_vanish(k * l, x + b * l, 256);
}

/// One more pass of a body that adds `l` to a cell.
proof fn lemma_one_more(x: int, j: int, l: int)
    ensures
        ((x + j * l) % 256 + l) % 256 == (x + (j + 1) * l) % 256,
{
    lemma_add_mod_noop_right(l, x + j * l, 256);
    assert(x + j * l + l == x + (j + 1) * l) by (nonlinear_arith);
}

/// A transfer loop that finishes, entered at its body after `j` passes, leaves every cell with
/// the start cell's first value `c` times the body's net addition there added to it.
proof fn lemma_transfer_passes(
    body: Seq<OpView>,
    e: Seq<(isize, i16)>,
    tape: Seq<u8>,
    p: int,
    m: Machine,
    j: int,
    fuel: nat,
)
    requires
        body_effects(body) == Some((0isize, e)),
        lookup(e, 0) == -1,
        on_tape(m),
        tape.len() == TAPE_SIZE,
        m.ptr == p,
        m.pc == 1,
        j >= 0,
        forall|i: int| 0 <= i < TAPE_SIZE ==> #[trigger] m.tape[i] == ((tape[i] + j * lookup(e, i - p)) % 256) as u8,
        finish(flat_ops(seq![OpView::Loop(body)], 0), m, fuel) is Some,
    ensures
        ({
            let r = finish(flat_ops(seq![OpView::Loop(body)], 0), m, fuel)->0;
            &&& r.ptr == p
            &&& r.tape.len() == TAPE_SIZE
            &&& forall|i: int| 0 <= i < TAPE_SIZE ==> #[trigger] r.tape[i] == ((tape[i] + tape[p] * lookup(e, i - p)) % 256) as u8
        }),
    decreases fuel,
{
    let code = flat_ops(seq![OpView::Loop(body)], 0);
    let n = body.len() as int;
    lemma_flat_loop(body);
    lemma_run_body(body, m, fuel, n);
    assert(body.take(n) =~= body);
    lemma_walk(body, m);
    let w = walk(body, m)->0;
    let f = (fuel - n) as nat;
    assert forall|i: int| 0 <= i < TAPE_SIZE implies #[trigger] w.tape[i] == ((tape[i] + (j + 1) * lookup(e, i - p)) % 256) as u8 by {
        lemma_one_more(tape[i] as int, j, lookup(e, i - p) as int);
    }
    assert(code[w.pc] == InstrView::Close(0));
    let cell = w.tape[p];
    assert(cell == ((tape[p] + (j + 1) * -1) % 256) as u8);
    if cell != 0 {
        let next = Machine { tape: w.tape, ptr: p, pc: 1 };
        assert(finish(code, w, f) == finish(code, next, (f - 1) as nat));
        lemma_transfer_passes(body, e, tape, p, next, j + 1, (f - 1) as nat);
    } else {
        let end = Machine { tape: w.tape, ptr: p, pc: n + 2 };
        assert(finish(code, w, f) == finish(code, end, (f - 1) as nat));
        assert((tape[p] - (j + 1)) % 256 == 0);
        assert forall|i: int| 0 <= i < TAPE_SIZE implies #[trigger] w.tape[i] == ((tape[i] + tape[p] * lookup(e, i - p)) % 256) as u8 by {
            lemma_congruent_times(tape[i] as int, j + 1, tape[p] as int, lookup(e, i - p) as int);
        }
    }
}

proof fn lemma_body_sorted(body: Seq<OpView>)
    requires
        body_effects(body) is Some,
    ensures
        ({
            let (off, e) = body_effects(body)->0;
            sorted_effects(e)
        }),
    decreases body.len(),
{
    if body.len() > 0 {
        lemma_body_sorted(body.drop_last());
        let (off, e) = body_effects(body.drop_last())->0;
        if let OpView::Add(d) = body.last() {
            lemma_merge(e, off, d);
        }
    }
}

/// In a sorted list, the last entry is the only one at its offset.
proof fn lemma_lookup_last(k: Seq<(isize, i16)>, x: int)
    requires
        sorted_effects(k),
        k.len() > 0,
    ensures
        lookup(k, x) == if x == k.last().0 {
            k.last().1
        } else {
            lookup(k.drop_last(), x)
        },
    decreases k.len(),
{
    if k.len() == 1 {
        assert(k.drop_first() =~= Seq::<(isize, i16)>::empty());
        assert(k.drop_last() =~= Seq::<(isize, i16)>::empty());
    } else {
        let t = k.drop_first();
        assert(sorted_effects(t)) by {
            assert forall|i: int, j: int| 0 <= i < j < t.len() implies #[trigger] t[i].0 < #[trigger] t[j].0 by {
                assert(t[i] == k[i + 1] && t[j] == k[j + 1]);
            }
        }
        lemma_lookup_last(t, x);
        assert(t.last() == k.last());
        assert(t.drop_last() =~= k.drop_last().drop_first());
        assert(k.drop_last()[0] == k[0]);
        assert(k[0].0 < k[k.len() - 1].0);
    }
}

proof fn lemma_low_byte(f: i16)
    ensures
        (f as u8) as int == (f as int) % 256,
{
    assert(f >= 0 ==> (f as u8) as int == (f as int) % 256) by (bit_vector);
    assert(f < 0 ==> (f as u8) as int == (f as int) + 256 * (((-(f as int)) + 255) / 256)) by (bit_vector);
}

/// The byte `t` with `v` times `f` added, as a transfer computes it.
proof fn lemma_transfer_add(t: u8, v: u8, f: i16)
    ensures
        t.wrapping_add(v.wrapping_mul(f as u8)) as int == (t + v * f) % 256,
{
    lemma_low_byte(f);
    let y = f as u8;
    let z = v.wrapping_mul(y);
    assert(z as int == (v as int * y as int) % 256);
    lemma_mul_mod_noop_right(v as int, f as int, 256);
    assert(z as int == (v * f) % 256);
    assert(t.wrapping_add(z) as int == (t + z) % 256);
    lemma_add_mod_noop_right(t as int, v * f, 256);
}

/// A transfer over a sorted list whose cells are on the tape adds `v` times each entry's
/// delta to its cell.
proof fn lemma_transfer_cells(tape: Seq<u8>, p: int, v: u8, k: Seq<(isize, i16)>)
    requires
        tape.len() == TAPE_SIZE,
        sorted_effects(k),
        forall|i: int| 0 <= i < k.len() ==> 0 <= p + #[trigger] k[i].0 < TAPE_SIZE,
    ensures
        transfer(tape, p, v, k) is Ok,
        transfer(tape, p, v, k)->Ok_0.len() == TAPE_SIZE,
        forall|i: int| 0 <= i < TAPE_SIZE ==> #[trigger] transfer(tape, p, v, k)->Ok_0[i] == ((tape[i] + v * lookup(k, i - p)) % 256) as u8,
    decreases k.len(),
{
    if k.len() == 0 {
        assert forall|i: int| 0 <= i < TAPE_SIZE implies #[trigger] transfer(tape, p, v, k)->Ok_0[i] == ((tape[i] + v * lookup(k, i - p)) % 256) as u8 by {}
    } else {
        let front = k.drop_last();
        assert(sorted_effects(front)) by {
            assert forall|i: int, j: int| 0 <= i < j < front.len() implies #[trigger] front[i].0 < #[trigger] front[j].0 by {
                assert(front[i] == k[i] && front[j] == k[j]);
            }
        }
        assert forall|i: int| 0 <= i < front.len() implies 0 <= p + #[trigger] front[i].0 < TAPE_SIZE by {
            assert(front[i] == k[i]);
        }
        lemma_transfer_cells(tape, p, v, front);
        let t1 = transfer(tape, p, v, front)->Ok_0;
        let (o, f) = k.last();
        let q = p + o;
        assert(0 <= q < TAPE_SIZE) by {
            assert(k.last() == k[k.len() - 1]);
        }
        assert forall|j: int| 0 <= j < front.len() implies #[trigger] front[j].0 != o by {
            assert(front[j] == k[j]);
            assert(k[j].0 < k[k.len() - 1].0);
        }
        lemma_lookup_absent(front, o as int);
        assert forall|i: int| 0 <= i < TAPE_SIZE implies #[trigger] transfer(tape, p, v, k)->Ok_0[i] == ((tape[i] + v * lookup(k, i - p)) % 256) as u8 by {
            lemma_lookup_last(k, i - p);
            if i == q {
                lemma_transfer_add(t1[q], v, f);
            }
        }
    }
}

/// Keeping the entries away from offset 0 that add something keeps a list sorted and keeps
/// every net addition away from offset 0.
proof fn lemma_kept(e: Seq<(isize, i16)>)
    requires
        sorted_effects(e),
    ensures
        sorted_effects(kept_effects(e)),
        forall|x: int| #[trigger] lookup(kept_effects(e), x) == if x == 0 { 0 } else { lookup(e, x) },
        forall|k: int| 0 <= k < kept_effects(e).len() ==> exists|j: int| 0 <= j < e.len() && e[j] == #[trigger] kept_effects(e)[k],
    decreases e.len(),
{
    if e.len() == 0 {
        assert forall|x: int| #[trigger] lookup(kept_effects(e), x) == if x == 0 { 0 } else { lookup(e, x) } by {}
    } else {
        let front = e.drop_last();
        assert(sorted_effects(front)) by {
            assert forall|i: int, j: int| 0 <= i < j < front.len() implies #[trigger] front[i].0 < #[trigger] front[j].0 by {
                assert(front[i] == e[i] && front[j] == e[j]);
            }
        }
        lemma_kept(front);
        let kf = kept_effects(front);
        let last = e.last();
        assert(last == e[e.len() - 1]);
        assert forall|j: int| 0 <= j < front.len() implies #[trigger] front[j].0 != last.0 by {
            assert(front[j] == e[j]);
        }
        lemma_lookup_absent(front, last.0 as int);
        if last.0 != 0 && last.1 != 0 {
            let r = kf.push(last);
            assert(kept_effects(e) == r);
            assert forall|i: int, j: int| 0 <= i < j < r.len() implies #[trigger] r[i].0 < #[trigger] r[j].0 by {
                let a = choose|a: int| 0 <= a < front.len() && front[a] == #[trigger] kf[i];
                assert(front[a] == e[a]);
                if j < kf.len() {
                    assert(r[j] == kf[j]);
                } else {
                    assert(e[a].0 < e[e.len() - 1].0);
                }
            }
            assert forall|x: int| #[trigger] lookup(kept_effects(e), x) == if x == 0 { 0 } else { lookup(e, x) } by {
                lemma_lookup_last(r, x);
                assert(r.drop_last() =~= kf);
                lemma_lookup_last(e, x);
            }
            assert forall|k: int| 0 <= k < r.len() implies exists|j: int| 0 <= j < e.len() && e[j] == #[trigger] r[k] by {
                if k < kf.len() {
                    let a = choose|a: int| 0 <= a < front.len() && front[a] == #[trigger] kf[k];
                    assert(e[a] == front[a]);
                    assert(r[k] == kf[k]);
                } else {
                    assert(r[k] == e[e.len() - 1]);
                }
            }
        } else {
            assert(kept_effects(e) == kf);
            assert forall|x: int| #[trigger] lookup(kept_effects(e), x) == if x == 0 { 0 } else { lookup(e, x) } by {
                lemma_lookup_last(e, x);
            }
            assert forall|k: int| 0 <= k < kf.len() implies exists|j: int| 0 <= j < e.len() && e[j] == #[trigger] kf[k] by {
                let a = choose|a: int| 0 <= a < front.len() && front[a] == #[trigger] kf[k];
                assert(e[a] == front[a]);
            }
        }
    }
}

/// A transfer loop does what `AddMul` does: whenever the loop finishes, one `AddMul` step
/// with the loop's effects leaves the same tape and pointer. When the current cell is zero
/// both skip; otherwise every cell the effects name must be on the tape.
pub proof fn law_transfer_loops(body: Seq<OpView>, m: Machine, fuel: nat)
    requires
        transfer_effects(body) is Some,
        on_tape(m),
        m.pc == 0,
        m.tape[m.ptr] != 0 ==> forall|k: int|
            0 <= k < transfer_effects(body)->0.len() ==> 0 <= m.ptr + (#[trigger] transfer_effects(
                body,
            )->0[k]).0 < TAPE_SIZE,
        finish(flat_ops(seq![OpView::Loop(body)], 0), m, fuel) is Some,
    ensures
        ({
            let lp = finish(flat_ops(seq![OpView::Loop(body)], 0), m, fuel)->0;
            let op = finish(flat_ops(seq![OpView::AddMul(transfer_effects(body)->0)], 0), m, 1);
            &&& op is Some
            &&& op->0.tape == lp.tape
            &&& op->0.ptr == lp.ptr
        }),
{
    let (off, e) = body_effects(body)->0;
    let kept = transfer_effects(body)->0;
    let p = m.ptr;
    let t = m.tape;
    let c = t[p];
    lemma_body_sorted(body);
    assert(off == 0);
    let z = choose|k: int| 0 <= k < e.len() && #[trigger] e[k].0 == 0;
    lemma_lookup_at(e, z);
    assert(lookup(e, 0) == -1);
    lemma_kept(e);
    assert(kept == kept_effects(e));
    // The loop.
    let code = flat_ops(seq![OpView::Loop(body)], 0);
    lemma_flat_loop(body);
    let n = body.len() as int;
    let lp = finish(code, m, fuel)->0;
    if c == 0 {
        let end = Machine { tape: t, ptr: p, pc: n + 2 };
        assert(step(code[0], m) == Ok::<Machine, Seq<char>>(end));
        assert(finish(code, m, fuel) == finish(code, end, (fuel - 1) as nat));
        assert(lp == end);
    } else {
        let first = Machine { tape: t, ptr: p, pc: 1 };
        assert(finish(code, m, fuel) == finish(code, first, (fuel - 1) as nat));
        assert forall|i: int| 0 <= i < TAPE_SIZE implies #[trigger] first.tape[i] == ((t[i] + 0 * lookup(e, i - p)) % 256) as u8 by {}
        lemma_transfer_passes(body, e, t, p, first, 0, (fuel - 1) as nat);
    }
    // One `AddMul` step.
    let one = seq![OpView::AddMul(kept)];
    assert(one.drop_last() =~= Seq::<OpView>::empty());
    assert(flat_ops(Seq::<OpView>::empty(), 0) == Seq::<InstrView>::empty());
    assert(flat_op(OpView::AddMul(kept), 0) == seq![InstrView::AddMul(kept)]);
    let acode = flat_ops(one, 0);
    assert(acode =~= seq![InstrView::AddMul(kept)]);
    if c == 0 {
        let skip = Machine { tape: t, ptr: p, pc: 1 };
        assert(step(InstrView::AddMul(kept), m) == Ok::<Machine, Seq<char>>(skip));
        assert(finish(acode, skip, 0) == Some(skip));
        assert(finish(acode, m, 1) == Some(skip));
    } else {
        lemma_transfer_cells(t, p, c, kept);
        let t2 = transfer(t, p, c, kept)->Ok_0;
        let done = Machine { tape: t2.update(p, 0), ptr: p, pc: 1 };
        assert(step(InstrView::AddMul(kept), m) == Ok::<Machine, Seq<char>>(done));
        assert(finish(acode, done, 0) == Some(done));
        assert(finish(acode, m, 1) == Some(done));
        assert forall|i: int| 0 <= i < TAPE_SIZE implies #[trigger] done.tape[i] == lp.tape[i] by {
            if i == p {
                assert(lp.tape[i] == ((t[p] + c * -1) % 256) as u8);
            } else {
                assert(lookup(kept, i - p) == lookup(e, i - p));
            }
        }
        assert(done.tape =~= lp.tape);
    }
}

} // verus!
