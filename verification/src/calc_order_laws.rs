//! Which operation of an expression is computed first.
//!
//! Powers bind more tightly than products, and products more tightly than sums; a
//! sign binds more tightly than all of them. Sums and products are computed from
//! the left, powers from the right. Blanks do not matter.
use vstd::prelude::*;

use crate::calc::{
    atom, byte_chars, calc_error_text, followed, holds, holds_power, lemma_past, lemma_reads, numeric, past_blanks,
    past_digits, power, product, product_op, product_rest, program, sum, sum_op, sum_rest,
    unary, CalcError, OpView, Parsed,
};
use crate::numbers::{decimal, is_digit, is_fraction};

verus! {

/// An arithmetic expression, as it is meant.
pub enum Expr {
    Number(Seq<u8>),
    Plus(Box<Expr>),
    Minus(Box<Expr>),
    Binary(OpView, Box<Expr>, Box<Expr>),
}

/// The numbers read as fractions, and the operations are between two operands.
pub open spec fn sound_expr(t: Expr) -> bool
    decreases t,
{
    match t {
        Expr::Number(b) => is_fraction(byte_chars(b)) && forall|i: int|
            0 <= i < b.len() ==> numeric(#[trigger] b[i]),
        Expr::Plus(a) => sound_expr(*a),
        Expr::Minus(a) => sound_expr(*a),
        Expr::Binary(op, a, b) => !(op is Number) && !(op is Neg) && sound_expr(*a) && sound_expr(
            *b,
        ),
    }
}

/// The steps that compute an expression: first the operands, from left to right,
/// then the operation.
pub open spec fn meaning(t: Expr) -> Seq<OpView>
    decreases t,
{
    match t {
        Expr::Number(b) => seq![OpView::Number(byte_chars(b))],
        Expr::Plus(a) => meaning(*a),
        Expr::Minus(a) => meaning(*a).push(OpView::Neg),
        Expr::Binary(op, a, b) => (meaning(*a) + meaning(*b)).push(op),
    }
}

/// How tightly an expression binds: sums least, then products, powers, signs, and
/// numbers most.
pub open spec fn tightness(t: Expr) -> int {
    match t {
        Expr::Number(_) => 5,
        Expr::Plus(_) => 4,
        Expr::Minus(_) => 4,
        Expr::Binary(op, _, _) => match op {
            OpView::Add | OpView::Sub => 1,
            OpView::Mul | OpView::Div | OpView::Rem => 2,
            _ => 3,
        },
    }
}

/// How tightly the left operand of an operation has to bind to need no
/// parentheses: as tightly as the operation, but for a power, whose base has to
/// bind more tightly.
pub open spec fn left_of(op: OpView) -> int {
    match op {
        OpView::Add | OpView::Sub => 1,
        OpView::Mul | OpView::Div | OpView::Rem => 2,
        _ => 4,
    }
}

/// How tightly the right operand of an operation has to bind to need no
/// parentheses: more tightly than the operation, but for a power.
pub open spec fn right_of(op: OpView) -> int {
    match op {
        OpView::Add | OpView::Sub => 2,
        OpView::Mul | OpView::Div | OpView::Rem => 3,
        _ => 3,
    }
}

/// The symbol of an operation.
pub open spec fn sign_of(op: OpView) -> Seq<u8> {
    match op {
        OpView::Add => seq!['+' as u8],
        OpView::Sub => seq!['-' as u8],
        OpView::Mul => seq!['*' as u8],
        OpView::Div => seq!['/' as u8],
        OpView::Rem => seq!['%' as u8],
        _ => seq!['*' as u8, '*' as u8],
    }
}

/// An expression as it is written where at least `min` tightness is needed, with
/// `gap` behind every symbol and every number: in parentheses only if it binds
/// less tightly.
pub open spec fn spelt(t: Expr, min: int, gap: Seq<u8>) -> Seq<u8>
    decreases t, 1int,
{
    if tightness(t) < min {
        seq!['(' as u8] + gap + bare(t, gap) + seq![')' as u8] + gap
    } else {
        bare(t, gap)
    }
}

/// An expression as it is written without parentheses around it.
pub open spec fn bare(t: Expr, gap: Seq<u8>) -> Seq<u8>
    decreases t, 0int,
{
    match t {
        Expr::Number(b) => b + gap,
        Expr::Plus(a) => seq!['+' as u8] + gap + spelt(*a, 5, gap),
        Expr::Minus(a) => seq!['-' as u8] + gap + spelt(*a, 5, gap),
        Expr::Binary(op, a, b) => spelt(*a, left_of(op), gap) + (sign_of(op) + gap) + spelt(
            *b,
            right_of(op),
            gap,
        ),
    }
}

/// Nothing but blanks and tabs.
pub open spec fn blanks(gap: Seq<u8>) -> bool {
    forall|i: int| 0 <= i < gap.len() ==> #[trigger] gap[i] == 32 || gap[i] == 9
}

// ── Proof ────────────────────────────────────────────────────────────────────

/// `x` stands in `s` at `pos`.
spec fn stands(s: Seq<u8>, pos: int, x: Seq<u8>) -> bool {
    0 <= pos && pos + x.len() <= s.len() && s.subrange(pos, pos + x.len()) == x
}

proof fn lemma_stands_parts(s: Seq<u8>, pos: int, x: Seq<u8>, y: Seq<u8>)
    requires
        stands(s, pos, x + y),
    ensures
        stands(s, pos, x),
        stands(s, pos + x.len(), y),
{
    let all = s.subrange(pos, pos + x.len() + y.len());
    assert(all == x + y);
    assert forall|i: int| 0 <= i < x.len() implies s[pos + i] == x[i] by {
        assert(all[i] == (x + y)[i]);
    }
    assert forall|i: int| 0 <= i < y.len() implies s[pos + x.len() + i] == y[i] by {
        assert(all[x.len() + i] == (x + y)[x.len() + i]);
    }
    assert(s.subrange(pos, pos + x.len()) =~= x);
    assert(s.subrange(pos + x.len(), pos + x.len() + y.len()) =~= y);
}

proof fn lemma_stands_at(s: Seq<u8>, pos: int, x: Seq<u8>, i: int)
    requires
        stands(s, pos, x),
        0 <= i < x.len(),
    ensures
        s[pos + i] == x[i],
{
    assert(s.subrange(pos, pos + x.len())[i] == s[pos + i]);
}

proof fn lemma_past_gap(s: Seq<u8>, pos: int, gap: Seq<u8>)
    requires
        blanks(gap),
        stands(s, pos, gap),
    ensures
        past_blanks(s, pos) == past_blanks(s, pos + gap.len()),
    decreases gap.len(),
{
    if gap.len() > 0 {
        lemma_stands_at(s, pos, gap, 0);
        assert(gap[0] == 32 || gap[0] == 9);
        let d = gap.drop_first();
        assert(gap =~= seq![gap[0]] + d);
        lemma_stands_parts(s, pos, seq![gap[0]], d);
        assert forall|i: int| 0 <= i < d.len() implies #[trigger] d[i] == 32 || d[i] == 9 by {
            assert(gap[i + 1] == 32 || gap[i + 1] == 9);
        }
        lemma_past_gap(s, pos + 1, d);
    }
}

/// What is read does not depend on blanks before it.
proof fn lemma_shift(s: Seq<u8>, pos: int, gap: Seq<u8>)
    requires
        blanks(gap),
        stands(s, pos, gap),
    ensures
        atom(s, pos) == atom(s, pos + gap.len()),
        unary(s, pos) == unary(s, pos + gap.len()),
        power(s, pos) == power(s, pos + gap.len()),
        product(s, pos) == product(s, pos + gap.len()),
        sum(s, pos) == sum(s, pos + gap.len()),
{
    let q = pos + gap.len();
    lemma_past_gap(s, pos, gap);
    lemma_past(s, pos);
    lemma_past(s, q);
    lemma_reads(s, pos);
    lemma_reads(s, q);
    let p = past_blanks(s, pos);
    lemma_solid(s, pos);
    lemma_solid(s, q);
    assert(atom(s, pos) == atom(s, q));
    assert(atom(s, pos) == atom(s, p));
    assert(unary(s, pos) == unary(s, q));
    assert(power(s, pos) == power(s, q));
    assert(product(s, pos) == product(s, q));
}

proof fn lemma_solid(s: Seq<u8>, pos: int)
    requires
        0 <= pos <= s.len(),
    ensures
        past_blanks(s, past_blanks(s, pos)) == past_blanks(s, pos),
    decreases s.len() - pos,
{
    if pos < s.len() {
        lemma_solid(s, pos + 1);
    }
}

/// Behind position `e` nothing stands that would go on with what binds at least as
/// tightly as `m`.
spec fn ends(s: Seq<u8>, e: int, m: int) -> bool {
    &&& 0 <= e <= s.len()
    &&& e < s.len() ==> {
        &&& !numeric(s[e])
        &&& s[e] != 32
        &&& s[e] != 9
        &&& m <= 3 ==> !holds_power(s, e)
        &&& m <= 1 ==> s[e] != 42 && s[e] != 47 && s[e] != 37
    }
}

/// What stands at `pos` up to `e`, with a gap of `g` before `e`, was read with
/// these steps at level `m`.
spec fn done(s: Seq<u8>, pos: int, e: int, g: int, ops: Seq<OpView>, m: int) -> bool {
    let tight = Parsed { end: e - g, ops: ops, error: None };
    let loose = Parsed { end: e, ops: ops, error: None };
    if m == 5 {
        atom(s, pos) == tight
    } else if m == 4 {
        unary(s, pos) == tight
    } else if m == 3 {
        power(s, pos) == loose
    } else if m == 2 {
        product(s, pos) == product_rest(s, loose)
    } else {
        sum(s, pos) == sum_rest(s, loose)
    }
}

#[verifier::rlimit(40)]
proof fn lemma_lift(
    s: Seq<u8>,
    pos: int,
    e: int,
    gap: Seq<u8>,
    ops: Seq<OpView>,
    high: int,
    low: int,
)
    requires
        1 <= low <= high <= 5,
        0 <= pos < e - gap.len(),
        blanks(gap),
        stands(s, e - gap.len(), gap),
        ends(s, e, low),
        s[pos] != 32,
        s[pos] != 9,
        high == 5 ==> s[pos] != 43 && s[pos] != 45,
        done(s, pos, e, gap.len() as int, ops, high),
    ensures
        done(s, pos, e, gap.len() as int, ops, low),
    decreases high,
{
    let g = gap.len() as int;
    let loose = Parsed { end: e, ops: ops, error: None };
    if low < high {
        assert(past_blanks(s, pos) == pos);
        lemma_past_gap(s, e - g, gap);
        assert(past_blanks(s, e) == e);
        if high == 5 {
            assert(unary(s, pos) == atom(s, pos));
            lemma_lift(s, pos, e, gap, ops, 4, low);
        } else if high == 4 {
            assert(power(s, pos) == loose);
            lemma_lift(s, pos, e, gap, ops, 3, low);
        } else if high == 3 {
            assert(product(s, pos) == product_rest(s, loose));
            lemma_lift(s, pos, e, gap, ops, 2, low);
        } else {
            lemma_lone(s, e, ops);
            assert(product(s, pos) == loose);
            assert(sum(s, pos) == sum_rest(s, loose));
        }
    }
}

/// A product behind which nothing goes on with it ends there.
proof fn lemma_lone(s: Seq<u8>, e: int, ops: Seq<OpView>)
    requires
        ends(s, e, 1),
    ensures
        product_rest(s, (Parsed { end: e, ops: ops, error: None })) == (Parsed {
            end: e,
            ops: ops,
            error: None,
        }),
{
    assert(past_blanks(s, e) == e);
}

proof fn lemma_first(t: Expr, min: int, gap: Seq<u8>)
    requires
        sound_expr(t),
    ensures
        ({
            let x = spelt(t, min, gap);
            &&& x.len() > gap.len()
            &&& x[0] == 40 || x[0] == 43 || x[0] == 45 || numeric(x[0])
            &&& min >= 5 ==> x[0] == 40 || numeric(x[0])
            &&& x.skip(x.len() - gap.len()) == gap
        }),
        ({
            let x = bare(t, gap);
            &&& x.len() > gap.len()
            &&& x[0] == 40 || x[0] == 43 || x[0] == 45 || numeric(x[0])
            &&& x.skip(x.len() - gap.len()) == gap
        }),
    decreases t,
{
    match t {
        Expr::Number(b) => {
            let c = byte_chars(b);
            let i = choose|i: int| 0 <= i < c.len() && is_digit(#[trigger] c[i]);
            assert(b.len() > 0);
            assert(numeric(b[0]));
        },
        Expr::Plus(a) => {
            lemma_first(*a, 5, gap);
        },
        Expr::Minus(a) => {
            lemma_first(*a, 5, gap);
        },
        Expr::Binary(op, a, b) => {
            lemma_first(*a, left_of(op), gap);
            lemma_first(*b, right_of(op), gap);
        },
    }
    let y = bare(t, gap);
    assert(y.skip(y.len() - gap.len()) =~= gap) by {
        match t {
            Expr::Number(b) => {},
            Expr::Plus(a) => {
                let z = spelt(*a, 5, gap);
                assert(y.skip(y.len() - gap.len()) =~= z.skip(z.len() - gap.len()));
            },
            Expr::Minus(a) => {
                let z = spelt(*a, 5, gap);
                assert(y.skip(y.len() - gap.len()) =~= z.skip(z.len() - gap.len()));
            },
            Expr::Binary(op, a, b) => {
                let z = spelt(*b, right_of(op), gap);
                assert(y.skip(y.len() - gap.len()) =~= z.skip(z.len() - gap.len()));
            },
        }
    }
    let x = spelt(t, min, gap);
    assert(x.skip(x.len() - gap.len()) =~= gap);
}

proof fn lemma_trailing(s: Seq<u8>, pos: int, x: Seq<u8>, gap: Seq<u8>)
    requires
        stands(s, pos, x),
        x.len() >= gap.len(),
        x.skip(x.len() - gap.len()) == gap,
    ensures
        stands(s, pos + x.len() - gap.len(), gap),
{
    let k = x.len() - gap.len();
    assert(x =~= x.take(k) + gap);
    lemma_stands_parts(s, pos, x.take(k), gap);
}

proof fn lemma_digits(s: Seq<u8>, pos: int, end: int)
    requires
        0 <= pos <= end <= s.len(),
        forall|i: int| pos <= i < end ==> numeric(#[trigger] s[i]),
        end < s.len() ==> !numeric(s[end]),
    ensures
        past_digits(s, pos) == end,
    decreases end - pos,
{
    if pos < end {
        assert(numeric(s[pos]));
        lemma_digits(s, pos + 1, end);
    }
}

#[verifier::rlimit(40)]
proof fn lemma_spelt(s: Seq<u8>, pos: int, t: Expr, min: int, gap: Seq<u8>)
    requires
        sound_expr(t),
        blanks(gap),
        1 <= min <= 5,
        stands(s, pos, spelt(t, min, gap)),
        ends(s, pos + spelt(t, min, gap).len(), min),
    ensures
        done(s, pos, pos + spelt(t, min, gap).len(), gap.len() as int, meaning(t), min),
    decreases t, 2int,
{
    let x = spelt(t, min, gap);
    let e = pos + x.len();
    let g = gap.len() as int;
    lemma_first(t, min, gap);
    lemma_stands_at(s, pos, x, 0);
    lemma_trailing(s, pos, x, gap);
    if tightness(t) < min {
        let y = bare(t, gap);
        assert(x =~= seq![40u8] + (gap + (y + (seq![41u8] + gap))));
        lemma_stands_parts(s, pos, seq![40u8], gap + (y + (seq![41u8] + gap)));
        lemma_stands_parts(s, pos + 1, gap, y + (seq![41u8] + gap));
        lemma_stands_parts(s, pos + 1 + g, y, seq![41u8] + gap);
        let q = pos + 1 + g;
        let f = q + y.len();
        lemma_stands_parts(s, f, seq![41u8], gap);
        lemma_stands_at(s, f, seq![41u8], 0);
        assert(s[f] == 41);
        assert(ends(s, f, 1));
        lemma_bare(s, q, t, gap);
        lemma_stands_at(s, q, y, 0);
        lemma_trailing(s, q, y, gap);
        lemma_lift(s, q, f, gap, meaning(t), tightness(t), 1);
        lemma_shift(s, pos + 1, gap);
        let inner = Parsed { end: f, ops: meaning(t), error: None };
        assert(past_blanks(s, f) == f);
        assert(sum_rest(s, inner) == inner);
        assert(sum(s, pos + 1) == inner);
        assert(past_blanks(s, pos) == pos);
        assert(atom(s, pos) == (Parsed { end: f + 1, ops: meaning(t), error: None }));
        assert(f + 1 == e - g);
        lemma_lift(s, pos, e, gap, meaning(t), 5, min);
    } else {
        assert(ends(s, e, tightness(t)));
        lemma_bare(s, pos, t, gap);
        lemma_lift(s, pos, e, gap, meaning(t), tightness(t), min);
    }
}

#[verifier::rlimit(40)]
proof fn lemma_number(s: Seq<u8>, pos: int, b: Seq<u8>, gap: Seq<u8>)
    requires
        sound_expr(Expr::Number(b)),
        blanks(gap),
        stands(s, pos, b + gap),
        ends(s, pos + b.len() + gap.len(), 5),
    ensures
        atom(s, pos) == (Parsed {
            end: pos + b.len(),
            ops: seq![OpView::Number(byte_chars(b))],
            error: None,
        }),
{
    let g = gap.len() as int;
    lemma_stands_parts(s, pos, b, gap);
    let f = pos + b.len();
    assert forall|i: int| pos <= i < f implies numeric(#[trigger] s[i]) by {
        lemma_stands_at(s, pos, b, i - pos);
        assert(numeric(b[i - pos]));
    }
    if g > 0 {
        lemma_stands_at(s, f, gap, 0);
        assert(gap[0] == 32 || gap[0] == 9);
    }
    lemma_digits(s, pos, f);
    assert(s.subrange(pos, f) =~= b);
    let c = byte_chars(b);
    let i = choose|i: int| 0 <= i < c.len() && is_digit(#[trigger] c[i]);
    assert(b.len() > 0);
    assert(numeric(b[0]));
    assert(s[pos] == b[0]);
    assert(!holds(s, pos, 40));
}

#[verifier::rlimit(40)]
proof fn lemma_binary(s: Seq<u8>, pos: int, t: Expr, gap: Seq<u8>)
    requires
        t is Binary,
        sound_expr(t),
        blanks(gap),
        stands(s, pos, bare(t, gap)),
        ends(s, pos + bare(t, gap).len(), tightness(t)),
    ensures
        done(s, pos, pos + bare(t, gap).len(), gap.len() as int, meaning(t), tightness(t)),
    decreases t, 0int,
{
    let x = bare(t, gap);
    let e = pos + x.len();
    let g = gap.len() as int;
    let op = t->Binary_0;
    let a = *t->Binary_1;
    let b = *t->Binary_2;
    let l = spelt(a, left_of(op), gap);
    let m = sign_of(op);
    let r = spelt(b, right_of(op), gap);
    let mid = pos + l.len();
    let next = mid + m.len() + g;
    assert(x =~= l + (m + (gap + r)));
    lemma_stands_parts(s, pos, l, m + (gap + r));
    lemma_stands_parts(s, mid, m, gap + r);
    lemma_stands_parts(s, mid + m.len(), gap, r);
    lemma_first(a, left_of(op), gap);
    lemma_first(b, right_of(op), gap);
    lemma_trailing(s, pos, l, gap);
    lemma_stands_at(s, mid, m, 0);
    lemma_stands_at(s, next, r, 0);
    if g > 0 {
        lemma_stands_at(s, mid + m.len(), gap, 0);
        assert(gap[0] == 32 || gap[0] == 9);
    }
    assert(op is Pow || s[mid + 1] != 42);
    assert(ends(s, mid, left_of(op)));
    lemma_spelt(s, pos, a, left_of(op), gap);
    assert(ends(s, e, right_of(op)));
    lemma_spelt(s, next, b, right_of(op), gap);
    lemma_operation(s, pos, mid, next, e, op, meaning(a), meaning(b), gap);
}

#[verifier::rlimit(40)]
proof fn lemma_bare(s: Seq<u8>, pos: int, t: Expr, gap: Seq<u8>)
    requires
        sound_expr(t),
        blanks(gap),
        stands(s, pos, bare(t, gap)),
        ends(s, pos + bare(t, gap).len(), tightness(t)),
    ensures
        done(s, pos, pos + bare(t, gap).len(), gap.len() as int, meaning(t), tightness(t)),
    decreases t, 1int,
{
    let x = bare(t, gap);
    let e = pos + x.len();
    let g = gap.len() as int;
    lemma_first(t, 1, gap);
    lemma_stands_at(s, pos, x, 0);
    assert(past_blanks(s, pos) == pos);
    match t {
        Expr::Number(b) => {
            lemma_number(s, pos, b, gap);
        },
        Expr::Plus(a) => {
            lemma_sign(s, pos, 43, *a, gap);
        },
        Expr::Minus(a) => {
            lemma_sign(s, pos, 45, *a, gap);
        },
        Expr::Binary(op, a, b) => {
            lemma_binary(s, pos, t, gap);
        },
    }
}

proof fn lemma_sign(s: Seq<u8>, pos: int, sign: u8, a: Expr, gap: Seq<u8>)
    requires
        sound_expr(a),
        blanks(gap),
        stands(s, pos, seq![sign] + gap + spelt(a, 5, gap)),
        ends(s, pos + 1 + gap.len() + spelt(a, 5, gap).len(), 4),
    ensures
        s[pos] == sign,
        atom(s, pos + 1) == (Parsed {
            end: pos + 1 + spelt(a, 5, gap).len(),
            ops: meaning(a),
            error: None,
        }),
    decreases a, 3int,
{
    let y = spelt(a, 5, gap);
    let g = gap.len() as int;
    assert(seq![sign] + gap + y =~= seq![sign] + (gap + y));
    lemma_stands_parts(s, pos, seq![sign], gap + y);
    lemma_stands_parts(s, pos + 1, gap, y);
    lemma_stands_at(s, pos, seq![sign], 0);
    let e = pos + 1 + g + y.len();
    assert(ends(s, e, 5));
    lemma_spelt(s, pos + 1 + g, a, 5, gap);
    lemma_shift(s, pos + 1, gap);
}

#[verifier::rlimit(40)]
proof fn lemma_operation(
    s: Seq<u8>,
    pos: int,
    mid: int,
    next: int,
    e: int,
    op: OpView,
    a: Seq<OpView>,
    b: Seq<OpView>,
    gap: Seq<u8>,
)
    requires
        !(op is Number),
        !(op is Neg),
        blanks(gap),
        0 <= pos < mid - gap.len(),
        stands(s, mid - gap.len(), gap),
        stands(s, mid, sign_of(op)),
        stands(s, mid + sign_of(op).len(), gap),
        next == mid + sign_of(op).len() + gap.len(),
        next < e <= s.len(),
        s[mid + 1] != 42 || op is Pow,
        done(s, pos, mid, gap.len() as int, a, left_of(op)),
        done(s, next, e, gap.len() as int, b, right_of(op)),
        ends(
            s,
            e,
            if op is Add || op is Sub {
                1
            } else {
                2
            },
        ) || (op is Pow && ends(s, e, 3)),
    ensures
        done(
            s,
            pos,
            e,
            gap.len() as int,
            (a + b).push(op),
            if op is Add || op is Sub {
                1
            } else if op is Pow {
                3
            } else {
                2
            },
        ),
{
    let g = gap.len() as int;
    let sym = sign_of(op);
    lemma_stands_at(s, mid, sym, 0);
    assert(past_blanks(s, mid) == mid);
    lemma_shift(s, mid + sym.len(), gap);
    let first = Parsed { end: mid, ops: a, error: None };
    let second = Parsed { end: e, ops: b, error: None };
    let both = Parsed { end: e, ops: (a + b).push(op), error: None };
    if op is Pow {
        lemma_stands_at(s, mid, sym, 1);
        lemma_past_gap(s, mid - g, gap);
        let base = Parsed { end: mid - g, ops: a, error: None };
        assert(unary(s, pos) == base);
        assert(holds_power(s, mid));
        assert(power(s, mid + 2) == second);
        assert(power(s, pos) == both);
    } else if op is Add || op is Sub {
        lemma_lone(s, e, b);
        assert(product(s, mid + 1) == second);
        assert(sum_op(s[mid]) == Some(op));
        assert(followed(first, second, op) == both);
        assert(sum_rest(s, first) == sum_rest(s, both));
    } else {
        assert(power(s, mid + 1) == second);
        assert(product_op(s[mid]) == Some(op));
        assert(followed(first, second, op) == both);
        assert(product_rest(s, first) == product_rest(s, both));
    }
}

/// Precedence, associativity and blanks: however an expression is written, with no
/// more parentheses than it needs and with blanks anywhere between its symbols, it
/// compiles to the steps of what is meant.
#[verifier::rlimit(40)]
pub proof fn operations_bind_as_usual(t: Expr, gap: Seq<u8>)
    requires
        sound_expr(t),
        blanks(gap),
    ensures
        program(gap + spelt(t, 1, gap)).ops == meaning(t),
        program(gap + spelt(t, 1, gap)).error is None,
{
    let x = spelt(t, 1, gap);
    let s = gap + x;
    let g = gap.len() as int;
    let e = s.len() as int;
    assert(s.subrange(0, e) =~= s);
    lemma_stands_parts(s, 0, gap, x);
    lemma_spelt(s, g, t, 1, gap);
    lemma_shift(s, 0, gap);
    let whole = Parsed { end: e, ops: meaning(t), error: None };
    assert(past_blanks(s, e) == e);
    assert(sum_rest(s, whole) == whole);
}

// ── What is refused ──────────────────────────────────────────────────────────

/// `rest` does not go on with an expression: it is empty, or starts with something
/// that is no part of a number, no blank and no symbol.
pub open spec fn breaks_off(rest: Seq<u8>) -> bool {
    rest.len() > 0 ==> {
        &&& !numeric(rest[0])
        &&& rest[0] != 32
        &&& rest[0] != 9
        &&& rest[0] != '(' as u8
        &&& rest[0] != '+' as u8
        &&& rest[0] != '-' as u8
        &&& rest[0] != '*' as u8
        &&& rest[0] != '/' as u8
        &&& rest[0] != '%' as u8
    }
}

/// An expression at `pos` behind which `rest` breaks off.
proof fn lemma_broken(s: Seq<u8>, pos: int, t: Expr, gap: Seq<u8>, rest: Seq<u8>)
    requires
        sound_expr(t),
        blanks(gap),
        breaks_off(rest),
        stands(s, pos, spelt(t, 1, gap) + rest),
        pos + spelt(t, 1, gap).len() + rest.len() == s.len(),
    ensures
        sum(s, pos) == (Parsed {
            end: pos + spelt(t, 1, gap).len(),
            ops: meaning(t),
            error: None,
        }),
        past_blanks(s, pos + spelt(t, 1, gap).len()) == pos + spelt(t, 1, gap).len(),
        rest.len() > 0 ==> s[pos + spelt(t, 1, gap).len()] == rest[0],
{
    let x = spelt(t, 1, gap);
    let e = pos + x.len();
    lemma_stands_parts(s, pos, x, rest);
    if rest.len() > 0 {
        lemma_stands_at(s, e, rest, 0);
    }
    assert(ends(s, e, 1));
    lemma_spelt(s, pos, t, 1, gap);
    let whole = Parsed { end: e, ops: meaning(t), error: None };
    assert(past_blanks(s, e) == e);
    assert(sum_rest(s, whole) == whole);
}

/// What stands behind an expression and does not go on with it is refused, with
/// its first byte and where it stands; the steps of the expression come before.
#[verifier::rlimit(40)]
pub proof fn leftovers_are_refused(t: Expr, gap: Seq<u8>, rest: Seq<u8>)
    requires
        sound_expr(t),
        blanks(gap),
        breaks_off(rest),
        rest.len() > 0,
    ensures
        program(gap + spelt(t, 1, gap) + rest).ops == meaning(t),
        program(gap + spelt(t, 1, gap) + rest).error == Some(
            CalcError::Unexpected {
                byte: rest[0],
                position: (gap + spelt(t, 1, gap)).len() as usize,
            },
        ),
{
    let x = spelt(t, 1, gap);
    let s = gap + x + rest;
    assert(s =~= gap + (x + rest));
    assert(s.subrange(0, s.len() as int) =~= s);
    lemma_stands_parts(s, 0, gap, x + rest);
    lemma_broken(s, gap.len() as int, t, gap, rest);
    lemma_shift(s, 0, gap);
}

/// What five texts one behind the other hold.
proof fn lemma_five(a: Seq<u8>, b: Seq<u8>, c: Seq<u8>, d: Seq<u8>, e: Seq<u8>)
    ensures
        ({
            let s = a + b + c + d + e;
            &&& stands(s, 0, a)
            &&& stands(s, a.len() as int, b)
            &&& stands(s, a.len() + b.len() as int, c)
            &&& stands(s, a.len() + b.len() + c.len() as int, d)
            &&& stands(s, a.len() + b.len() + c.len() as int, d + e)
            &&& s.skip(a.len() + b.len() + c.len() + d.len() as int) == e
            &&& s.len() == a.len() + b.len() + c.len() + d.len() + e.len()
        }),
{
    let s = a + b + c + d + e;
    assert(s =~= a + (b + (c + (d + e))));
    assert(s.subrange(0, s.len() as int) =~= s);
    lemma_stands_parts(s, 0, a, b + (c + (d + e)));
    lemma_stands_parts(s, a.len() as int, b, c + (d + e));
    lemma_stands_parts(s, a.len() + b.len() as int, c, d + e);
    lemma_stands_parts(s, a.len() + b.len() + c.len() as int, d, e);
    assert(s.skip(a.len() + b.len() + c.len() + d.len() as int) =~= e);
}

proof fn lemma_not_closed(s: Seq<u8>, pos: int)
    requires
        0 <= pos < s.len(),
        s[pos] == 40,
        sum(s, pos + 1).error is None,
        past_blanks(s, sum(s, pos + 1).end) == sum(s, pos + 1).end,
        !holds(s, sum(s, pos + 1).end, 41),
    ensures
        sum(s, pos).error == Some(CalcError::MissingParen),
{
    assert(past_blanks(s, pos) == pos);
    assert(holds(s, pos, 40));
    assert(atom(s, pos).error == Some(CalcError::MissingParen));
    assert(unary(s, pos) == atom(s, pos));
    assert(sum(s, pos) == atom(s, pos));
}

/// A parenthesis that is not closed is refused.
#[verifier::rlimit(40)]
pub proof fn open_parentheses_are_refused(t: Expr, gap: Seq<u8>, rest: Seq<u8>)
    requires
        sound_expr(t),
        blanks(gap),
        breaks_off(rest),
        rest.len() > 0 ==> rest[0] != ')' as u8,
    ensures
        program(gap + seq!['(' as u8] + gap + spelt(t, 1, gap) + rest).error == Some(
            CalcError::MissingParen,
        ),
{
    let open = seq!['(' as u8];
    let x = spelt(t, 1, gap);
    let s = gap + open + gap + x + rest;
    let g = gap.len() as int;
    lemma_five(gap, open, gap, x, rest);
    lemma_stands_at(s, g, open, 0);
    lemma_broken(s, g + 1 + g, t, gap, rest);
    lemma_shift(s, g + 1, gap);
    lemma_shift(s, 0, gap);
    lemma_not_closed(s, g);
}

proof fn lemma_nothing(s: Seq<u8>, pos: int)
    requires
        0 <= pos <= s.len(),
        breaks_off(s.skip(pos)),
    ensures
        ({
            let none = Parsed {
                end: pos,
                ops: Seq::empty(),
                error: Some(CalcError::ExpectedNumber { position: pos as usize }),
            };
            sum(s, pos) == none && product(s, pos) == none && power(s, pos) == none
        }),
{
    if pos < s.len() {
        assert(s.skip(pos)[0] == s[pos]);
    }
    assert(past_blanks(s, pos) == pos);
    assert(past_digits(s, pos) == pos);
    assert(unary(s, pos) == atom(s, pos));
}

/// Where nothing stands, a number is missing.
pub proof fn empty_expressions_are_refused(gap: Seq<u8>, rest: Seq<u8>)
    requires
        blanks(gap),
        breaks_off(rest),
    ensures
        program(gap + rest).ops == Seq::<OpView>::empty(),
        program(gap + rest).error == Some(
            CalcError::ExpectedNumber { position: gap.len() as usize },
        ),
{
    let s = gap + rest;
    assert(s.subrange(0, s.len() as int) =~= s);
    lemma_stands_parts(s, 0, gap, rest);
    lemma_shift(s, 0, gap);
    assert(s.skip(gap.len() as int) =~= rest);
    lemma_nothing(s, gap.len() as int);
}

#[verifier::rlimit(40)]
proof fn lemma_lacking(
    s: Seq<u8>,
    pos: int,
    mid: int,
    next: int,
    op: OpView,
    a: Seq<OpView>,
    gap: Seq<u8>,
)
    requires
        !(op is Number),
        !(op is Neg),
        blanks(gap),
        0 <= pos < mid - gap.len(),
        stands(s, mid - gap.len(), gap),
        stands(s, mid, sign_of(op)),
        stands(s, mid + sign_of(op).len(), gap),
        next == mid + sign_of(op).len() + gap.len(),
        next <= s.len(),
        breaks_off(s.skip(next)),
        op is Pow || !holds_power(s, mid),
        done(s, pos, mid, gap.len() as int, a, left_of(op)),
    ensures
        sum(s, pos) == (Parsed {
            end: next,
            ops: a,
            error: Some(CalcError::ExpectedNumber { position: next as usize }),
        }),
{
    let g = gap.len() as int;
    let m = sign_of(op);
    lemma_stands_at(s, mid, m, 0);
    lemma_nothing(s, next);
    lemma_shift(s, mid + m.len(), gap);
    assert(past_blanks(s, mid) == mid);
    let first = Parsed { end: mid, ops: a, error: None };
    let none = Parsed {
        end: next,
        ops: Seq::<OpView>::empty(),
        error: Some(CalcError::ExpectedNumber { position: next as usize }),
    };
    assert(a + Seq::<OpView>::empty() =~= a);
    let both = followed(first, none, op);
    if op is Pow {
        lemma_stands_at(s, mid, m, 1);
        lemma_past_gap(s, mid - g, gap);
        assert(power(s, pos) == both);
        assert(product(s, pos) == both);
    } else if op is Add || op is Sub {
        assert(sum_op(s[mid]) == Some(op));
        assert(sum_rest(s, first) == both);
    } else {
        assert(product_op(s[mid]) == Some(op));
        assert(product_rest(s, first) == both);
        assert(product(s, pos) == both);
    }
    assert(sum(s, pos) == both);
}

#[verifier::rlimit(40)]
proof fn lemma_cut_off(s: Seq<u8>, pos: int, t: Expr, op: OpView, gap: Seq<u8>, rest: Seq<u8>)
    requires
        sound_expr(t),
        !(op is Number),
        !(op is Neg),
        blanks(gap),
        breaks_off(rest),
        stands(s, pos, spelt(t, left_of(op), gap)),
        stands(s, pos + spelt(t, left_of(op), gap).len(), sign_of(op)),
        stands(s, pos + spelt(t, left_of(op), gap).len() + sign_of(op).len(), gap),
        pos + spelt(t, left_of(op), gap).len() + sign_of(op).len() + gap.len() + rest.len()
            == s.len(),
        s.skip(s.len() - rest.len()) == rest,
    ensures
        sum(s, pos) == (Parsed {
            end: s.len() - rest.len(),
            ops: meaning(t),
            error: Some(
                CalcError::ExpectedNumber { position: (s.len() - rest.len()) as usize },
            ),
        }),
{
    let x = spelt(t, left_of(op), gap);
    let m = sign_of(op);
    let mid = pos + x.len();
    let next = mid + m.len() + gap.len();
    lemma_stands_at(s, mid, m, 0);
    if rest.len() > 0 {
        assert(s.skip(next)[0] == s[next]);
    }
    if gap.len() > 0 {
        lemma_stands_at(s, mid + m.len(), gap, 0);
        assert(gap[0] == 32 || gap[0] == 9);
    }
    assert(op is Pow || !holds_power(s, mid));
    assert(ends(s, mid, left_of(op)));
    lemma_first(t, left_of(op), gap);
    lemma_trailing(s, pos, x, gap);
    lemma_spelt(s, pos, t, left_of(op), gap);
    lemma_lacking(s, pos, mid, next, op, meaning(t), gap);
}

/// Behind a symbol between two operands the second one may not be missing.
#[verifier::rlimit(40)]
pub proof fn missing_operands_are_refused(t: Expr, op: OpView, gap: Seq<u8>, rest: Seq<u8>)
    requires
        sound_expr(t),
        !(op is Number),
        !(op is Neg),
        blanks(gap),
        breaks_off(rest),
    ensures
        ({
            let before = gap + spelt(t, left_of(op), gap) + sign_of(op) + gap;
            &&& program(before + rest).ops == meaning(t)
            &&& program(before + rest).error == Some(
                CalcError::ExpectedNumber { position: before.len() as usize },
            )
        }),
{
    let x = spelt(t, left_of(op), gap);
    let m = sign_of(op);
    let g = gap.len() as int;
    let s = gap + x + m + gap + rest;
    lemma_five(gap, x, m, gap, rest);
    lemma_cut_off(s, g, t, op, gap, rest);
    lemma_shift(s, 0, gap);
}

/// Digits and points that make no number are refused.
#[verifier::rlimit(40)]
pub proof fn bad_numbers_are_refused(b: Seq<u8>, gap: Seq<u8>)
    requires
        b.len() > 0,
        forall|i: int| 0 <= i < b.len() ==> numeric(#[trigger] b[i]),
        !is_fraction(byte_chars(b)),
        blanks(gap),
    ensures
        program(gap + b + gap).ops == Seq::<OpView>::empty(),
        program(gap + b + gap).error == Some(CalcError::InvalidNumber),
{
    let s = gap + b + gap;
    let g = gap.len() as int;
    let f = g + b.len();
    assert(s =~= gap + (b + gap));
    assert(s.subrange(0, s.len() as int) =~= s);
    lemma_stands_parts(s, 0, gap, b + gap);
    lemma_stands_parts(s, g, b, gap);
    lemma_shift(s, 0, gap);
    assert forall|i: int| g <= i < f implies numeric(#[trigger] s[i]) by {
        lemma_stands_at(s, g, b, i - g);
        assert(numeric(b[i - g]));
    }
    if g > 0 {
        lemma_stands_at(s, f, gap, 0);
        assert(gap[0] == 32 || gap[0] == 9);
    }
    lemma_digits(s, g, f);
    assert(s.subrange(g, f) =~= b);
    assert(past_blanks(s, g) == g);
    assert(atom(s, g).error == Some(CalcError::InvalidNumber));
    assert(unary(s, g) == atom(s, g));
    assert(sum(s, g) == atom(s, g));
}

/// An error says what is wrong, and where there is a place, counted in bytes, it
/// tells the place in decimal digits.
pub proof fn calculator_errors_are_told(position: usize, byte: u8)
    ensures
        calc_error_text(CalcError::ExpectedNumber { position })
            == "expected number at position "@ + decimal(position as nat),
        calc_error_text(CalcError::Unexpected { byte, position }) == "unexpected character '"@
            + seq![byte as char] + "' at position "@ + decimal(position as nat),
        calc_error_text(CalcError::MissingParen) == "missing closing )"@,
        calc_error_text(CalcError::InvalidNumber) == "invalid float literal"@,
        calc_error_text(CalcError::DivisionByZero) == "division by zero"@,
{
}

} // verus!
