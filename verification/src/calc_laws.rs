//! What holds of every compiled expression.
use vstd::prelude::*;

use crate::calc::{
    atom, byte_chars, followed, holds, holds_power, lemma_past, lemma_reads, number, numeric,
    past_blanks, past_digits, power, product, product_op, product_rest, program, read, sum, sum_op,
    sum_rest, unary, OpView, Parsed,
};
use crate::numbers::{is_digit, is_fraction};

verus! {

// ── Programs run safely ──────────────────────────────────────────────────────

/// How many numbers the stack holds after a step, if it holds `n` before and
/// that is enough.
pub open spec fn after(op: OpView, n: int) -> Option<int> {
    match op {
        OpView::Number(_) => Some(n + 1),
        OpView::Neg => if n >= 1 {
            Some(n)
        } else {
            None
        },
        _ => if n >= 2 {
            Some(n - 1)
        } else {
            None
        },
    }
}

/// How many numbers the stack holds after steps, if it never holds too few.
pub open spec fn depth(ops: Seq<OpView>, n: int) -> Option<int>
    decreases ops.len(),
{
    if ops.len() == 0 {
        Some(n)
    } else {
        match depth(ops.drop_last(), n) {
            Some(m) => after(ops.last(), m),
            None => None,
        }
    }
}

proof fn lemma_depth_add(a: Seq<OpView>, b: Seq<OpView>, n: int)
    ensures
        depth(a + b, n) == match depth(a, n) {
            Some(m) => depth(b, m),
            None => None,
        },
    decreases b.len(),
{
    if b.len() == 0 {
        assert(a + b =~= a);
    } else {
        lemma_depth_add(a, b.drop_last(), n);
        assert((a + b).drop_last() =~= a + b.drop_last());
        assert((a + b).last() == b.last());
    }
}

/// A part that is read puts one number on the stack; one that is not never takes
/// more than there are.
pub open spec fn runs_safely(p: Parsed, n: int) -> bool {
    if p.error is None {
        depth(p.ops, n) == Some(n + 1)
    } else {
        depth(p.ops, n) matches Some(m) && m >= n
    }
}

proof fn lemma_followed(first: Parsed, second: Parsed, op: OpView, n: int)
    requires
        n >= 0,
        first.error is None,
        runs_safely(first, n),
        runs_safely(second, n + 1),
        after(op, n + 2) == Some(n + 1),
    ensures
        runs_safely(followed(first, second, op), n),
{
    lemma_depth_add(first.ops, second.ops, n);
    let both = (first.ops + second.ops).push(op);
    assert(both.drop_last() =~= first.ops + second.ops);
}

proof fn lemma_number_safe(s: Seq<u8>, pos: int, n: int)
    requires
        n >= 0,
    ensures
        runs_safely(number(s, pos), n),
{
    let p = number(s, pos);
    reveal_with_fuel(depth, 2);
    if p.error is None {
        assert(p.ops.drop_last() =~= Seq::<OpView>::empty());
    }
}

proof fn lemma_safe(s: Seq<u8>, pos: int, n: int)
    requires
        0 <= pos <= s.len(),
        n >= 0,
    ensures
        runs_safely(atom(s, pos), n),
        runs_safely(unary(s, pos), n),
        runs_safely(power(s, pos), n),
        runs_safely(product(s, pos), n),
        runs_safely(sum(s, pos), n),
    decreases s.len() - pos,
{
    let p = past_blanks(s, pos);
    lemma_past(s, pos);
    lemma_reads(s, pos);
    lemma_number_safe(s, p, n);
    if p < s.len() {
        lemma_safe(s, p + 1, n);
        lemma_reads(s, p + 1);
    }
    assert(runs_safely(atom(s, pos), n));
    assert(runs_safely(unary(s, pos), n)) by {
        if holds(s, p, 45) {
            let a = atom(s, p + 1);
            if a.error is None {
                assert(a.ops.push(OpView::Neg).drop_last() =~= a.ops);
            }
        } else if !holds(s, p, 43) {
            if pos < p {
                lemma_safe(s, p, n);
            }
        }
    }
    let base = unary(s, pos);
    assert(runs_safely(power(s, pos), n)) by {
        if base.error is None {
            lemma_past(s, base.end);
            let q = past_blanks(s, base.end);
            if holds_power(s, q) {
                lemma_safe(s, q + 2, n + 1);
                lemma_followed(base, power(s, q + 2), OpView::Pow, n);
            }
        }
    }
    let left = power(s, pos);
    if left.error is None {
        lemma_product_rest_safe(s, left, pos, n);
    }
    let first = product(s, pos);
    if first.error is None {
        lemma_sum_rest_safe(s, first, pos, n);
    }
}

proof fn lemma_product_rest_safe(s: Seq<u8>, left: Parsed, pos: int, n: int)
    requires
        0 <= pos,
        n >= 0,
        read(s, left, pos),
        runs_safely(left, n),
    ensures
        runs_safely(product_rest(s, left), n),
    decreases s.len() - left.end,
{
    lemma_past(s, left.end);
    let p = past_blanks(s, left.end);
    if p < s.len() && !holds_power(s, p) && product_op(s[p]) is Some {
        let right = power(s, p + 1);
        let both = followed(left, right, product_op(s[p]).unwrap());
        lemma_reads(s, p + 1);
        lemma_safe(s, p + 1, n + 1);
        lemma_followed(left, right, product_op(s[p]).unwrap(), n);
        if right.error is None {
            lemma_product_rest_safe(s, both, pos, n);
        }
    }
}

proof fn lemma_sum_rest_safe(s: Seq<u8>, left: Parsed, pos: int, n: int)
    requires
        0 <= pos,
        n >= 0,
        read(s, left, pos),
        runs_safely(left, n),
    ensures
        runs_safely(sum_rest(s, left), n),
    decreases s.len() - left.end,
{
    lemma_past(s, left.end);
    let p = past_blanks(s, left.end);
    if p < s.len() && sum_op(s[p]) is Some {
        let right = product(s, p + 1);
        let both = followed(left, right, sum_op(s[p]).unwrap());
        lemma_reads(s, p + 1);
        lemma_safe(s, p + 1, n + 1);
        lemma_followed(left, right, sum_op(s[p]).unwrap(), n);
        if right.error is None {
            lemma_sum_rest_safe(s, both, pos, n);
        }
    }
}

/// No step of a program ever lacks a number, and a program without an error
/// leaves exactly one.
pub proof fn programs_run_safely(s: Seq<u8>)
    ensures
        depth(program(s).ops, 0) is Some,
        program(s).error is None ==> depth(program(s).ops, 0) == Some(1int),
{
    lemma_safe(s, 0, 0);
}

/// Every number of a program reads as a decimal fraction.
pub open spec fn numbers_read(ops: Seq<OpView>) -> bool {
    forall|i: int|
        0 <= i < ops.len() ==> match #[trigger] ops[i] {
            OpView::Number(t) => is_fraction(t),
            _ => true,
        }
}

proof fn lemma_numbers_add(a: Seq<OpView>, b: Seq<OpView>)
    requires
        numbers_read(a),
        numbers_read(b),
    ensures
        numbers_read(a + b),
{
    assert forall|i: int| 0 <= i < (a + b).len() implies match #[trigger] (a + b)[i] {
        OpView::Number(t) => is_fraction(t),
        _ => true,
    } by {
        if i < a.len() {
            assert((a + b)[i] == a[i]);
        } else {
            assert((a + b)[i] == b[i - a.len()]);
        }
    }
}

proof fn lemma_numbers_followed(first: Parsed, second: Parsed, op: OpView)
    requires
        numbers_read(first.ops),
        numbers_read(second.ops),
        !(op is Number),
    ensures
        numbers_read(followed(first, second, op).ops),
{
    lemma_numbers_add(first.ops, second.ops);
}

proof fn lemma_numbers(s: Seq<u8>, pos: int)
    requires
        0 <= pos <= s.len(),
    ensures
        numbers_read(atom(s, pos).ops),
        numbers_read(unary(s, pos).ops),
        numbers_read(power(s, pos).ops),
        numbers_read(product(s, pos).ops),
        numbers_read(sum(s, pos).ops),
    decreases s.len() - pos,
{
    let p = past_blanks(s, pos);
    lemma_past(s, pos);
    lemma_reads(s, pos);
    if p < s.len() {
        lemma_numbers(s, p + 1);
        lemma_reads(s, p + 1);
    }
    assert(numbers_read(number(s, p).ops));
    assert(numbers_read(atom(s, pos).ops));
    assert(numbers_read(unary(s, pos).ops)) by {
        if !holds(s, p, 45) && !holds(s, p, 43) && pos < p {
            lemma_numbers(s, p);
        }
    }
    let base = unary(s, pos);
    assert(numbers_read(power(s, pos).ops)) by {
        if base.error is None {
            lemma_past(s, base.end);
            let q = past_blanks(s, base.end);
            if holds_power(s, q) {
                lemma_numbers(s, q + 2);
                lemma_numbers_followed(base, power(s, q + 2), OpView::Pow);
            }
        }
    }
    let left = power(s, pos);
    if left.error is None {
        lemma_product_rest_numbers(s, left, pos);
    }
    let first = product(s, pos);
    if first.error is None {
        lemma_sum_rest_numbers(s, first, pos);
    }
}

proof fn lemma_product_rest_numbers(s: Seq<u8>, left: Parsed, pos: int)
    requires
        0 <= pos,
        read(s, left, pos),
        numbers_read(left.ops),
    ensures
        numbers_read(product_rest(s, left).ops),
    decreases s.len() - left.end,
{
    lemma_past(s, left.end);
    let p = past_blanks(s, left.end);
    if p < s.len() && !holds_power(s, p) && product_op(s[p]) is Some {
        let right = power(s, p + 1);
        let both = followed(left, right, product_op(s[p]).unwrap());
        lemma_reads(s, p + 1);
        lemma_numbers(s, p + 1);
        lemma_numbers_followed(left, right, product_op(s[p]).unwrap());
        if right.error is None {
            lemma_product_rest_numbers(s, both, pos);
        }
    }
}

proof fn lemma_sum_rest_numbers(s: Seq<u8>, left: Parsed, pos: int)
    requires
        0 <= pos,
        read(s, left, pos),
        numbers_read(left.ops),
    ensures
        numbers_read(sum_rest(s, left).ops),
    decreases s.len() - left.end,
{
    lemma_past(s, left.end);
    let p = past_blanks(s, left.end);
    if p < s.len() && sum_op(s[p]) is Some {
        let right = product(s, p + 1);
        let both = followed(left, right, sum_op(s[p]).unwrap());
        lemma_reads(s, p + 1);
        lemma_numbers(s, p + 1);
        lemma_numbers_followed(left, right, sum_op(s[p]).unwrap());
        if right.error is None {
            lemma_sum_rest_numbers(s, both, pos);
        }
    }
}

/// Every number of a program reads as a decimal fraction.
pub proof fn program_numbers_read(s: Seq<u8>)
    ensures
        numbers_read(program(s).ops),
{
    lemma_numbers(s, 0);
}

// ── Programs compute the expression ──────────────────────────────────────────

/// An arithmetic expression.
pub enum Tree {
    Number(Seq<u8>),
    Negative(Box<Tree>),
    Binary(OpView, Box<Tree>, Box<Tree>),
}

/// A symbol between two operands.
pub open spec fn symbol(op: OpView) -> Seq<u8> {
    match op {
        OpView::Add => seq![43u8],
        OpView::Sub => seq![45u8],
        OpView::Mul => seq![42u8],
        OpView::Div => seq![47u8],
        OpView::Rem => seq![37u8],
        _ => seq![42u8, 42u8],
    }
}

/// The tree holds numbers that read as fractions and operations between two
/// operands.
pub open spec fn sound_tree(t: Tree) -> bool
    decreases t,
{
    match t {
        Tree::Number(b) => is_fraction(byte_chars(b)) && forall|i: int|
            0 <= i < b.len() ==> numeric(#[trigger] b[i]),
        Tree::Negative(a) => sound_tree(*a),
        Tree::Binary(op, a, b) => !(op is Number) && !(op is Neg) && sound_tree(*a) && sound_tree(
            *b,
        ),
    }
}

/// The tree written out, with parentheses around everything but numbers.
pub open spec fn written(t: Tree) -> Seq<u8>
    decreases t,
{
    match t {
        Tree::Number(b) => b,
        Tree::Negative(a) => seq![40u8, 45u8] + written(*a) + seq![41u8],
        Tree::Binary(op, a, b) => seq![40u8] + written(*a) + symbol(op) + written(*b) + seq![41u8],
    }
}

/// The steps that compute the tree: first the operands, from left to right, then
/// the operation.
pub open spec fn steps(t: Tree) -> Seq<OpView>
    decreases t,
{
    match t {
        Tree::Number(b) => seq![OpView::Number(byte_chars(b))],
        Tree::Negative(a) => steps(*a).push(OpView::Neg),
        Tree::Binary(op, a, b) => (steps(*a) + steps(*b)).push(op),
    }
}

/// `t` stands in `s` at `pos`, and no digit or point follows it.
spec fn stands(s: Seq<u8>, pos: int, t: Tree) -> bool {
    &&& 0 <= pos
    &&& pos + written(t).len() <= s.len()
    &&& s.subrange(pos, pos + written(t).len()) == written(t)
    &&& pos + written(t).len() < s.len() ==> !numeric(s[pos + written(t).len()])
}

proof fn lemma_written(t: Tree)
    requires
        sound_tree(t),
    ensures
        written(t).len() > 0,
        written(t)[0] == 40 || numeric(written(t)[0]),
{
    match t {
        Tree::Number(b) => {
            let c = byte_chars(b);
            let i = choose|i: int| 0 <= i < c.len() && is_digit(#[trigger] c[i]);
            assert(b.len() > 0);
        },
        _ => {},
    }
}

proof fn lemma_number_stands(s: Seq<u8>, pos: int, b: Seq<u8>)
    requires
        sound_tree(Tree::Number(b)),
        stands(s, pos, Tree::Number(b)),
    ensures
        atom(s, pos) == (Parsed {
            end: pos + b.len(),
            ops: steps(Tree::Number(b)),
            error: None,
        }),
{
    let end = pos + b.len();
    lemma_written(Tree::Number(b));
    assert(b.len() > 0);
    assert(s[pos] == b[0]);
    assert(past_blanks(s, pos) == pos);
    assert forall|i: int| pos <= i < end implies numeric(#[trigger] s[i]) by {
        assert(s[i] == s.subrange(pos, end)[i - pos]);
        assert(numeric(b[i - pos]));
    }
    lemma_digits_end(s, pos, end);
    assert(s.subrange(pos, end) =~= b);
}

proof fn lemma_digits_end(s: Seq<u8>, pos: int, end: int)
    requires
        0 <= pos <= end <= s.len(),
        forall|i: int| pos <= i < end ==> numeric(#[trigger] s[i]),
        end < s.len() ==> !numeric(s[end]),
    ensures
        past_digits(s, pos) == end,
    decreases end - pos,
{
    if pos < end {
        assert(numeric(s[pos]));
        lemma_digits_end(s, pos + 1, end);
    }
}

/// The byte at `pos` is no blank.
spec fn solid(s: Seq<u8>, pos: int) -> bool {
    pos < s.len() ==> s[pos] != 32 && s[pos] != 9
}

/// An atom that starts at `pos`, read as a power that consists of it alone.
proof fn lemma_lone_power(s: Seq<u8>, pos: int)
    requires
        0 <= pos < s.len(),
        s[pos] == 40 || numeric(s[pos]),
        read(s, atom(s, pos), pos),
        solid(s, atom(s, pos).end),
        !holds_power(s, atom(s, pos).end),
    ensures
        power(s, pos) == atom(s, pos),
{
    assert(past_blanks(s, pos) == pos);
    assert(unary(s, pos) == atom(s, pos));
    assert(past_blanks(s, atom(s, pos).end) == atom(s, pos).end);
}

/// A power that is not followed by an operation of a product, read as a product.
proof fn lemma_lone_product(s: Seq<u8>, pos: int)
    requires
        0 <= pos,
        read(s, power(s, pos), pos),
        solid(s, power(s, pos).end),
        power(s, pos).end < s.len() ==> product_op(s[power(s, pos).end]) is None,
    ensures
        product(s, pos) == power(s, pos),
{
    let left = power(s, pos);
    assert(past_blanks(s, left.end) == left.end);
    assert(product_rest(s, left) == left);
}

/// A product that is not followed by an operation of a sum, read as a sum.
proof fn lemma_lone_sum(s: Seq<u8>, pos: int)
    requires
        0 <= pos,
        read(s, product(s, pos), pos),
        solid(s, product(s, pos).end),
        product(s, pos).end < s.len() ==> sum_op(s[product(s, pos).end]) is None,
    ensures
        sum(s, pos) == product(s, pos),
{
    let left = product(s, pos);
    assert(past_blanks(s, left.end) == left.end);
    assert(sum_rest(s, left) == left);
}

/// Two operands with a symbol between them, and then a parenthesis, read as a
/// sum.
proof fn lemma_binary(s: Seq<u8>, pos: int, op: OpView, mid: int, end: int)
    requires
        0 <= pos < mid < end < s.len(),
        s[pos] == 40 || numeric(s[pos]),
        !(op is Number),
        !(op is Neg),
        atom(s, pos).error is None,
        atom(s, pos).end == mid,
        mid + symbol(op).len() < end,
        s.subrange(mid, mid + symbol(op).len()) == symbol(op),
        s[mid + symbol(op).len()] == 40 || numeric(s[mid + symbol(op).len()]),
        atom(s, mid + symbol(op).len()).error is None,
        atom(s, mid + symbol(op).len()).end == end,
        s[end] == 41,
    ensures
        sum(s, pos) == followed(atom(s, pos), atom(s, mid + symbol(op).len()), op),
{
    let a = atom(s, pos);
    let next = mid + symbol(op).len();
    let b = atom(s, next);
    let sym = s.subrange(mid, next);
    assert(sym[0] == s[mid]);
    assert(past_blanks(s, mid) == mid);
    assert(past_blanks(s, end) == end);
    assert(past_blanks(s, pos) == pos);
    assert(unary(s, pos) == a);
    lemma_lone_power(s, next);
    if op is Pow {
        assert(sym[1] == s[mid + 1]);
        assert(holds_power(s, mid));
        assert(power(s, pos) == followed(a, b, op));
        lemma_lone_product(s, pos);
        lemma_lone_sum(s, pos);
    } else {
        assert(s[mid + 1] != 42);
        assert(!holds_power(s, mid));
        lemma_lone_power(s, pos);
        if op is Add || op is Sub {
            lemma_lone_product(s, pos);
            lemma_lone_product(s, next);
            let both = followed(a, b, op);
            assert(sum_op(s[mid]) == Some(op));
            assert(sum_rest(s, a) == sum_rest(s, both));
            assert(sum_rest(s, both) == both);
            assert(sum(s, pos) == both);
        } else {
            let both = followed(a, b, op);
            assert(product_op(s[mid]) == Some(op));
            assert(product_rest(s, a) == product_rest(s, both));
            assert(product_rest(s, both) == both);
            assert(product(s, pos) == both);
            lemma_lone_sum(s, pos);
        }
    }
}

/// A sum in parentheses, read as an atom.
proof fn lemma_paren(s: Seq<u8>, pos: int, end: int)
    requires
        0 <= pos < end < s.len(),
        s[pos] == 40,
        sum(s, pos + 1).error is None,
        sum(s, pos + 1).end == end,
        s[end] == 41,
    ensures
        atom(s, pos) == (Parsed { end: end + 1, ..sum(s, pos + 1) }),
{
    assert(past_blanks(s, pos) == pos);
    assert(past_blanks(s, end) == end);
    assert(holds(s, pos, 40));
    assert(holds(s, end, 41));
}

/// What stands in a part of `s` that is put together from parts.
proof fn lemma_part(s: Seq<u8>, pos: int, head: Seq<u8>, part: Seq<u8>, tail: Seq<u8>)
    requires
        0 <= pos,
        pos + head.len() + part.len() + tail.len() <= s.len(),
        s.subrange(pos, pos + head.len() + part.len() + tail.len()) == head + part + tail,
    ensures
        s.subrange(pos + head.len(), pos + head.len() + part.len()) == part,
{
    let whole = head + part + tail;
    let sub = s.subrange(pos, pos + whole.len());
    assert forall|i: int| 0 <= i < part.len() implies s[pos + head.len() + i] == part[i] by {
        assert(sub[head.len() + i] == whole[head.len() + i]);
    }
    assert(s.subrange(pos + head.len(), pos + head.len() + part.len()) =~= part);
}

proof fn lemma_negative(s: Seq<u8>, pos: int)
    requires
        0 <= pos,
        s.len() > pos + 1,
        s[pos] == 45,
        atom(s, pos + 1).error is None,
        pos + 1 < atom(s, pos + 1).end < s.len(),
        s[atom(s, pos + 1).end] == 41,
    ensures
        sum(s, pos) == (Parsed {
            ops: atom(s, pos + 1).ops.push(OpView::Neg),
            ..atom(s, pos + 1)
        }),
{
    let end = atom(s, pos + 1).end;
    assert(past_blanks(s, pos) == pos);
    assert(past_blanks(s, end) == end);
    let u = unary(s, pos);
    assert(holds(s, pos, 45));
    assert(u.end == end);
    assert(power(s, pos) == u);
    lemma_lone_product(s, pos);
    lemma_lone_sum(s, pos);
}

proof fn lemma_stands(s: Seq<u8>, pos: int, t: Tree)
    requires
        sound_tree(t),
        stands(s, pos, t),
    ensures
        atom(s, pos) == (Parsed { end: pos + written(t).len(), ops: steps(t), error: None }),
    decreases t,
{
    match t {
        Tree::Number(b) => {
            lemma_number_stands(s, pos, b);
        },
        Tree::Negative(a) => {
            let open = seq![40u8, 45u8];
            let close = seq![41u8];
            let wa = written(*a);
            let e: Seq<u8> = Seq::empty();
            let end = pos + 2 + wa.len();
            assert(written(t) == open + wa + close);
            lemma_written(*a);
            lemma_part(s, pos, open, wa, close);
            assert(e + open + (wa + close) =~= written(t));
            lemma_part(s, pos, e, open, wa + close);
            assert(open + wa + close + e =~= written(t));
            assert((open + wa) + close + e =~= written(t));
            lemma_part(s, pos, open + wa, close, e);
            assert(s[pos] == s.subrange(pos, pos + 2)[0]);
            assert(s[pos + 1] == s.subrange(pos, pos + 2)[1]);
            assert(s[end] == s.subrange(end, end + 1)[0]);
            assert(stands(s, pos + 2, *a));
            lemma_stands(s, pos + 2, *a);
            lemma_negative(s, pos + 1);
            lemma_paren(s, pos, end);
        },
        Tree::Binary(op, a, b) => {
            lemma_binary_stands(s, pos, op, *a, *b);
            let wa = written(*a);
            let wb = written(*b);
            let mid = pos + 1 + wa.len();
            let next = mid + symbol(op).len();
            let end = next + wb.len();
            lemma_stands(s, pos + 1, *a);
            lemma_stands(s, next, *b);
            lemma_binary(s, pos + 1, op, mid, end);
            lemma_paren(s, pos, end);
            assert(written(t).len() == end + 1 - pos);
        },
    }
}

proof fn lemma_binary_stands(s: Seq<u8>, pos: int, op: OpView, a: Tree, b: Tree)
    requires
        sound_tree(a),
        sound_tree(b),
        !(op is Number),
        !(op is Neg),
        stands(s, pos, Tree::Binary(op, Box::new(a), Box::new(b))),
    ensures
        ({
            let mid = pos + 1 + written(a).len();
            let next = mid + symbol(op).len();
            let end = next + written(b).len();
            &&& stands(s, pos + 1, a)
            &&& stands(s, next, b)
            &&& s.subrange(mid, next) == symbol(op)
            &&& pos + 1 < mid < next < end < s.len()
            &&& s[pos] == 40
            &&& s[pos + 1] == 40 || numeric(s[pos + 1])
            &&& s[next] == 40 || numeric(s[next])
            &&& s[end] == 41
        }),
{
    let t = Tree::Binary(op, Box::new(a), Box::new(b));
    let open = seq![40u8];
    let close = seq![41u8];
    let wa = written(a);
    let wb = written(b);
    let sym = symbol(op);
    let e: Seq<u8> = Seq::empty();
    let mid = pos + 1 + wa.len();
    let next = mid + sym.len();
    let end = next + wb.len();
    let w = written(t);
    assert(w == open + wa + sym + wb + close);
    lemma_written(a);
    lemma_written(b);
    assert(w =~= e + open + (wa + sym + wb + close));
    lemma_part(s, pos, e, open, wa + sym + wb + close);
    assert(w =~= open + wa + (sym + wb + close));
    lemma_part(s, pos, open, wa, sym + wb + close);
    assert(w =~= (open + wa) + sym + (wb + close));
    lemma_part(s, pos, open + wa, sym, wb + close);
    assert(w =~= (open + wa + sym) + wb + close);
    lemma_part(s, pos, open + wa + sym, wb, close);
    assert(w =~= (open + wa + sym + wb) + close + e);
    lemma_part(s, pos, open + wa + sym + wb, close, e);
    assert(s[pos] == s.subrange(pos, pos + 1)[0]);
    assert(s[pos + 1] == s.subrange(pos + 1, mid)[0]);
    assert(s[mid] == s.subrange(mid, next)[0]);
    assert(s[next] == s.subrange(next, end)[0]);
    assert(s[end] == s.subrange(end, end + 1)[0]);
    assert(!numeric(s[mid]));
    assert(!numeric(s[end]));
}

/// A written expression compiles to the steps that compute it: operands from left
/// to right, each operation behind its operands, nothing lost and nothing added.
pub proof fn written_expressions_compile(t: Tree)
    requires
        sound_tree(t),
    ensures
        program(written(t)).ops == steps(t),
        program(written(t)).error is None,
{
    let s = written(t);
    lemma_written(t);
    assert(s.subrange(0, s.len() as int) =~= s);
    assert(stands(s, 0, t));
    lemma_stands(s, 0, t);
    lemma_lone_power(s, 0);
    lemma_lone_product(s, 0);
    lemma_lone_sum(s, 0);
}

} // verus!
