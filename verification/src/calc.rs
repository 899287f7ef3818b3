//! The calculator: arithmetic expressions, compiled to a program for a stack of
//! numbers.
//!
//! ```text
//! sum     = product { ("+" | "-") product }
//! product = power { ("*" | "/" | "%") power }
//! power   = unary [ "**" power ]
//! unary   = [ "-" | "+" ] atom
//! atom    = "(" sum ")" | number
//! ```
//!
//! Blanks and tabs may stand before every symbol. The numbers themselves are
//! floating point and are computed by whoever runs the program, in the order in
//! which the expression is read.
use vstd::prelude::*;
use vstd::utf8::encode_utf8;

use crate::numbers::{decimal, is_fraction, push_decimal, reads_as_fraction};
use crate::text::{trim, trimmed};

verus! {

// ── Programs ─────────────────────────────────────────────────────────────────

/// One step of a program.
#[derive(Debug)]
pub enum CalcOp {
    /// Put a number on the stack.
    Number(String),
    /// Negate the number on top.
    Neg,
    /// Combine the two numbers on top, the lower one first.
    Add,
    Sub,
    Mul,
    /// Fails if the upper number is 0.
    Div,
    Rem,
    Pow,
}

/// What a [`CalcOp`] stands for.
#[verifier::ext_equal]
pub enum OpView {
    Number(Seq<char>),
    Neg,
    Add,
    Sub,
    Mul,
    Div,
    Rem,
    Pow,
}

impl DeepView for CalcOp {
    type V = OpView;

    open spec fn deep_view(&self) -> OpView {
        match self {
            CalcOp::Number(t) => OpView::Number(t@),
            CalcOp::Neg => OpView::Neg,
            CalcOp::Add => OpView::Add,
            CalcOp::Sub => OpView::Sub,
            CalcOp::Mul => OpView::Mul,
            CalcOp::Div => OpView::Div,
            CalcOp::Rem => OpView::Rem,
            CalcOp::Pow => OpView::Pow,
        }
    }
}

/// Why an expression has no value.
#[derive(Debug, Clone, Copy, PartialEq, Eq, Structural)]
pub enum CalcError {
    /// No number where one has to stand.
    ExpectedNumber { position: usize },
    /// A parenthesis that is not closed.
    MissingParen,
    /// Digits and points that make no number.
    InvalidNumber,
    /// A division by zero.
    DivisionByZero,
    /// Something behind the expression.
    Unexpected { byte: u8, position: usize },
}

/// What an error says.
pub open spec fn calc_error_text(e: CalcError) -> Seq<char> {
    match e {
        CalcError::ExpectedNumber { position } => "expected number at position "@ + decimal(
            position as nat,
        ),
        CalcError::MissingParen => "missing closing )"@,
        CalcError::InvalidNumber => "invalid float literal"@,
        CalcError::DivisionByZero => "division by zero"@,
        CalcError::Unexpected { byte, position } => "unexpected character '"@ + seq![byte as char]
            + "' at position "@ + decimal(position as nat),
    }
}

impl CalcError {
    /// What the error says.
    pub fn message(&self) -> (r: String)
        ensures
            r@ == calc_error_text(*self),
    {
        match *self {
            CalcError::ExpectedNumber { position } => {
                let mut r = "expected number at position ".to_owned();
                push_decimal(&mut r, position as u64);
                r
            },
            CalcError::MissingParen => "missing closing )".to_owned(),
            CalcError::InvalidNumber => "invalid float literal".to_owned(),
            CalcError::DivisionByZero => "division by zero".to_owned(),
            CalcError::Unexpected { byte, position } => {
                let mut r = "unexpected character '".to_owned();
                r.push(byte as char);
                r.push_str("' at position ");
                push_decimal(&mut r, position as u64);
                proof {
                    assert(r@ =~= calc_error_text(*self));
                }
                r
            },
        }
    }
}

/// What became of a part of an expression: the steps up to its end, or up to
/// where reading it failed.
#[verifier::ext_equal]
pub struct Parsed {
    /// Where the part ends.
    pub end: int,
    pub ops: Seq<OpView>,
    pub error: Option<CalcError>,
}

// ── The grammar ──────────────────────────────────────────────────────────────

/// The first position from `pos` on that holds no blank or tab.
pub open spec fn past_blanks(s: Seq<u8>, pos: int) -> int
    decreases s.len() - pos,
{
    if 0 <= pos < s.len() && (s[pos] == 32 || s[pos] == 9) {
        past_blanks(s, pos + 1)
    } else {
        pos
    }
}

/// A byte that can stand in a number.
pub open spec fn numeric(b: u8) -> bool {
    48 <= b <= 57 || b == 46
}

/// The first position from `pos` on that holds no digit or point.
pub open spec fn past_digits(s: Seq<u8>, pos: int) -> int
    decreases s.len() - pos,
{
    if 0 <= pos < s.len() && numeric(s[pos]) {
        past_digits(s, pos + 1)
    } else {
        pos
    }
}

/// Skipping goes forward and stays within.
pub proof fn lemma_past(s: Seq<u8>, pos: int)
    requires
        0 <= pos <= s.len(),
    ensures
        pos <= past_blanks(s, pos) <= s.len(),
        pos <= past_digits(s, pos) <= s.len(),
        forall|i: int| pos <= i < past_digits(s, pos) ==> numeric(#[trigger] s[i]),
    decreases s.len() - pos,
{
    if pos < s.len() {
        lemma_past(s, pos + 1);
    }
}

/// The characters of bytes.
pub open spec fn byte_chars(s: Seq<u8>) -> Seq<char> {
    s.map_values(|b: u8| b as char)
}

/// `pos` holds byte `b`.
pub open spec fn holds(s: Seq<u8>, pos: int, b: u8) -> bool {
    0 <= pos < s.len() && s[pos] == b
}

/// Two asterisks stand at `pos`.
pub open spec fn holds_power(s: Seq<u8>, pos: int) -> bool {
    holds(s, pos, 42) && holds(s, pos + 1, 42)
}

/// The number at `pos`.
pub open spec fn number(s: Seq<u8>, pos: int) -> Parsed {
    let end = past_digits(s, pos);
    let text = byte_chars(s.subrange(pos, end));
    if end == pos {
        Parsed {
            end: pos,
            ops: Seq::empty(),
            error: Some(CalcError::ExpectedNumber { position: pos as usize }),
        }
    } else if is_fraction(text) {
        Parsed { end: end, ops: seq![OpView::Number(text)], error: None }
    } else {
        Parsed { end: end, ops: Seq::empty(), error: Some(CalcError::InvalidNumber) }
    }
}

/// The part was read, and took at least one byte.
pub open spec fn read(s: Seq<u8>, p: Parsed, pos: int) -> bool {
    p.error is None && pos < p.end <= s.len()
}

/// A part behind which another part and then a step follow.
pub open spec fn followed(first: Parsed, second: Parsed, op: OpView) -> Parsed {
    Parsed {
        end: second.end,
        ops: if second.error is None {
            (first.ops + second.ops).push(op)
        } else {
            first.ops + second.ops
        },
        error: second.error,
    }
}

/// The step that a symbol of a sum stands for.
pub open spec fn sum_op(b: u8) -> Option<OpView> {
    if b == 43 {
        Some(OpView::Add)
    } else if b == 45 {
        Some(OpView::Sub)
    } else {
        None
    }
}

/// The step that a symbol of a product stands for.
pub open spec fn product_op(b: u8) -> Option<OpView> {
    if b == 42 {
        Some(OpView::Mul)
    } else if b == 47 {
        Some(OpView::Div)
    } else if b == 37 {
        Some(OpView::Rem)
    } else {
        None
    }
}

/// The sum at `pos`.
pub open spec fn sum(s: Seq<u8>, pos: int) -> Parsed
    decreases s.len() - pos, 6int,
{
    let left = product(s, pos);
    if read(s, left, pos) {
        sum_rest(s, left)
    } else {
        left
    }
}

/// A sum that starts with `left`.
pub open spec fn sum_rest(s: Seq<u8>, left: Parsed) -> Parsed
    decreases s.len() - left.end, 7int,
{
    proof {
        if 0 <= left.end <= s.len() {
            lemma_past(s, left.end);
        }
    }
    let p = past_blanks(s, left.end);
    if 0 <= p < s.len() && sum_op(s[p]) is Some {
        let right = product(s, p + 1);
        let both = followed(left, right, sum_op(s[p]).unwrap());
        if read(s, right, p + 1) {
            sum_rest(s, both)
        } else {
            both
        }
    } else {
        Parsed { end: p, ..left }
    }
}

/// The product at `pos`.
pub open spec fn product(s: Seq<u8>, pos: int) -> Parsed
    decreases s.len() - pos, 4int,
{
    let left = power(s, pos);
    if read(s, left, pos) {
        product_rest(s, left)
    } else {
        left
    }
}

/// A product that starts with `left`.
pub open spec fn product_rest(s: Seq<u8>, left: Parsed) -> Parsed
    decreases s.len() - left.end, 5int,
{
    proof {
        if 0 <= left.end <= s.len() {
            lemma_past(s, left.end);
        }
    }
    let p = past_blanks(s, left.end);
    if 0 <= p < s.len() && !holds_power(s, p) && product_op(s[p]) is Some {
        let right = power(s, p + 1);
        let both = followed(left, right, product_op(s[p]).unwrap());
        if read(s, right, p + 1) {
            product_rest(s, both)
        } else {
            both
        }
    } else {
        Parsed { end: p, ..left }
    }
}

/// The power at `pos`. Powers associate to the right.
pub open spec fn power(s: Seq<u8>, pos: int) -> Parsed
    decreases s.len() - pos, 3int,
{
    let base = unary(s, pos);
    if !read(s, base, pos) {
        base
    } else {
        proof {
            if 0 <= base.end {
                lemma_past(s, base.end);
            }
        }
        let p = past_blanks(s, base.end);
        if holds_power(s, p) {
            followed(base, power(s, p + 2), OpView::Pow)
        } else {
            Parsed { end: p, ..base }
        }
    }
}

/// The signed or unsigned atom at `pos`.
pub open spec fn unary(s: Seq<u8>, pos: int) -> Parsed
    decreases s.len() - pos, 2int,
{
    proof {
        if 0 <= pos <= s.len() {
            lemma_past(s, pos);
        }
    }
    let p = past_blanks(s, pos);
    if holds(s, p, 45) {
        let a = atom(s, p + 1);
        if a.error is None {
            Parsed { ops: a.ops.push(OpView::Neg), ..a }
        } else {
            a
        }
    } else if holds(s, p, 43) {
        atom(s, p + 1)
    } else {
        atom(s, p)
    }
}

/// The number or parenthesis at `pos`.
pub open spec fn atom(s: Seq<u8>, pos: int) -> Parsed
    decreases s.len() - pos, 1int,
{
    proof {
        if 0 <= pos <= s.len() {
            lemma_past(s, pos);
        }
    }
    let p = past_blanks(s, pos);
    if holds(s, p, 40) {
        let inner = sum(s, p + 1);
        let q = past_blanks(s, inner.end);
        if inner.error is Some {
            inner
        } else if holds(s, q, 41) {
            Parsed { end: q + 1, ..inner }
        } else {
            Parsed { end: q, ops: inner.ops, error: Some(CalcError::MissingParen) }
        }
    } else {
        number(s, p)
    }
}

/// The program of an expression: its steps, and an error if it cannot be read to
/// its end.
pub open spec fn program(s: Seq<u8>) -> Parsed {
    let e = sum(s, 0);
    let q = past_blanks(s, e.end);
    if e.error is Some {
        e
    } else if q < s.len() {
        Parsed {
            error: Some(CalcError::Unexpected { byte: s[q], position: q as usize }),
            ..e
        }
    } else {
        e
    }
}

/// A part that is read takes at least one byte and ends within the expression.
pub proof fn lemma_reads(s: Seq<u8>, pos: int)
    requires
        0 <= pos <= s.len(),
    ensures
        sum(s, pos).error is None ==> read(s, sum(s, pos), pos),
        product(s, pos).error is None ==> read(s, product(s, pos), pos),
        power(s, pos).error is None ==> read(s, power(s, pos), pos),
        unary(s, pos).error is None ==> read(s, unary(s, pos), pos),
        atom(s, pos).error is None ==> read(s, atom(s, pos), pos),
    decreases s.len() - pos,
{
    let p = past_blanks(s, pos);
    lemma_past(s, pos);
    lemma_past(s, p);
    if p < s.len() {
        lemma_reads(s, p + 1);
        if holds(s, p, 40) {
            let inner = sum(s, p + 1);
            if inner.error is None {
                lemma_past(s, inner.end);
            }
        }
        if pos < p {
            lemma_reads(s, p);
        }
    }
    assert(atom(s, pos).error is None ==> read(s, atom(s, pos), pos));
    assert(unary(s, pos).error is None ==> read(s, unary(s, pos), pos)) by {
        if !holds(s, p, 45) && !holds(s, p, 43) {
            lemma_atom_past_blanks(s, pos);
        }
    }
    let base = unary(s, pos);
    if base.error is None {
        lemma_past(s, base.end);
        let q = past_blanks(s, base.end);
        if holds_power(s, q) {
            lemma_reads(s, q + 2);
        }
    }
    let left = power(s, pos);
    if left.error is None {
        lemma_product_rest_reads(s, left, pos);
    }
    let first = product(s, pos);
    if first.error is None {
        lemma_sum_rest_reads(s, first, pos);
    }
}

/// Blanks before an atom do not matter.
proof fn lemma_atom_past_blanks(s: Seq<u8>, pos: int)
    requires
        0 <= pos <= s.len(),
    ensures
        atom(s, past_blanks(s, pos)) == atom(s, pos),
{
    lemma_past(s, pos);
    lemma_past_twice(s, pos);
}

proof fn lemma_past_twice(s: Seq<u8>, pos: int)
    requires
        0 <= pos <= s.len(),
    ensures
        past_blanks(s, past_blanks(s, pos)) == past_blanks(s, pos),
    decreases s.len() - pos,
{
    if pos < s.len() && (s[pos] == 32 || s[pos] == 9) {
        lemma_past_twice(s, pos + 1);
    }
}

proof fn lemma_product_rest_reads(s: Seq<u8>, left: Parsed, pos: int)
    requires
        0 <= pos,
        read(s, left, pos),
    ensures
        product_rest(s, left).error is None ==> read(s, product_rest(s, left), pos),
    decreases s.len() - left.end, 1int,
{
    lemma_past(s, left.end);
    let p = past_blanks(s, left.end);
    if p < s.len() && !holds_power(s, p) && product_op(s[p]) is Some {
        lemma_reads(s, p + 1);
        let right = power(s, p + 1);
        if right.error is None {
            lemma_product_rest_reads(s, followed(left, right, product_op(s[p]).unwrap()), pos);
        }
    }
}

proof fn lemma_sum_rest_reads(s: Seq<u8>, left: Parsed, pos: int)
    requires
        0 <= pos,
        read(s, left, pos),
    ensures
        sum_rest(s, left).error is None ==> read(s, sum_rest(s, left), pos),
    decreases s.len() - left.end, 1int,
{
    lemma_past(s, left.end);
    let p = past_blanks(s, left.end);
    if p < s.len() && sum_op(s[p]) is Some {
        lemma_reads(s, p + 1);
        let right = product(s, p + 1);
        if right.error is None {
            lemma_sum_rest_reads(s, followed(left, right, sum_op(s[p]).unwrap()), pos);
        }
    }
}

// ── The parser ───────────────────────────────────────────────────────────────

/// A parser of expressions.
pub struct CalcParser<'a> {
    input: &'a [u8],
    pos: usize,
    ops: Vec<CalcOp>,
}

/// What a parser did to read a part: it wrote the steps of the part behind those
/// it had, and stands behind the part if it could be read.
spec fn did(before: CalcParser, after: CalcParser, p: Parsed, r: Result<(), CalcError>) -> bool {
    &&& after.input == before.input
    &&& after.pos <= after.input@.len()
    &&& after.ops.deep_view() == before.ops.deep_view() + p.ops
    &&& match r {
        Ok(()) => p.error is None && after.pos == p.end,
        Err(e) => p.error == Some(e),
    }
}

impl<'a> CalcParser<'a> {
    fn skip_ws(&mut self)
        requires
            old(self).pos <= old(self).input@.len(),
        ensures
            final(self).input == old(self).input,
            final(self).ops == old(self).ops,
            final(self).pos == past_blanks(old(self).input@, old(self).pos as int),
            old(self).pos <= final(self).pos <= final(self).input@.len(),
    {
        let ghost s = self.input@;
        let ghost start = self.pos as int;
        let input = self.input;
        let mut pos: usize = self.pos;
        while pos < input.len() && (input[pos] == 32 || input[pos] == 9)
            invariant
                start <= pos <= input@.len(),
                s == input@,
                past_blanks(s, start) == past_blanks(s, pos as int),
            decreases input@.len() - pos,
        {
            pos = pos + 1;
        }
        self.pos = pos;
    }

    fn peek(&self) -> (r: Option<u8>)
        ensures
            match r {
                Some(b) => holds(self.input@, self.pos as int, b) && self.pos < usize::MAX,
                None => self.pos >= self.input@.len(),
            },
    {
        if self.pos < self.input.len() {
            Some(self.input[self.pos])
        } else {
            None
        }
    }

    fn at_power(&self) -> (r: bool)
        ensures
            r == holds_power(self.input@, self.pos as int),
            r ==> self.pos + 2 <= usize::MAX,
    {
        self.pos < self.input.len() && self.input.len() - self.pos > 1 && self.input[self.pos] == 42
            && self.input[self.pos + 1] == 42
    }

    fn emit(&mut self, op: CalcOp)
        ensures
            final(self).input == old(self).input,
            final(self).pos == old(self).pos,
            final(self).ops.deep_view() == old(self).ops.deep_view().push(op.deep_view()),
    {
        let ghost before = self.ops.deep_view();
        self.ops.push(op);
        proof {
            assert(self.ops.deep_view() =~= before.push(op.deep_view()));
        }
    }

    fn parse_number(&mut self) -> (r: Result<(), CalcError>)
        requires
            old(self).pos <= old(self).input@.len(),
        ensures
            did(*old(self), *final(self), number(old(self).input@, old(self).pos as int), r),
    {
        let ghost s = self.input@;
        let ghost before = self.ops.deep_view();
        let input = self.input;
        let start: usize = self.pos;
        let mut end: usize = start;
        let mut text: Vec<char> = Vec::new();
        while end < input.len() && ((48 <= input[end] && input[end] <= 57) || input[end] == 46)
            invariant
                start <= end <= input@.len(),
                s == input@,
                past_digits(s, start as int) == past_digits(s, end as int),
                text@ == byte_chars(s.subrange(start as int, end as int)),
            decreases input@.len() - end,
        {
            text.push(input[end] as char);
            proof {
                assert(text@ =~= byte_chars(s.subrange(start as int, end + 1)));
            }
            end = end + 1;
        }
        self.pos = end;
        proof {
            assert(before + Seq::<OpView>::empty() =~= before);
        }
        if end == start {
            return Err(CalcError::ExpectedNumber { position: start });
        }
        if !reads_as_fraction(&text) {
            return Err(CalcError::InvalidNumber);
        }
        let t = crate::text::string_of(&text, 0, text.len());
        proof {
            assert(t@ =~= text@);
        }
        self.emit(CalcOp::Number(t));
        proof {
            assert(self.ops.deep_view() =~= before + seq![OpView::Number(t@)]);
        }
        Ok(())
    }

    fn parse_atom(&mut self) -> (r: Result<(), CalcError>)
        requires
            old(self).pos <= old(self).input@.len(),
        ensures
            did(*old(self), *final(self), atom(old(self).input@, old(self).pos as int), r),
        decreases old(self).input@.len() - old(self).pos, 1int,
    {
        let ghost s = self.input@;
        let ghost start = self.pos as int;
        self.skip_ws();
        let ghost p = self.pos as int;
        let open = match self.peek() {
            Some(b) => b == 40,
            None => false,
        };
        if !open {
            return self.parse_number();
        }
        self.pos = self.pos + 1;
        match self.parse_sum() {
            Err(e) => {
                return Err(e);
            },
            Ok(()) => {},
        }
        self.skip_ws();
        let closed = match self.peek() {
            Some(b) => b == 41,
            None => false,
        };
        if !closed {
            return Err(CalcError::MissingParen);
        }
        self.pos = self.pos + 1;
        Ok(())
    }

    fn parse_unary(&mut self) -> (r: Result<(), CalcError>)
        requires
            old(self).pos <= old(self).input@.len(),
        ensures
            did(*old(self), *final(self), unary(old(self).input@, old(self).pos as int), r),
        decreases old(self).input@.len() - old(self).pos, 2int,
    {
        let ghost before = self.ops.deep_view();
        self.skip_ws();
        match self.peek() {
            Some(45) => {
                self.pos = self.pos + 1;
                let ghost a = atom(self.input@, self.pos as int);
                match self.parse_atom() {
                    Err(e) => Err(e),
                    Ok(()) => {
                        self.emit(CalcOp::Neg);
                        proof {
                            assert(self.ops.deep_view() =~= before + a.ops.push(OpView::Neg));
                        }
                        Ok(())
                    },
                }
            },
            Some(43) => {
                self.pos = self.pos + 1;
                self.parse_atom()
            },
            _ => self.parse_atom(),
        }
    }

    fn parse_pow(&mut self) -> (r: Result<(), CalcError>)
        requires
            old(self).pos <= old(self).input@.len(),
        ensures
            did(*old(self), *final(self), power(old(self).input@, old(self).pos as int), r),
        decreases old(self).input@.len() - old(self).pos, 3int,
    {
        let ghost before = self.ops.deep_view();
        let ghost s = self.input@;
        let ghost start = self.pos as int;
        proof {
            lemma_reads(s, start);
        }
        let ghost base = unary(s, start);
        match self.parse_unary() {
            Err(e) => {
                return Err(e);
            },
            Ok(()) => {},
        }
        self.skip_ws();
        if !self.at_power() {
            return Ok(());
        }
        self.pos = self.pos + 2;
        let ghost exp = power(s, self.pos as int);
        match self.parse_pow() {
            Err(e) => {
                proof {
                    assert(before + base.ops + exp.ops =~= before + (base.ops + exp.ops));
                }
                Err(e)
            },
            Ok(()) => {
                self.emit(CalcOp::Pow);
                proof {
                    assert(self.ops.deep_view() =~= before + (base.ops + exp.ops).push(OpView::Pow));
                }
                Ok(())
            },
        }
    }

    fn parse_mul(&mut self) -> (r: Result<(), CalcError>)
        requires
            old(self).pos <= old(self).input@.len(),
        ensures
            did(*old(self), *final(self), product(old(self).input@, old(self).pos as int), r),
        decreases old(self).input@.len() - old(self).pos, 4int,
    {
        let ghost before = self.ops.deep_view();
        let ghost s = self.input@;
        let ghost start = self.pos as int;
        proof {
            lemma_reads(s, start);
        }
        let ghost mut left = power(s, start);
        match self.parse_pow() {
            Err(e) => {
                return Err(e);
            },
            Ok(()) => {},
        }
        loop
            invariant
                self.input@ == s,
                self.input == old(self).input,
                start == old(self).pos,
                before == old(self).ops.deep_view(),
                read(s, left, start),
                self.pos == left.end,
                self.ops.deep_view() == before + left.ops,
                product(s, start) == product_rest(s, left),
            decreases s.len() - left.end,
        {
            self.skip_ws();
            if self.at_power() {
                return Ok(());
            }
            let op = match self.peek() {
                Some(42) => CalcOp::Mul,
                Some(47) => CalcOp::Div,
                Some(37) => CalcOp::Rem,
                _ => {
                    return Ok(());
                },
            };
            let ghost p = self.pos as int;
            let ghost right = power(s, p + 1);
            let ghost both = followed(left, right, op.deep_view());
            proof {
                lemma_reads(s, p + 1);
            }
            self.pos = self.pos + 1;
            match self.parse_pow() {
                Err(e) => {
                    proof {
                        assert(before + left.ops + right.ops =~= before + both.ops);
                    }
                    return Err(e);
                },
                Ok(()) => {},
            }
            self.emit(op);
            proof {
                assert(self.ops.deep_view() =~= before + both.ops);
                left = both;
            }
        }
    }

    fn parse_sum(&mut self) -> (r: Result<(), CalcError>)
        requires
            old(self).pos <= old(self).input@.len(),
        ensures
            did(*old(self), *final(self), sum(old(self).input@, old(self).pos as int), r),
        decreases old(self).input@.len() - old(self).pos, 6int,
    {
        let ghost before = self.ops.deep_view();
        let ghost s = self.input@;
        let ghost start = self.pos as int;
        proof {
            lemma_reads(s, start);
        }
        let ghost mut left = product(s, start);
        match self.parse_mul() {
            Err(e) => {
                return Err(e);
            },
            Ok(()) => {},
        }
        loop
            invariant
                self.input@ == s,
                self.input == old(self).input,
                start == old(self).pos,
                before == old(self).ops.deep_view(),
                read(s, left, start),
                self.pos == left.end,
                self.ops.deep_view() == before + left.ops,
                sum(s, start) == sum_rest(s, left),
            decreases s.len() - left.end,
        {
            self.skip_ws();
            let op = match self.peek() {
                Some(43) => CalcOp::Add,
                Some(45) => CalcOp::Sub,
                _ => {
                    return Ok(());
                },
            };
            let ghost p = self.pos as int;
            let ghost right = product(s, p + 1);
            let ghost both = followed(left, right, op.deep_view());
            proof {
                lemma_reads(s, p + 1);
            }
            self.pos = self.pos + 1;
            match self.parse_mul() {
                Err(e) => {
                    proof {
                        assert(before + left.ops + right.ops =~= before + both.ops);
                    }
                    return Err(e);
                },
                Ok(()) => {},
            }
            self.emit(op);
            proof {
                assert(self.ops.deep_view() =~= before + both.ops);
                left = both;
            }
        }
    }
}

/// A compiled expression.
#[derive(Debug)]
pub struct Program {
    /// The steps. Where there is an error, those before it.
    pub ops: Vec<CalcOp>,
    /// Why the expression cannot be read to its end. It counts only if every
    /// step before it succeeds.
    pub error: Option<CalcError>,
}

/// Compiles an expression.
pub fn calc_parse(expr: &str) -> (r: Program)
    ensures
        r.ops.deep_view() == program(encode_utf8(expr@)).ops,
        r.error == program(encode_utf8(expr@)).error,
{
    let input = expr.as_bytes();
    let mut p = CalcParser { input: input, pos: 0, ops: Vec::new() };
    proof {
        lemma_reads(input@, 0);
        assert(p.ops.deep_view() =~= Seq::<OpView>::empty());
    }
    let r = p.parse_sum();
    proof {
        let e = sum(input@, 0);
        assert(Seq::<OpView>::empty() + e.ops =~= e.ops);
    }
    match r {
        Err(e) => Program { ops: p.ops, error: Some(e) },
        Ok(()) => {
            p.skip_ws();
            match p.peek() {
                Some(b) => {
                    let position = p.pos;
                    Program {
                        ops: p.ops,
                        error: Some(CalcError::Unexpected { byte: b, position: position }),
                    }
                },
                None => Program { ops: p.ops, error: None },
            }
        },
    }
}

/// Compiles the expression that the calculator tool is given.
pub fn compile(expr: &str) -> (r: Program)
    ensures
        r.ops.deep_view() == program(encode_utf8(trim(expr@))).ops,
        r.error == program(encode_utf8(trim(expr@))).error,
{
    let t = trimmed(expr);
    calc_parse(t.as_str())
}

/// The reply of the calculator tool: the value in words, or why there is none.
pub fn run_calculator(expr: &str, outcome: &Result<String, CalcError>) -> (r: String)
    ensures
        r@ == match *outcome {
            Ok(v) => v@,
            Err(e) => "Could not evaluate '"@ + expr@ + "': "@ + calc_error_text(e),
        },
{
    match outcome {
        Ok(v) => v.clone(),
        Err(e) => {
            let mut r = "Could not evaluate '".to_owned();
            r.push_str(expr);
            r.push_str("': ");
            let m = e.message();
            r.push_str(m.as_str());
            r
        },
    }
}

} // verus!
