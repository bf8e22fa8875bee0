//! Monkey worry-level bookkeeping: each monkey holds a queue of worry
//! levels, transforms each with its operation, and throws it to another
//! monkey chosen by a divisibility test. Worry levels are kept bounded by
//! working in the ring of the product of all dividers.

use vstd::prelude::*;
use std::collections::VecDeque;

use crate::emulator::find_token_start;
use crate::emulator::lemma_skip_ws_run;
use crate::emulator::skip_ws;
use crate::emulator::ws_byte;
use crate::terminal::digit_run_end;
use crate::terminal::digits_value;
use crate::terminal::is_digit;
use crate::terminal::lemma_digit_run;
use crate::terminal::lemma_digits_prefix;
use crate::terminal::only_ws;

verus! {

/// An arithmetic operator of a worry-level formula.
#[derive(Debug, Clone, Copy, PartialEq, Eq, Structural)]
pub enum Operator {
    Add,
    Sub,
    Mul,
}

/// The right-hand side of a worry-level formula.
#[derive(Debug, Clone, Copy, PartialEq, Eq, Structural)]
pub enum RValue {
    Old,
    Literal(usize),
}

/// A worry-level formula: `new = old <operator> <rvalue>`.
#[derive(Debug, Clone, Copy)]
pub struct Operation {
    pub operator: Operator,
    pub rvalue: RValue,
}

/// A divisibility test choosing the target monkey.
#[derive(Debug, Clone, Copy)]
pub struct Test {
    pub divider: usize,
    pub if_true: usize,
    pub if_false: usize,
}

/// The value the formula's right-hand side takes for a given input.
pub open spec fn spec_rvalue(rv: RValue, in_value: usize) -> int {
    match rv {
        RValue::Old => in_value as int,
        RValue::Literal(literal) => literal as int,
    }
}

/// The exact value of the formula over unbounded integers.
pub open spec fn spec_operate(op: Operation, in_value: usize) -> int {
    match op.operator {
        Operator::Add => in_value + spec_rvalue(op.rvalue, in_value),
        Operator::Sub => in_value - spec_rvalue(op.rvalue, in_value),
        Operator::Mul => in_value * spec_rvalue(op.rvalue, in_value),
    }
}

/// The value of the formula in the ring of residues modulo `ring`.
pub open spec fn spec_operate_ring(op: Operation, in_value: usize, ring: usize) -> int {
    let lv = (in_value as int) % (ring as int);
    let rv = spec_rvalue(op.rvalue, in_value) % (ring as int);
    match op.operator {
        Operator::Add => (lv + rv) % (ring as int),
        Operator::Sub => (lv - rv) % (ring as int),
        Operator::Mul => (lv * rv) % (ring as int),
    }
}

impl Operation {
    /// Applies the formula exactly.
    pub fn operate(&self, in_value: usize) -> (r: usize)
        requires
            0 <= spec_operate(*self, in_value) <= usize::MAX,
        ensures
            r == spec_operate(*self, in_value),
    {
        let lvalue = in_value;
        let rvalue = match self.rvalue {
            RValue::Old => in_value,
            RValue::Literal(literal) => literal,
        };
        match self.operator {
            Operator::Add => lvalue + rvalue,
            Operator::Sub => lvalue - rvalue,
            Operator::Mul => lvalue * rvalue,
        }
    }

    /// Applies the formula modulo `ring`, keeping the result bounded.
    pub fn operate_under_ring(&self, in_value: usize, ring: usize) -> (r: usize)
        requires
            0 < ring <= usize::MAX / 2,
            (ring - 1) * (ring - 1) <= usize::MAX,
            self.operator is Sub ==> (in_value as int) % (ring as int) >= spec_rvalue(
                self.rvalue,
                in_value,
            ) % (ring as int),
        ensures
            r == spec_operate_ring(*self, in_value, ring),
            r < ring || (self.operator is Sub && r == 0),
    {
        let lvalue = in_value;
        let rvalue = match self.rvalue {
            RValue::Old => in_value,
            RValue::Literal(literal) => literal,
        };
        match self.operator {
            Operator::Add => ((lvalue % ring) + (rvalue % ring)) % ring,
            Operator::Sub => ((lvalue % ring) - (rvalue % ring)) % ring,
            Operator::Mul => {
                proof {
                    let l = (lvalue as int) % (ring as int);
                    let v = (rvalue as int) % (ring as int);
                    assert(l * v <= (ring - 1) * (ring - 1)) by (nonlinear_arith)
                        requires
                            0 <= l < ring as int,
                            0 <= v < ring as int,
                    ;
                }
                ((lvalue % ring) * (rvalue % ring)) % ring
            },
        }
    }
}

impl Test {
    /// Chooses the target monkey by divisibility.
    pub fn test(&self, in_value: usize) -> (r: usize)
        requires
            self.divider != 0,
        ensures
            r == if in_value % self.divider == 0 {
                self.if_true
            } else {
                self.if_false
            },
    {
        if in_value % self.divider == 0 {
            self.if_true
        } else {
            self.if_false
        }
    }
}

/// The position after the formula prefix `new = old`.
pub open spec fn formula_op_start(s: Seq<u8>) -> int {
    skip_ws(s, 9)
}

/// The position where the formula's right-hand side begins.
pub open spec fn formula_rvalue_start(s: Seq<u8>) -> int {
    skip_ws(s, formula_op_start(s) + 1)
}

/// The line is a worry-level formula `new = old <operator> <rvalue>`: the
/// fixed prefix, one of the three operator signs, and either `old` or a
/// decimal literal, with nothing but whitespace after it.
pub open spec fn is_formula_line(s: Seq<u8>) -> bool {
    let o = formula_op_start(s);
    let v = formula_rvalue_start(s);
    &&& s.len() >= 9
    &&& s.subrange(0, 9) == seq![110u8, 101u8, 119u8, 32u8, 61u8, 32u8, 111u8, 108u8, 100u8]
    &&& o < s.len()
    &&& (s[o] == 43 || s[o] == 45 || s[o] == 42)
    &&& {
        ||| (v + 3 <= s.len() && s.subrange(v, v + 3) == seq![111u8, 108u8, 100u8] && only_ws(
            s,
            v + 3,
        ))
        ||| (v < s.len() && is_digit(s[v]) && digits_value(s, v, digit_run_end(s, v))
            <= usize::MAX && only_ws(s, digit_run_end(s, v)))
    }
}

/// The operator a formula line names.
pub open spec fn spec_formula_operator(s: Seq<u8>) -> Operator {
    if s[formula_op_start(s)] == 43 {
        Operator::Add
    } else if s[formula_op_start(s)] == 45 {
        Operator::Sub
    } else {
        Operator::Mul
    }
}

/// The right-hand side a formula line names.
pub open spec fn spec_formula_rvalue(s: Seq<u8>) -> RValue {
    let v = formula_rvalue_start(s);
    if v < s.len() && is_digit(s[v]) {
        RValue::Literal(digits_value(s, v, digit_run_end(s, v)) as usize)
    } else {
        RValue::Old
    }
}

/// Parses a worry-level formula line into an operation. The line must be a
/// well-formed formula.
pub fn parse_formula(line: &[u8]) -> (r: Operation)
    requires
        is_formula_line(line@),
    ensures
        r.operator == spec_formula_operator(line@),
        r.rvalue == spec_formula_rvalue(line@),
{
    let mut o: usize = 9;
    while o < line.len() && (line[o] == 32 || line[o] == 9 || line[o] == 10 || line[o] == 13)
        invariant
            9 <= o <= line@.len(),
            skip_ws(line@, 9) == skip_ws(line@, o as int),
        decreases line@.len() - o,
    {
        o += 1;
    }
    proof {
        assert(o as int == formula_op_start(line@));
    }
    let operator = if line[o] == 43 {
        Operator::Add
    } else if line[o] == 45 {
        Operator::Sub
    } else {
        Operator::Mul
    };
    let mut v: usize = o + 1;
    while v < line.len() && (line[v] == 32 || line[v] == 9 || line[v] == 10 || line[v] == 13)
        invariant
            o + 1 <= v <= line@.len(),
            skip_ws(line@, o + 1) == skip_ws(line@, v as int),
        decreases line@.len() - v,
    {
        v += 1;
    }
    proof {
        assert(v as int == formula_rvalue_start(line@));
        if !(v < line@.len() && is_digit(line@[v as int])) {
            assert(line@.subrange(v as int, v + 3) == seq![111u8, 108u8, 100u8]);
            assert(line@.subrange(v as int, v + 3)[0] == line@[v as int]);
        }
    }
    if v < line.len() && line[v] >= 48 && line[v] <= 57 {
        proof {
            lemma_digit_run(line@, v as int);
            lemma_digits_prefix(line@, v as int, v as int, digit_run_end(line@, v as int));
        }
        let mut value: usize = 0;
        let mut e: usize = v;
        while e < line.len() && line[e] >= 48 && line[e] <= 57
            invariant
                is_formula_line(line@),
                v as int == formula_rvalue_start(line@),
                is_digit(line@[v as int]),
                v <= e <= line@.len(),
                digit_run_end(line@, v as int) == digit_run_end(line@, e as int),
                digits_value(line@, v as int, digit_run_end(line@, v as int)) <= usize::MAX,
                value == digits_value(line@, v as int, e as int),
                forall|j: int| v <= j < e ==> is_digit(#[trigger] line@[j]),
            decreases line@.len() - e,
        {
            proof {
                lemma_digit_run(line@, v as int);
                lemma_digit_run(line@, e as int);
                assert(digit_run_end(line@, e as int) == digit_run_end(line@, e + 1));
                assert(e + 1 <= digit_run_end(line@, v as int));
                lemma_digits_prefix(line@, v as int, e + 1, digit_run_end(line@, v as int));
                lemma_digits_prefix(
                    line@,
                    v as int,
                    e as int,
                    digit_run_end(line@, v as int),
                );
            }
            value = value * 10 + ((line[e] - 48) as usize);
            e += 1;
        }
        proof {
            assert(digit_run_end(line@, e as int) == e as int);
            assert(digit_run_end(line@, v as int) == e as int);
        }
        Operation { operator, rvalue: RValue::Literal(value) }
    } else {
        Operation { operator, rvalue: RValue::Old }
    }
}

/// The line consists of the given prefix, an immediate decimal number, and
/// nothing but whitespace after it.
pub open spec fn is_prefixed_number_line(s: Seq<u8>, prefix: Seq<u8>) -> bool {
    let p = prefix.len() as int;
    &&& s.len() >= p + 1
    &&& s.subrange(0, p) == prefix
    &&& is_digit(s[p])
    &&& digits_value(s, p, digit_run_end(s, p)) <= usize::MAX
    &&& only_ws(s, digit_run_end(s, p))
}

/// The number such a line carries.
pub open spec fn spec_prefixed_number(s: Seq<u8>, prefix: Seq<u8>) -> int {
    digits_value(s, prefix.len() as int, digit_run_end(s, prefix.len() as int))
}

/// Reads the number following the given prefix, as in the divisibility and
/// throw-target lines of the monkey notes. The line must carry the prefix
/// and a number.
pub fn parse_prefixed_number(line: &[u8], prefix: &[u8]) -> (r: usize)
    requires
        is_prefixed_number_line(line@, prefix@),
    ensures
        r == spec_prefixed_number(line@, prefix@),
{
    let v = prefix.len();
    proof {
        lemma_digit_run(line@, v as int);
        lemma_digits_prefix(line@, v as int, v as int, digit_run_end(line@, v as int));
    }
    let mut value: usize = 0;
    let mut e: usize = v;
    while e < line.len() && line[e] >= 48 && line[e] <= 57
        invariant
            v as int == prefix@.len(),
            is_prefixed_number_line(line@, prefix@),
            v <= e <= line@.len(),
            digit_run_end(line@, v as int) == digit_run_end(line@, e as int),
            digits_value(line@, v as int, digit_run_end(line@, v as int)) <= usize::MAX,
            value == digits_value(line@, v as int, e as int),
            forall|j: int| v <= j < e ==> is_digit(#[trigger] line@[j]),
        decreases line@.len() - e,
    {
        proof {
            lemma_digit_run(line@, v as int);
            lemma_digit_run(line@, e as int);
            assert(digit_run_end(line@, e as int) == digit_run_end(line@, e + 1));
            assert(e + 1 <= digit_run_end(line@, v as int));
            lemma_digits_prefix(line@, v as int, e + 1, digit_run_end(line@, v as int));
            lemma_digits_prefix(line@, v as int, e as int, digit_run_end(line@, v as int));
        }
        value = value * 10 + ((line[e] - 48) as usize);
        e += 1;
    }
    proof {
        assert(digit_run_end(line@, e as int) == e as int);
        assert(digit_run_end(line@, v as int) == e as int);
    }
    value
}

/// From position `i`, the line is a comma-separated list of numbers, each
/// padded by optional whitespace, running to the end.
pub open spec fn items_ok(s: Seq<u8>, i: int) -> bool
    decreases s.len() - i, 0int,
    via items_ok_decreases
{
    let a = skip_ws(s, i);
    let e = digit_run_end(s, a);
    let b = skip_ws(s, e);
    &&& 0 <= i <= s.len()
    &&& a < s.len()
    &&& is_digit(s[a])
    &&& digits_value(s, a, e) <= usize::MAX
    &&& if b >= s.len() {
        true
    } else {
        s[b] == 44 && items_ok(s, b + 1)
    }
}

#[via_fn]
proof fn items_ok_decreases(s: Seq<u8>, i: int) {
    lemma_items_step(s, i);
}

/// The numbers such a list carries, in order.
pub open spec fn items_vals(s: Seq<u8>, i: int) -> Seq<usize>
    decreases s.len() - i, 1int,
    via items_vals_decreases
{
    let a = skip_ws(s, i);
    let e = digit_run_end(s, a);
    let b = skip_ws(s, e);
    let v = digits_value(s, a, e) as usize;
    if !(0 <= i <= s.len() && a < s.len() && is_digit(s[a])) {
        Seq::empty()
    } else if b >= s.len() {
        seq![v]
    } else {
        seq![v] + items_vals(s, b + 1)
    }
}

#[via_fn]
proof fn items_vals_decreases(s: Seq<u8>, i: int) {
    lemma_items_step(s, i);
}

/// A list element advances the scan position.
proof fn lemma_items_step(s: Seq<u8>, i: int)
    ensures
        0 <= i <= s.len() && skip_ws(s, i) < s.len() && is_digit(s[skip_ws(s, i)])
            ==> skip_ws(s, digit_run_end(s, skip_ws(s, i))) + 1 > i,
{
    if 0 <= i <= s.len() {
        lemma_skip_ws_run(s, i);
        let a = skip_ws(s, i);
        if a < s.len() && is_digit(s[a]) {
            lemma_digit_run(s, a);
            lemma_digit_run(s, a + 1);
            assert(digit_run_end(s, a) == digit_run_end(s, a + 1));
            assert(digit_run_end(s, a) >= a + 1);
            lemma_skip_ws_run(s, digit_run_end(s, a));
        }
    }
}

/// Reads the number starting exactly at `from` and the position after it.
fn read_number(line: &[u8], from: usize) -> (r: (usize, usize))
    requires
        from < line@.len(),
        is_digit(line@[from as int]),
        digits_value(line@, from as int, digit_run_end(line@, from as int)) <= usize::MAX,
    ensures
        r.0 == digits_value(line@, from as int, digit_run_end(line@, from as int)),
        r.1 == digit_run_end(line@, from as int),
        from < r.1 <= line@.len(),
{
    proof {
        lemma_digit_run(line@, from as int);
        lemma_digits_prefix(
            line@,
            from as int,
            from as int,
            digit_run_end(line@, from as int),
        );
    }
    let mut value: usize = 0;
    let mut e: usize = from;
    while e < line.len() && line[e] >= 48 && line[e] <= 57
        invariant
            from <= e <= line@.len(),
            digit_run_end(line@, from as int) == digit_run_end(line@, e as int),
            digits_value(line@, from as int, digit_run_end(line@, from as int))
                <= usize::MAX,
            value == digits_value(line@, from as int, e as int),
            forall|j: int| from <= j < e ==> is_digit(#[trigger] line@[j]),
        decreases line@.len() - e,
    {
        proof {
            lemma_digit_run(line@, from as int);
            lemma_digit_run(line@, e as int);
            lemma_digit_run(line@, e + 1);
            assert(digit_run_end(line@, e as int) == digit_run_end(line@, e + 1));
            assert(e + 1 <= digit_run_end(line@, from as int));
            lemma_digits_prefix(line@, from as int, e + 1, digit_run_end(line@, from as int));
            lemma_digits_prefix(
                line@,
                from as int,
                e as int,
                digit_run_end(line@, from as int),
            );
        }
        value = value * 10 + ((line[e] - 48) as usize);
        e += 1;
    }
    proof {
        assert(digit_run_end(line@, e as int) == e as int);
        assert(digit_run_end(line@, from as int) == e as int);
        lemma_digit_run(line@, from as int);
    }
    (value, e)
}

/// Reads the starting worry levels following the given prefix: a
/// comma-separated list of numbers, front of the queue first. The line
/// must carry the prefix and a well-formed list.
pub fn parse_starting_items(line: &[u8], prefix: &[u8]) -> (r: VecDeque<usize>)
    requires
        prefix@.len() <= line@.len(),
        line@.subrange(0, prefix@.len() as int) == prefix@,
        items_ok(line@, prefix@.len() as int),
    ensures
        r@ == items_vals(line@, prefix@.len() as int),
{
    let mut items: VecDeque<usize> = VecDeque::new();
    let mut i: usize = prefix.len();
    loop
        invariant
            i <= line@.len(),
            items_ok(line@, i as int),
            items_vals(line@, prefix@.len() as int) == items@ + items_vals(line@, i as int),
        decreases line@.len() - i,
    {
        let a = find_token_start(line, i);
        proof {
            lemma_skip_ws_run(line@, i as int);
        }
        let (value, e) = read_number(line, a);
        let b = find_token_start(line, e);
        proof {
            lemma_skip_ws_run(line@, e as int);
        }
        let ghost before = items@;
        items.push_back(value);
        if b >= line.len() {
            proof {
                assert(items_vals(line@, i as int) =~= seq![value]);
                assert(items@ + items_vals(line@, b + 1) =~= items@ + items_vals(
                    line@,
                    b + 1,
                ));
                assert(items_vals(line@, prefix@.len() as int) =~= items@);
            }
            return items;
        }
        proof {
            assert(line@[b as int] == 44);
            assert(items_ok(line@, b + 1));
            assert(items_vals(line@, i as int) =~= seq![value] + items_vals(line@, b + 1));
            assert(items_vals(line@, prefix@.len() as int) =~= items@ + items_vals(
                line@,
                b + 1,
            ));
        }
        i = b + 1;
    }
}

/// A monkey: its queue of worry levels, its formula, and its test.
#[derive(Debug)]
pub struct Monkey {
    pub items: VecDeque<usize>,
    pub operation: Operation,
    pub test: Test,
}

impl Monkey {
    /// The monkey a given worry level is thrown to.
    pub fn throw_to(&self, in_value: usize) -> (r: usize)
        requires
            self.test.divider != 0,
        ensures
            r == if in_value % self.test.divider == 0 {
                self.test.if_true
            } else {
                self.test.if_false
            },
    {
        self.test.test(in_value)
    }
}

/// The product of the dividers of the first `i` monkeys.
pub open spec fn ring_prefix(monkeys: Seq<Monkey>, i: int) -> int
    decreases i,
{
    if i <= 0 {
        1
    } else {
        ring_prefix(monkeys, i - 1) * monkeys[i - 1].test.divider
    }
}

/// The product of all dividers.
pub open spec fn ring_of(monkeys: Seq<Monkey>) -> int {
    ring_prefix(monkeys, monkeys.len() as int)
}

/// With every divider positive, prefix products are positive and
/// monotone.
proof fn lemma_ring_prefix_monotone(monkeys: Seq<Monkey>, i: int, j: int)
    requires
        0 <= i <= j <= monkeys.len(),
        forall|k: int| 0 <= k < monkeys.len() ==> (#[trigger] monkeys[k]).test.divider >= 1,
    ensures
        1 <= ring_prefix(monkeys, i),
        ring_prefix(monkeys, i) <= ring_prefix(monkeys, j),
    decreases j,
{
    if j > 0 {
        if i == j {
            lemma_ring_prefix_monotone(monkeys, i - 1, j - 1);
            assert(ring_prefix(monkeys, j) == ring_prefix(monkeys, j - 1) * monkeys[j
                - 1].test.divider);
            assert(ring_prefix(monkeys, j - 1) * 1 <= ring_prefix(monkeys, j - 1) * monkeys[j
                - 1].test.divider) by (nonlinear_arith)
                requires
                    ring_prefix(monkeys, j - 1) >= 1,
                    monkeys[j - 1].test.divider >= 1,
            ;
        } else {
            lemma_ring_prefix_monotone(monkeys, i, j - 1);
            assert(ring_prefix(monkeys, j - 1) * 1 <= ring_prefix(monkeys, j - 1) * monkeys[j
                - 1].test.divider) by (nonlinear_arith)
                requires
                    ring_prefix(monkeys, j - 1) >= 1,
                    monkeys[j - 1].test.divider >= 1,
            ;
        }
    }
}

/// The total number of queued worry levels across the first `i` monkeys.
pub open spec fn items_prefix(monkeys: Seq<Monkey>, i: int) -> int
    decreases i,
{
    if i <= 0 {
        0
    } else {
        items_prefix(monkeys, i - 1) + monkeys[i - 1].items@.len()
    }
}

/// The total number of queued worry levels.
pub open spec fn total_items(monkeys: Seq<Monkey>) -> int {
    items_prefix(monkeys, monkeys.len() as int)
}

/// The whole troop of monkeys and their inspection counters.
pub struct MonkeyBusiness {
    monkeys: Vec<Monkey>,
    monkey_number: usize,
    ring: usize,
    inspection: Vec<usize>,
}

impl MonkeyBusiness {
    pub closed spec fn spec_monkeys(self) -> Seq<Monkey> {
        self.monkeys@
    }

    pub closed spec fn spec_inspection(self) -> Seq<usize> {
        self.inspection@
    }

    pub closed spec fn spec_ring(self) -> usize {
        self.ring
    }

    pub closed spec fn wf(self) -> bool {
        &&& self.monkey_number == self.monkeys@.len()
        &&& self.inspection@.len() == self.monkeys@.len()
        &&& self.ring == ring_of(self.monkeys@)
        &&& forall|k: int|
            0 <= k < self.monkeys@.len() ==> (#[trigger] self.monkeys@[k]).test.divider >= 1
    }

    /// Gathers the monkeys, computing the shared ring as the product of all
    /// dividers and zeroing the inspection counters.
    pub fn new(monkeys: Vec<Monkey>) -> (mb: MonkeyBusiness)
        requires
            forall|k: int| 0 <= k < monkeys@.len() ==> (#[trigger] monkeys@[k]).test.divider >= 1,
            ring_of(monkeys@) <= usize::MAX,
        ensures
            mb.wf(),
            mb.spec_monkeys() == monkeys@,
            mb.spec_ring() == ring_of(monkeys@),
            mb.spec_inspection().len() == monkeys@.len(),
            forall|k: int| 0 <= k < monkeys@.len() ==> #[trigger] mb.spec_inspection()[k] == 0,
    {
        let size = monkeys.len();
        let mut ring: usize = 1;
        let mut i: usize = 0;
        while i < size
            invariant
                size == monkeys@.len(),
                i <= size,
                ring == ring_prefix(monkeys@, i as int),
                forall|k: int|
                    0 <= k < monkeys@.len() ==> (#[trigger] monkeys@[k]).test.divider >= 1,
                ring_of(monkeys@) <= usize::MAX,
            decreases size - i,
        {
            proof {
                lemma_ring_prefix_monotone(monkeys@, i + 1, monkeys@.len() as int);
                lemma_ring_prefix_monotone(monkeys@, i as int, i + 1);
            }
            ring = ring * monkeys[i].test.divider;
            i += 1;
        }
        let mut inspection: Vec<usize> = Vec::new();
        let mut j: usize = 0;
        while j < size
            invariant
                j <= size,
                inspection@.len() == j,
                forall|k: int| 0 <= k < j ==> #[trigger] inspection@[k] == 0,
            decreases size - j,
        {
            inspection.push(0);
            j += 1;
        }
        MonkeyBusiness { monkeys, monkey_number: size, ring, inspection }
    }

    /// One full round in the ring of residues: every monkey inspects and
    /// throws each of its queued worry levels in turn. The number of queued
    /// levels across the troop is conserved, every monkey keeps its formula
    /// and test, and only the inspection counters grow.
    pub fn unbounded_round(&mut self)
        requires
            old(self).wf(),
            0 < old(self).spec_ring() <= usize::MAX / 2,
            (old(self).spec_ring() - 1) * (old(self).spec_ring() - 1) <= usize::MAX,
            forall|k: int|
                0 <= k < old(self).spec_monkeys().len() ==> !((#[trigger] old(self).spec_monkeys()[k]).operation.operator is Sub),
            forall|k: int|
                0 <= k < old(self).spec_monkeys().len() ==> {
                    let t = (#[trigger] old(self).spec_monkeys()[k]).test;
                    &&& t.if_true < old(self).spec_monkeys().len()
                    &&& t.if_false < old(self).spec_monkeys().len()
                    &&& t.if_true != k
                    &&& t.if_false != k
                },
            forall|k: int|
                0 <= k < old(self).spec_inspection().len() ==> (#[trigger] old(self).spec_inspection()[k]) + total_items(old(self).spec_monkeys()) <= usize::MAX,
        ensures
            final(self).wf(),
            final(self).spec_ring() == old(self).spec_ring(),
            final(self).spec_monkeys().len() == old(self).spec_monkeys().len(),
            final(self).spec_inspection().len() == old(self).spec_inspection().len(),
            total_items(final(self).spec_monkeys()) == total_items(old(self).spec_monkeys()),
            forall|k: int|
                0 <= k < old(self).spec_inspection().len() ==> old(self).spec_inspection()[k]
                    <= #[trigger] final(self).spec_inspection()[k],
            forall|k: int|
                0 <= k < old(self).spec_monkeys().len() ==> (#[trigger] final(self).spec_monkeys()[k]).operation == old(self).spec_monkeys()[k].operation
                    && final(self).spec_monkeys()[k].test == old(self).spec_monkeys()[k].test,
    {
        let ghost m0 = self.monkeys@;
        let ghost ins0 = self.inspection@;
        proof {
            assert forall|k: int|
                0 <= k < ins0.len() implies (#[trigger] ins0[k]) + total_items(m0)
                <= usize::MAX by {
                assert(old(self).spec_inspection()[k] + total_items(old(self).spec_monkeys())
                    <= usize::MAX);
            }
        }
        let len = self.monkey_number;
        let mut monkey_index: usize = 0;
        while monkey_index < len
            invariant
                self.wf(),
                len == self.monkeys@.len(),
                monkey_index <= len,
                self.spec_ring() == old(self).spec_ring(),
                0 < self.spec_ring() <= usize::MAX / 2,
                (self.spec_ring() - 1) * (self.spec_ring() - 1) <= usize::MAX,
                self.monkeys@.len() == m0.len(),
                self.inspection@.len() == ins0.len(),
                ins0.len() == m0.len(),
                forall|k: int|
                    0 <= k < m0.len() ==> (#[trigger] self.monkeys@[k]).operation == m0[
                        k
                    ].operation && self.monkeys@[k].test == m0[k].test,
                forall|k: int|
                    0 <= k < m0.len() ==> !((#[trigger] m0[k]).operation.operator is Sub),
                forall|k: int|
                    0 <= k < m0.len() ==> {
                        let t = (#[trigger] m0[k]).test;
                        &&& t.if_true < m0.len()
                        &&& t.if_false < m0.len()
                        &&& t.if_true != k
                        &&& t.if_false != k
                    },
                total_items(self.monkeys@) == total_items(m0),
                forall|k: int|
                    0 <= k < ins0.len() ==> ins0[k] <= #[trigger] self.inspection@[k],
                forall|k: int|
                    monkey_index <= k < ins0.len() ==> #[trigger] self.inspection@[k] == ins0[
                        k
                    ],
                forall|k: int|
                    0 <= k < ins0.len() ==> (#[trigger] ins0[k]) + total_items(m0)
                        <= usize::MAX,
            decreases len - monkey_index,
        {
            let ghost m_turn = self.monkeys@;
            // Take the monkey's whole queue: no monkey throws to itself, so
            // nothing lands back on it during its own turn.
            let mut mk = self.monkeys.remove(monkey_index);
            let mut queue: VecDeque<usize> = VecDeque::new();
            core::mem::swap(&mut queue, &mut mk.items);
            self.monkeys.insert(monkey_index, mk);
            proof {
                assert(self.monkeys@ =~= m_turn.update(
                    monkey_index as int,
                    self.monkeys@[monkey_index as int],
                ));
                lemma_items_one_change(m_turn, self.monkeys@, monkey_index as int, m0.len() as int);
                assert(total_items(self.monkeys@) == total_items(m_turn)
                    - queue@.len());
                lemma_queue_le_total(m_turn, monkey_index as int);
                lemma_ring_same(m_turn, self.monkeys@, m0.len() as int);
            }
            let ghost taken = queue@.len() as int;
            let ghost base_items = total_items(self.monkeys@);
            let ghost base_ins = self.inspection@[monkey_index as int];
            while queue.len() > 0
                invariant
                    self.wf(),
                    len == self.monkeys@.len(),
                    monkey_index < len,
                    self.spec_ring() == old(self).spec_ring(),
                    0 < self.spec_ring() <= usize::MAX / 2,
                    (self.spec_ring() - 1) * (self.spec_ring() - 1) <= usize::MAX,
                    self.monkeys@.len() == m0.len(),
                    self.inspection@.len() == ins0.len(),
                    ins0.len() == m0.len(),
                    forall|k: int|
                        0 <= k < m0.len() ==> (#[trigger] self.monkeys@[k]).operation == m0[
                            k
                        ].operation && self.monkeys@[k].test == m0[k].test,
                    forall|k: int|
                        0 <= k < m0.len() ==> !((#[trigger] m0[k]).operation.operator is Sub),
                    forall|k: int|
                        0 <= k < m0.len() ==> {
                            let t = (#[trigger] m0[k]).test;
                            &&& t.if_true < m0.len()
                            &&& t.if_false < m0.len()
                            &&& t.if_true != k
                            &&& t.if_false != k
                        },
                    total_items(self.monkeys@) + queue@.len() == total_items(m0),
                    forall|k: int|
                        0 <= k < ins0.len() ==> ins0[k] <= #[trigger] self.inspection@[k],
                    forall|k: int|
                        monkey_index < k < ins0.len() ==> #[trigger] self.inspection@[k]
                            == ins0[k],
                    self.inspection@[monkey_index as int] + queue@.len() <= ins0[
                        monkey_index as int
                    ] + total_items(m0),
                    forall|k: int|
                        0 <= k < ins0.len() ==> (#[trigger] ins0[k]) + total_items(m0)
                            <= usize::MAX,
                decreases queue@.len(),
            {
                let worry_level = match queue.pop_front() {
                    Some(w) => w,
                    None => {
                        proof {
                            assert(false);
                        }
                        unreached()
                    },
                };
                let ring = self.ring;
                let op = self.monkeys[monkey_index].operation;
                proof {
                    assert(op == m0[monkey_index as int].operation);
                    assert(!(op.operator is Sub));
                }
                let worry_level = op.operate_under_ring(worry_level, ring);
                let throw_to = self.monkeys[monkey_index].throw_to(worry_level);
                proof {
                    assert(self.monkeys@[monkey_index as int].test == m0[
                        monkey_index as int
                    ].test);
                    assert(throw_to != monkey_index && throw_to < m0.len());
                }
                let ghost m_before = self.monkeys@;
                let mut mt = self.monkeys.remove(throw_to);
                mt.items.push_back(worry_level);
                self.monkeys.insert(throw_to, mt);
                proof {
                    assert(self.monkeys@ =~= m_before.update(
                        throw_to as int,
                        self.monkeys@[throw_to as int],
                    ));
                    lemma_items_one_change(
                        m_before,
                        self.monkeys@,
                        throw_to as int,
                        m0.len() as int,
                    );
                    lemma_ring_same(m_before, self.monkeys@, m0.len() as int);
                }
                let counted = self.inspection[monkey_index];
                self.inspection[monkey_index] = counted + 1;
            }
            monkey_index += 1;
        }
    }

    /// The product of the two largest inspection counters, computed by
    /// partially sorting a copy of the counters.
    pub fn monkey_business(&self) -> (r: usize)
        requires
            self.spec_inspection().len() >= 2,
            forall|i: int, j: int|
                0 <= i < self.spec_inspection().len() && 0 <= j < self.spec_inspection().len()
                    ==> (#[trigger] self.spec_inspection()[i]) * (
                #[trigger] self.spec_inspection()[j]) <= usize::MAX,
        ensures
            exists|s: Seq<usize>|
                {
                    &&& (#[trigger] s.to_multiset()) == self.spec_inspection().to_multiset()
                    &&& s.len() == self.spec_inspection().len()
                    &&& forall|i: int, j: int| 0 <= i < j < s.len() && i <= 1 ==> s[i] >= s[j]
                    &&& r == s[0] * s[1]
                },
    {
        let mut inspections = self.inspection.clone();
        proof {
            assert(inspections@ =~= self.inspection@);
        }
        crate::partialsort::partial_sort(&mut inspections, 2);
        proof {
            let s = inspections@;
            assert(s.to_multiset().len() == s.len()) by {
                vstd::seq_lib::to_multiset_len(s);
            }
            assert(self.spec_inspection().to_multiset().len()
                == self.spec_inspection().len()) by {
                vstd::seq_lib::to_multiset_len(self.spec_inspection());
            }
            assert(self.spec_inspection().contains(s[0])
                && self.spec_inspection().contains(s[1])) by {
                broadcast use vstd::seq_lib::group_to_multiset_ensures;

                assert(s.contains(s[0]));
                assert(s.contains(s[1]));
                assert(s.to_multiset().count(s[0]) > 0);
                assert(s.to_multiset().count(s[1]) > 0);
                assert(self.spec_inspection().to_multiset().count(s[0]) > 0);
                assert(self.spec_inspection().to_multiset().count(s[1]) > 0);
            }
            let i0 = choose|i: int|
                0 <= i < self.spec_inspection().len() && self.spec_inspection()[i] == s[0];
            let i1 = choose|i: int|
                0 <= i < self.spec_inspection().len() && self.spec_inspection()[i] == s[1];
            assert(self.spec_inspection()[i0] * self.spec_inspection()[i1] <= usize::MAX);
            assert(s[0] * s[1] <= usize::MAX);
        }
        inspections[0] * inspections[1]
    }

    /// Releases the monkeys.
    pub fn monkeys(self) -> (r: Vec<Monkey>)
        ensures
            r@ == self.spec_monkeys(),
    {
        self.monkeys
    }
}

/// Monkeys with pointwise equal tests have equal ring products.
proof fn lemma_ring_same(m1: Seq<Monkey>, m2: Seq<Monkey>, i: int)
    requires
        m1.len() == m2.len(),
        0 <= i <= m1.len(),
        forall|k: int| 0 <= k < m1.len() ==> (#[trigger] m2[k]).test == m1[k].test,
    ensures
        ring_prefix(m2, i) == ring_prefix(m1, i),
    decreases i,
{
    if i > 0 {
        lemma_ring_same(m1, m2, i - 1);
    }
}

/// Changing one monkey's queue changes the total by exactly the difference
/// at that position.
proof fn lemma_items_one_change(m1: Seq<Monkey>, m2: Seq<Monkey>, a: int, i: int)
    requires
        m1.len() == m2.len(),
        0 <= a < m1.len(),
        0 <= i <= m1.len(),
        forall|k: int|
            0 <= k < m1.len() && k != a ==> (#[trigger] m2[k]).items@.len() == m1[
                k
            ].items@.len(),
    ensures
        items_prefix(m2, i) == items_prefix(m1, i) + (if a < i {
            m2[a].items@.len() - m1[a].items@.len()
        } else {
            0
        }),
    decreases i,
{
    if i > 0 {
        lemma_items_one_change(m1, m2, a, i - 1);
    }
}

/// Every single queue is at most the total, the totals being sums of
/// non-negative lengths.
proof fn lemma_queue_le_total(m: Seq<Monkey>, a: int)
    requires
        0 <= a < m.len(),
    ensures
        m[a].items@.len() <= total_items(m),
        0 <= total_items(m),
    decreases m.len(),
{
    lemma_items_prefix_bounds(m, a, m.len() as int);
}

/// Prefix sums of queue lengths are monotone and dominate each member.
proof fn lemma_items_prefix_bounds(m: Seq<Monkey>, a: int, i: int)
    requires
        0 <= a < m.len(),
        0 <= i <= m.len(),
    ensures
        0 <= items_prefix(m, i),
        a < i ==> m[a].items@.len() <= items_prefix(m, i),
    decreases i,
{
    if i > 0 {
        lemma_items_prefix_bounds(m, a, i - 1);
    }
}

} // verus!