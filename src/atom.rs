use vstd::prelude::*;

use vstd::utf8::*;

use crate::error::RuntimeError;
use crate::number::{Fault, Number};
use crate::smaz_codec::{compress_bytes, decompress_bytes, smaz_compressed, smaz_decompressed};
use crate::strings::{
    find_high_byte, has_high_byte, lemma_utf8_has_no_high_byte, push_char, push_text,
    string_from_utf8,
};

verus! {

/// The built-in operations of the language.
#[derive(Clone, Copy, Debug, PartialEq, Eq, Structural)]
pub enum BuiltIn {
    // Operators
    Plus,
    Minus,
    Times,
    Divide,
    Equal,
    Power,
    Root,
    Modulus,
    Factorial,
    Negate,
    Abs,
    Range,
    Sum,
    Avg,
    // Stack operators
    Len,
    Swap,
    Dupe,
    Drop,
    Clear,
    Jmp,
    // Keywords
    Not,
    Print,
    PrintLn,
    Cmp,
    Dcmp,
}

/// A value of the language: on the tape, a literal or an operation; on the stack, a
/// number, a text or a list of numbers.
#[derive(Clone, Debug, PartialEq)]
pub enum Atom {
    Num(Number),
    Str(String),
    Arr(Vec<Number>),
    BuiltIn(BuiltIn),
}

/// The kind of an atom, as errors report it.
#[derive(Clone, Copy, Debug, PartialEq, Eq, Structural)]
pub enum Kind {
    Number,
    Text,
    List,
    Operation,
}

/// An atom as a mathematical value.
pub enum AtomView {
    Num(Number),
    Str(Seq<char>),
    Arr(Seq<Number>),
    BuiltIn(BuiltIn),
}

impl View for Atom {
    type V = AtomView;

    open spec fn view(&self) -> AtomView {
        match self {
            Atom::Num(n) => AtomView::Num(*n),
            Atom::Str(s) => AtomView::Str(s@),
            Atom::Arr(v) => AtomView::Arr(v@),
            Atom::BuiltIn(b) => AtomView::BuiltIn(*b),
        }
    }
}

pub open spec fn views(s: Seq<Atom>) -> Seq<AtomView> {
    s.map_values(|a: Atom| a@)
}

pub open spec fn builtin_text() -> Seq<char> {
    seq!['B', 'u', 'i', 'l', 't', 'I', 'n']
}

/// The decimal forms of the numbers, separated by single spaces.
pub open spec fn joined_text(v: Seq<Number>) -> Seq<char>
    decreases v.len(),
{
    if v.len() == 0 {
        Seq::empty()
    } else if v.len() == 1 {
        v[0].text_spec()
    } else {
        joined_text(v.drop_last()) + seq![' '] + v.last().text_spec()
    }
}

impl AtomView {
    /// Equality of values: numbers by their value, lists number by number, the rest as
    /// they are.
    pub open spec fn same_value(self, o: AtomView) -> bool {
        match (self, o) {
            (AtomView::Num(a), AtomView::Num(b)) => a.same_value(b),
            (AtomView::Arr(a), AtomView::Arr(b)) => a.len() == b.len() && forall|i: int|
                0 <= i < a.len() ==> (#[trigger] a[i]).same_value(b[i]),
            _ => self == o,
        }
    }

    pub open spec fn kind(self) -> Kind {
        match self {
            AtomView::Num(_) => Kind::Number,
            AtomView::Str(_) => Kind::Text,
            AtomView::Arr(_) => Kind::List,
            AtomView::BuiltIn(_) => Kind::Operation,
        }
    }

    /// How the value is shown: numbers in decimal, texts as they are, lists as their
    /// numbers separated by spaces.
    pub open spec fn text(self) -> Seq<char> {
        match self {
            AtomView::Num(n) => n.text_spec(),
            AtomView::Str(s) => s,
            AtomView::Arr(v) => joined_text(v),
            AtomView::BuiltIn(_) => builtin_text(),
        }
    }
}

impl Atom {
    pub fn kind(&self) -> (r: Kind)
        ensures
            r == self@.kind(),
    {
        match self {
            Atom::Num(_) => Kind::Number,
            Atom::Str(_) => Kind::Text,
            Atom::Arr(_) => Kind::List,
            Atom::BuiltIn(_) => Kind::Operation,
        }
    }

    /// Appends how the value is shown to `out`.
    pub fn write_text(&self, out: &mut String)
        ensures
            final(out)@ == old(out)@ + self@.text(),
    {
        match self {
            Atom::Num(n) => n.write_text(out),
            Atom::Str(s) => push_text(out, s.as_str()),
            Atom::Arr(v) => {
                let ghost start = old(out)@;
                let mut i: usize = 0;
                while i < v.len()
                    invariant
                        i <= v@.len(),
                        out@ == start + joined_text(v@.subrange(0, i as int)),
                    decreases v@.len() - i,
                {
                    let ghost before = out@;
                    if i > 0 {
                        push_char(out, ' ');
                    }
                    v[i].write_text(out);
                    proof {
                        let w = v@.subrange(0, i + 1);
                        assert(w.drop_last() =~= v@.subrange(0, i as int));
                        if i == 0 {
                            assert(joined_text(v@.subrange(0, 0)) =~= Seq::<char>::empty());
                        }
                    }
                    i = i + 1;
                    assert(out@ =~= start + joined_text(v@.subrange(0, i as int)));
                }
                assert(v@.subrange(0, v@.len() as int) =~= v@);
            },
            Atom::BuiltIn(_) => {
                push_text(out, "BuiltIn");
                proof {
                    reveal_strlit("BuiltIn");
                    assert(old(out)@ + "BuiltIn"@ =~= old(out)@ + builtin_text());
                }
            },
        }
    }

    /// How the value is shown.
    pub fn render(&self) -> (r: String)
        ensures
            r@ == self@.text(),
    {
        let mut s = String::new();
        self.write_text(&mut s);
        assert(s@ =~= self@.text());
        s
    }

    /// An atom with the same value.
    pub fn duplicate(&self) -> (r: Atom)
        ensures
            r@ == self@,
    {
        match self {
            Atom::Num(n) => Atom::Num(*n),
            Atom::Str(s) => Atom::Str(s.clone()),
            Atom::Arr(v) => {
                let mut w: Vec<Number> = Vec::new();
                let mut i: usize = 0;
                while i < v.len()
                    invariant
                        i <= v@.len(),
                        w@ == v@.subrange(0, i as int),
                    decreases v@.len() - i,
                {
                    w.push(v[i]);
                    i = i + 1;
                    assert(w@ =~= v@.subrange(0, i as int));
                }
                assert(w@ =~= v@);
                Atom::Arr(w)
            },
            Atom::BuiltIn(b) => Atom::BuiltIn(*b),
        }
    }

    /// Whether the two atoms hold the same value; numbers compare by value.
    pub fn same_as(&self, o: &Atom) -> (r: bool)
        ensures
            r == self@.same_value(o@),
    {
        match (self, o) {
            (Atom::Num(a), Atom::Num(b)) => a.equals(b),
            (Atom::Str(a), Atom::Str(b)) => *a == *b,
            (Atom::Arr(a), Atom::Arr(b)) => {
                if a.len() != b.len() {
                    return false;
                }
                let mut i: usize = 0;
                while i < a.len()
                    invariant
                        i <= a@.len() == b@.len(),
                        self@ == AtomView::Arr(a@),
                        o@ == AtomView::Arr(b@),
                        forall|j: int| 0 <= j < i ==> (#[trigger] a@[j]).same_value(b@[j]),
                    decreases a@.len() - i,
                {
                    if !a[i].equals(&b[i]) {
                        return false;
                    }
                    i = i + 1;
                }
                true
            },
            (Atom::BuiltIn(a), Atom::BuiltIn(b)) => *a == *b,
            _ => false,
        }
    }
}


/// What an operation reads and writes besides the tape: the stack, the program counter and
/// the text written so far.
pub struct CallState {
    pub stack: Seq<AtomView>,
    pub pc: int,
    pub out: Seq<char>,
}

/// A successful operation that leaves `pc` where it was.
pub open spec fn updated(stack: Seq<AtomView>, pc: int, out: Seq<char>) -> Result<
    CallState,
    RuntimeError,
> {
    Ok(CallState { stack, pc, out })
}

impl BuiltIn {
    /// How many values the operation needs on the stack.
    pub open spec fn needed(self) -> nat {
        match self {
            BuiltIn::Plus | BuiltIn::Minus | BuiltIn::Times | BuiltIn::Divide | BuiltIn::Equal
            | BuiltIn::Power | BuiltIn::Modulus | BuiltIn::Range | BuiltIn::Swap => 2,
            BuiltIn::Len | BuiltIn::Clear => 0,
            _ => 1,
        }
    }

    /// The operations that combine two numbers into one.
    pub open spec fn is_arithmetic(self) -> bool {
        matches!(self, BuiltIn::Plus | BuiltIn::Minus | BuiltIn::Times | BuiltIn::Divide
            | BuiltIn::Power | BuiltIn::Modulus)
    }

    /// The operations that, on two texts, join them.
    pub open spec fn concatenates(self) -> bool {
        matches!(self, BuiltIn::Plus | BuiltIn::Minus)
    }

    /// The operations that map one number to one number.
    pub open spec fn is_unary(self) -> bool {
        matches!(self, BuiltIn::Root | BuiltIn::Factorial | BuiltIn::Negate | BuiltIn::Abs
            | BuiltIn::Not)
    }
}

pub open spec fn arith_spec(op: BuiltIn, x: Number, y: Number) -> Result<Number, Fault> {
    match op {
        BuiltIn::Plus => x.sum_spec(y),
        BuiltIn::Minus => x.difference_spec(y),
        BuiltIn::Times => x.product_spec(y),
        BuiltIn::Divide => x.quotient_spec(y),
        BuiltIn::Power => x.pow_spec(y),
        _ => x.remainder_spec(y),
    }
}

/// The logical negation: 1 becomes 0, every other number becomes 1.
pub open spec fn not_spec(x: Number) -> Number {
    if x.numer() == x.denom() {
        Number::from_int_spec(0)
    } else {
        Number::from_int_spec(1)
    }
}

pub open spec fn unary_spec(op: BuiltIn, x: Number) -> Result<Number, Fault> {
    match op {
        BuiltIn::Root => x.root_spec(),
        BuiltIn::Factorial => x.factorial_spec(),
        BuiltIn::Negate => Ok(x.negation_spec()),
        BuiltIn::Abs => Ok(x.magnitude_spec()),
        _ => Ok(not_spec(x)),
    }
}

/// The error for two operands that the operation does not take.
pub open spec fn mismatch(op: BuiltIn, a: AtomView, b: AtomView) -> RuntimeError {
    if op.concatenates() && a is Str {
        RuntimeError::TypeMismatch { operation: op, expected: Kind::Text, found: b.kind() }
    } else if a is Num {
        RuntimeError::TypeMismatch { operation: op, expected: Kind::Number, found: b.kind() }
    } else {
        RuntimeError::TypeMismatch { operation: op, expected: Kind::Number, found: a.kind() }
    }
}

/// The integers from `lo` to `hi`, both included, as numbers.
pub open spec fn range_spec(lo: int, hi: int) -> Seq<Number> {
    Seq::new(
        if hi >= lo {
            (hi - lo + 1) as nat
        } else {
            0
        },
        |i: int| Number::from_int_spec(lo + i),
    )
}

/// The sum of the numbers among `vals`, added from the last to the first; other values
/// count as nothing.
pub open spec fn sum_spec(vals: Seq<AtomView>) -> Result<Number, Fault>
    decreases vals.len(),
{
    if vals.len() == 0 {
        Ok(Number::from_int_spec(0))
    } else {
        match sum_spec(vals.subrange(1, vals.len() as int)) {
            Ok(t) => match vals[0] {
                AtomView::Num(x) => t.sum_spec(x),
                _ => Ok(t),
            },
            Err(f) => Err(f),
        }
    }
}

/// How many values below the count `Sum` and `Avg` take: the count's integer part, at
/// least 0 and at most what the stack holds.
pub open spec fn taken(c: Number, available: int) -> int {
    let k = c.trunc_spec();
    if k < 0 {
        0
    } else if k > available {
        available
    } else {
        k
    }
}

/// What running `op` does to the stack `s`, the program counter `pc` and the output `out`,
/// on a tape of `tape_len` atoms. On an error nothing changes.
pub open spec fn call_spec(
    op: BuiltIn,
    s: Seq<AtomView>,
    pc: int,
    tape_len: int,
    out: Seq<char>,
) -> Result<CallState, RuntimeError> {
    let n = s.len() as int;
    if n < op.needed() {
        Err(
            RuntimeError::StackUnderflow {
                operation: op,
                needed: op.needed() as usize,
                available: n as usize,
            },
        )
    } else if op.is_arithmetic() {
        let rest = s.subrange(0, n - 2);
        match (s[n - 2], s[n - 1]) {
            (AtomView::Num(x), AtomView::Num(y)) => match arith_spec(op, x, y) {
                Ok(z) => updated(rest.push(AtomView::Num(z)), pc, out),
                Err(f) => Err(RuntimeError::Arithmetic { operation: op, fault: f }),
            },
            (AtomView::Str(x), AtomView::Str(y)) => if op.concatenates() {
                updated(rest.push(AtomView::Str(x + y)), pc, out)
            } else {
                Err(mismatch(op, s[n - 2], s[n - 1]))
            },
            _ => Err(mismatch(op, s[n - 2], s[n - 1])),
        }
    } else if op.is_unary() {
        match s[n - 1] {
            AtomView::Num(x) => match unary_spec(op, x) {
                Ok(z) => updated(s.drop_last().push(AtomView::Num(z)), pc, out),
                Err(f) => Err(RuntimeError::Arithmetic { operation: op, fault: f }),
            },
            a => Err(
                RuntimeError::TypeMismatch { operation: op, expected: Kind::Number, found: a.kind() },
            ),
        }
    } else {
        match op {
            BuiltIn::Equal => {
                let v = if s[n - 2].same_value(s[n - 1]) {
                    1
                } else {
                    0
                };
                updated(s.subrange(0, n - 2).push(AtomView::Num(Number::from_int_spec(v))), pc, out)
            },
            BuiltIn::Range => match (s[n - 2], s[n - 1]) {
                (AtomView::Num(x), AtomView::Num(y)) => updated(
                    s.subrange(0, n - 2).push(
                        AtomView::Arr(range_spec(x.trunc_spec(), y.trunc_spec())),
                    ),
                    pc,
                    out,
                ),
                _ => Err(mismatch(op, s[n - 2], s[n - 1])),
            },
            BuiltIn::Swap => updated(s.subrange(0, n - 2).push(s[n - 1]).push(s[n - 2]), pc, out),
            BuiltIn::Sum | BuiltIn::Avg => match s[n - 1] {
                AtomView::Num(c) => {
                    let p = taken(c, n - 1);
                    match sum_spec(s.subrange(n - 1 - p, n - 1)) {
                        Ok(t) => if op == BuiltIn::Sum {
                            updated(s.subrange(0, n - 1 - p).push(AtomView::Num(t)), pc, out)
                        } else {
                            match t.quotient_spec(c) {
                                Ok(q) => updated(
                                    s.subrange(0, n - 1 - p).push(AtomView::Num(q)),
                                    pc,
                                    out,
                                ),
                                Err(f) => Err(RuntimeError::Arithmetic { operation: op, fault: f }),
                            }
                        },
                        Err(f) => Err(RuntimeError::Arithmetic { operation: op, fault: f }),
                    }
                },
                a => Err(
                    RuntimeError::TypeMismatch {
                        operation: op,
                        expected: Kind::Number,
                        found: a.kind(),
                    },
                ),
            },
            BuiltIn::Len => if n <= i64::MAX {
                updated(s.push(AtomView::Num(Number::from_int_spec(n))), pc, out)
            } else {
                Err(RuntimeError::Arithmetic { operation: op, fault: Fault::Overflow })
            },
            BuiltIn::Dupe => updated(s.push(s[n - 1]), pc, out),
            BuiltIn::Drop => updated(s.drop_last(), pc, out),
            BuiltIn::Clear => updated(Seq::empty(), pc, out),
            BuiltIn::Jmp => match s[n - 1] {
                AtomView::Num(x) => {
                    let t = x.trunc_spec();
                    if 0 <= t < tape_len {
                        Ok(CallState { stack: s.drop_last(), pc: t, out })
                    } else {
                        Err(RuntimeError::InvalidJumpTarget { target: t as i64, tape_length: tape_len as usize })
                    }
                },
                a => Err(
                    RuntimeError::TypeMismatch {
                        operation: op,
                        expected: Kind::Number,
                        found: a.kind(),
                    },
                ),
            },
            BuiltIn::Print => updated(s.drop_last(), pc, out + s[n - 1].text() + seq![' ']),
            BuiltIn::PrintLn => updated(s.drop_last(), pc, out + s[n - 1].text() + seq!['\n']),
            BuiltIn::Cmp => match s[n - 1] {
                AtomView::Str(t) => {
                    let c = smaz_compressed(encode_utf8(t));
                    if valid_utf8(c) {
                        updated(s.drop_last().push(AtomView::Str(decode_utf8(c))), pc, out)
                    } else {
                        Err(RuntimeError::DecodeError { operation: op })
                    }
                },
                a => Err(
                    RuntimeError::TypeMismatch { operation: op, expected: Kind::Text, found: a.kind() },
                ),
            },
            _ => match s[n - 1] {
                AtomView::Str(t) => {
                    let b = encode_utf8(t);
                    if has_high_byte(b) || !valid_utf8(smaz_decompressed(b)) {
                        Err(RuntimeError::DecodeError { operation: op })
                    } else {
                        updated(
                            s.drop_last().push(AtomView::Str(decode_utf8(smaz_decompressed(b)))),
                            pc,
                            out,
                        )
                    }
                },
                a => Err(
                    RuntimeError::TypeMismatch { operation: op, expected: Kind::Text, found: a.kind() },
                ),
            },
        }
    }
}


fn arith(op: BuiltIn, x: &Number, y: &Number) -> (r: Result<Number, Fault>)
    requires
        op.is_arithmetic(),
    ensures
        r == arith_spec(op, *x, *y),
{
    match op {
        BuiltIn::Plus => x.add(y),
        BuiltIn::Minus => x.sub(y),
        BuiltIn::Times => x.mul(y),
        BuiltIn::Divide => x.div(y),
        BuiltIn::Power => x.pow(y),
        _ => x.rem(y),
    }
}

fn unary(op: BuiltIn, x: &Number) -> (r: Result<Number, Fault>)
    requires
        op.is_unary(),
    ensures
        r == unary_spec(op, *x),
{
    match op {
        BuiltIn::Root => x.root(),
        BuiltIn::Factorial => x.factorial(),
        BuiltIn::Negate => Ok(x.neg()),
        BuiltIn::Abs => Ok(x.abs()),
        _ => {
            if x.numerator() == x.denominator() {
                Ok(Number::from_int(0))
            } else {
                Ok(Number::from_int(1))
            }
        },
    }
}

fn mismatch_exec(op: BuiltIn, a: &Atom, b: &Atom) -> (r: RuntimeError)
    ensures
        r == mismatch(op, a@, b@),
{
    let concatenates = op == BuiltIn::Plus || op == BuiltIn::Minus;
    match a {
        Atom::Str(_) if concatenates => RuntimeError::TypeMismatch {
            operation: op,
            expected: Kind::Text,
            found: b.kind(),
        },
        Atom::Num(_) => RuntimeError::TypeMismatch {
            operation: op,
            expected: Kind::Number,
            found: b.kind(),
        },
        _ => RuntimeError::TypeMismatch { operation: op, expected: Kind::Number, found: a.kind() },
    }
}

fn range_list(lo: i64, hi: i64) -> (r: Vec<Number>)
    requires
        lo > i64::MIN,
        hi > i64::MIN,
    ensures
        r@ == range_spec(lo as int, hi as int),
{
    let mut v: Vec<Number> = Vec::new();
    if hi < lo {
        assert(v@ =~= range_spec(lo as int, hi as int));
        return v;
    }
    let mut i: i64 = lo;
    while i <= hi
        invariant
            lo <= i <= hi + 1,
            lo > i64::MIN,
            hi >= lo,
            v@ == range_spec(lo as int, hi as int).subrange(0, i - lo),
        decreases hi + 1 - i,
    {
        v.push(Number::from_i64(i));
        assert(v@ =~= range_spec(lo as int, hi as int).subrange(0, i + 1 - lo));
        if i == hi {
            assert(v@ =~= range_spec(lo as int, hi as int));
            return v;
        }
        i = i + 1;
    }
    assert(v@ =~= range_spec(lo as int, hi as int));
    v
}

/// The sum of the numbers among `stack[from..to]`.
fn sum_range(stack: &Vec<Atom>, from: usize, to: usize) -> (r: Result<Number, Fault>)
    requires
        from <= to <= stack@.len(),
    ensures
        r == sum_spec(views(stack@).subrange(from as int, to as int)),
{
    let ghost vs = views(stack@);
    let mut total = Number::from_int(0);
    let mut i = to;
    assert(vs.subrange(to as int, to as int) =~= Seq::<AtomView>::empty());
    while i > from
        invariant
            from <= i <= to <= stack@.len(),
            vs == views(stack@),
            sum_spec(vs.subrange(i as int, to as int)) == Ok::<Number, Fault>(total),
        decreases i,
    {
        i = i - 1;
        let ghost w = vs.subrange(i as int, to as int);
        assert(w.subrange(1, w.len() as int) =~= vs.subrange(i + 1, to as int));
        assert(w[0] == stack@[i as int]@);
        match &stack[i] {
            Atom::Num(x) => match total.add(x) {
                Ok(t) => {
                    total = t;
                },
                Err(f) => {
                    proof {
                        lemma_sum_failure_stays(vs, from as int, i as int, to as int);
                    }
                    return Err(f);
                },
            },
            _ => {},
        }
    }
    Ok(total)
}

proof fn lemma_sum_failure_stays(vs: Seq<AtomView>, from: int, i: int, to: int)
    requires
        0 <= from <= i <= to <= vs.len(),
        sum_spec(vs.subrange(i, to)) is Err,
    ensures
        sum_spec(vs.subrange(from, to)) == sum_spec(vs.subrange(i, to)),
    decreases i - from,
{
    if from < i {
        let w = vs.subrange(i - 1, to);
        assert(w.subrange(1, w.len() as int) =~= vs.subrange(i, to));
        lemma_sum_failure_stays(vs, from, i - 1, to);
    }
}


impl BuiltIn {
    pub fn needed_exec(&self) -> (r: usize)
        ensures
            r == self.needed(),
    {
        match self {
            BuiltIn::Plus | BuiltIn::Minus | BuiltIn::Times | BuiltIn::Divide | BuiltIn::Equal
            | BuiltIn::Power | BuiltIn::Modulus | BuiltIn::Range | BuiltIn::Swap => 2,
            BuiltIn::Len | BuiltIn::Clear => 0,
            _ => 1,
        }
    }

    /// Runs the operation on `stack`. Only `Jmp` touches `pc`: it sets it to its target,
    /// which must lie on a tape of `tape_len` atoms. Text that the operation prints is
    /// appended to `out`. On an error, nothing is changed.
    #[verifier::rlimit(60)]
    pub fn call(&self, stack: &mut Vec<Atom>, pc: &mut usize, tape_len: usize, out: &mut String) -> (r:
        Result<(), RuntimeError>)
        ensures
            match call_spec(*self, views(old(stack)@), *old(pc) as int, tape_len as int, old(out)@) {
                Ok(st) => {
                    &&& r is Ok
                    &&& views(final(stack)@) == st.stack
                    &&& *final(pc) as int == st.pc
                    &&& final(out)@ == st.out
                },
                Err(e) => {
                    &&& r == Err::<(), RuntimeError>(e)
                    &&& final(stack)@ == old(stack)@
                    &&& *final(pc) == *old(pc)
                    &&& final(out)@ == old(out)@
                },
            },
            *self == BuiltIn::Cmp && r is Ok ==> call_spec(
                BuiltIn::Dcmp,
                views(final(stack)@),
                *final(pc) as int,
                tape_len as int,
                final(out)@,
            ) == Ok::<CallState, RuntimeError>(
                CallState { stack: views(old(stack)@), pc: *old(pc) as int, out: old(out)@ },
            ),
    {
        let op = *self;
        let n = stack.len();
        let ghost s = views(stack@);
        let needed = self.needed_exec();
        if n < needed {
            return Err(RuntimeError::StackUnderflow { operation: op, needed, available: n });
        }
        let result: Atom = match op {
            BuiltIn::Plus | BuiltIn::Minus | BuiltIn::Times | BuiltIn::Divide | BuiltIn::Power
            | BuiltIn::Modulus => {
                let r = match (&stack[n - 2], &stack[n - 1]) {
                    (Atom::Num(x), Atom::Num(y)) => match arith(op, x, y) {
                        Ok(z) => Atom::Num(z),
                        Err(f) => {
                            return Err(RuntimeError::Arithmetic { operation: op, fault: f });
                        },
                    },
                    (Atom::Str(x), Atom::Str(y)) => {
                        if op == BuiltIn::Plus || op == BuiltIn::Minus {
                            let mut t = x.clone();
                            push_text(&mut t, y.as_str());
                            Atom::Str(t)
                        } else {
                            return Err(mismatch_exec(op, &stack[n - 2], &stack[n - 1]));
                        }
                    },
                    (a, b) => {
                        return Err(mismatch_exec(op, a, b));
                    },
                };
                stack.truncate(n - 2);
                r
            },
            BuiltIn::Root | BuiltIn::Factorial | BuiltIn::Negate | BuiltIn::Abs | BuiltIn::Not => {
                let r = match &stack[n - 1] {
                    Atom::Num(x) => match unary(op, x) {
                        Ok(z) => Atom::Num(z),
                        Err(f) => {
                            return Err(RuntimeError::Arithmetic { operation: op, fault: f });
                        },
                    },
                    a => {
                        return Err(
                            RuntimeError::TypeMismatch {
                                operation: op,
                                expected: Kind::Number,
                                found: a.kind(),
                            },
                        );
                    },
                };
                stack.truncate(n - 1);
                r
            },
            BuiltIn::Equal => {
                let v = if stack[n - 2].same_as(&stack[n - 1]) {
                    1
                } else {
                    0
                };
                stack.truncate(n - 2);
                Atom::Num(Number::from_int(v))
            },
            BuiltIn::Range => {
                let r = match (&stack[n - 2], &stack[n - 1]) {
                    (Atom::Num(x), Atom::Num(y)) => Atom::Arr(range_list(x.trunc(), y.trunc())),
                    (a, b) => {
                        return Err(mismatch_exec(op, a, b));
                    },
                };
                stack.truncate(n - 2);
                r
            },
            BuiltIn::Swap => {
                let b = stack.pop().unwrap();
                let a = stack.pop().unwrap();
                stack.push(b);
                a
            },
            BuiltIn::Sum | BuiltIn::Avg => {
                let c = match &stack[n - 1] {
                    Atom::Num(c) => *c,
                    a => {
                        return Err(
                            RuntimeError::TypeMismatch {
                                operation: op,
                                expected: Kind::Number,
                                found: a.kind(),
                            },
                        );
                    },
                };
                let k = c.trunc();
                let p: usize = if k < 0 {
                    0
                } else if k as u64 > (n - 1) as u64 {
                    n - 1
                } else {
                    k as usize
                };
                let total = match sum_range(stack, n - 1 - p, n - 1) {
                    Ok(t) => t,
                    Err(f) => {
                        return Err(RuntimeError::Arithmetic { operation: op, fault: f });
                    },
                };
                let value = if op == BuiltIn::Sum {
                    total
                } else {
                    match total.div(&c) {
                        Ok(q) => q,
                        Err(f) => {
                            return Err(RuntimeError::Arithmetic { operation: op, fault: f });
                        },
                    }
                };
                stack.truncate(n - 1 - p);
                Atom::Num(value)
            },
            BuiltIn::Len => {
                if n as u64 > i64::MAX as u64 {
                    return Err(RuntimeError::Arithmetic { operation: op, fault: Fault::Overflow });
                }
                Atom::Num(Number::from_i64(n as i64))
            },
            BuiltIn::Dupe => stack[n - 1].duplicate(),
            BuiltIn::Drop => {
                stack.truncate(n - 1);
                assert(views(stack@) =~= s.drop_last());
                return Ok(());
            },
            BuiltIn::Clear => {
                stack.clear();
                assert(views(stack@) =~= Seq::<AtomView>::empty());
                return Ok(());
            },
            BuiltIn::Jmp => {
                let t = match &stack[n - 1] {
                    Atom::Num(x) => x.trunc(),
                    a => {
                        return Err(
                            RuntimeError::TypeMismatch {
                                operation: op,
                                expected: Kind::Number,
                                found: a.kind(),
                            },
                        );
                    },
                };
                if t < 0 || t as u64 >= tape_len as u64 {
                    return Err(RuntimeError::InvalidJumpTarget { target: t, tape_length: tape_len });
                }
                stack.truncate(n - 1);
                *pc = t as usize;
                assert(views(stack@) =~= s.drop_last());
                return Ok(());
            },
            BuiltIn::Print | BuiltIn::PrintLn => {
                let top = stack.pop().unwrap();
                top.write_text(out);
                if op == BuiltIn::Print {
                    push_char(out, ' ');
                } else {
                    push_char(out, '\n');
                }
                assert(views(stack@) =~= s.drop_last());
                return Ok(());
            },
            BuiltIn::Cmp => {
                let r = match &stack[n - 1] {
                    Atom::Str(t) => {
                        match compress_text(t) {
                            Some(u) => {
                                proof {
                                    lemma_cmp_round_trip(
                                        views(old(stack)@),
                                        t@,
                                        *old(pc) as int,
                                        tape_len as int,
                                        old(out)@,
                                    );
                                }
                                Atom::Str(u)
                            },
                            None => {
                                return Err(RuntimeError::DecodeError { operation: op });
                            },
                        }
                    },
                    a => {
                        return Err(
                            RuntimeError::TypeMismatch {
                                operation: op,
                                expected: Kind::Text,
                                found: a.kind(),
                            },
                        );
                    },
                };
                stack.truncate(n - 1);
                r
            },
            BuiltIn::Dcmp => {
                let r = match &stack[n - 1] {
                    Atom::Str(t) => {
                        let b = t.as_str().as_bytes();
                        if find_high_byte(b) {
                            return Err(RuntimeError::DecodeError { operation: op });
                        }
                        let d = match decompress_bytes(b) {
                            Some(d) => d,
                            None => {
                                return Err(RuntimeError::DecodeError { operation: op });
                            },
                        };
                        match string_from_utf8(d) {
                            Some(u) => Atom::Str(u),
                            None => {
                                return Err(RuntimeError::DecodeError { operation: op });
                            },
                        }
                    },
                    a => {
                        return Err(
                            RuntimeError::TypeMismatch {
                                operation: op,
                                expected: Kind::Text,
                                found: a.kind(),
                            },
                        );
                    },
                };
                stack.truncate(n - 1);
                r
            },
        };
        let ghost before = stack@;
        stack.push(result);
        assert(views(stack@) =~= views(before).push(result@));
        Ok(())
    }
}

/// An operation on two values, run on a stack that holds fewer than two, fails with
/// `StackUnderflow` naming what it needed and what was there; as for every failed
/// operation, the stack, the program counter and the output stay as they were.
pub proof fn lemma_binary_underflow(
    op: BuiltIn,
    s: Seq<AtomView>,
    pc: int,
    tape_len: int,
    out: Seq<char>,
)
    requires
        op == BuiltIn::Plus || op == BuiltIn::Minus || op == BuiltIn::Times || op
            == BuiltIn::Divide || op == BuiltIn::Equal || op == BuiltIn::Power || op
            == BuiltIn::Modulus || op == BuiltIn::Range || op == BuiltIn::Swap,
        s.len() < 2,
    ensures
        call_spec(op, s, pc, tape_len, out) == Err::<CallState, RuntimeError>(
            RuntimeError::StackUnderflow { operation: op, needed: 2, available: s.len() as usize },
        ),
{
}

/// The compressed form of the text as text, where its bytes are UTF-8; decompressing those
/// bytes gives the text's bytes back.
fn compress_text(t: &String) -> (r: Option<String>)
    ensures
        r is Some <==> valid_utf8(smaz_compressed(encode_utf8(t@))),
        r matches Some(u) ==> u@ == decode_utf8(smaz_compressed(encode_utf8(t@)))
            && smaz_decompressed(smaz_compressed(encode_utf8(t@))) == encode_utf8(t@),
{
    let c = compress_bytes(t.as_str().as_bytes());
    let ghost cb = c@;
    let r = string_from_utf8(c);
    proof {
        if r is Some {
            lemma_utf8_has_no_high_byte(cb);
        }
    }
    r
}

/// Where `Cmp` succeeds on a text, `Dcmp` on what it left gives back the stack, the
/// program counter and the output as they were before `Cmp`.
proof fn lemma_cmp_round_trip(s: Seq<AtomView>, t: Seq<char>, pc: int, tape_len: int, out: Seq<char>)
    requires
        s.len() >= 1,
        s.last() == AtomView::Str(t),
        valid_utf8(smaz_compressed(encode_utf8(t))),
        smaz_decompressed(smaz_compressed(encode_utf8(t))) == encode_utf8(t),
    ensures
        call_spec(BuiltIn::Cmp, s, pc, tape_len, out) matches Ok(st) && call_spec(
            BuiltIn::Dcmp,
            st.stack,
            st.pc,
            tape_len,
            st.out,
        ) == Ok::<CallState, RuntimeError>(CallState { stack: s, pc, out }),
{
    let c = smaz_compressed(encode_utf8(t));
    lemma_utf8_has_no_high_byte(c);
    decode_utf8_encode_utf8(c);
    encode_utf8_valid_utf8(t);
    encode_utf8_decode_utf8(t);
    let st = call_spec(BuiltIn::Cmp, s, pc, tape_len, out)->Ok_0;
    assert(st.stack == s.drop_last().push(AtomView::Str(decode_utf8(c))));
    assert(st.stack.last() == AtomView::Str(decode_utf8(c)));
    assert(st.stack.drop_last().push(AtomView::Str(t)) =~= s);
}

} // verus!
