//! A small stack-oriented reverse-Polish language: a tokenizer that turns source text into
//! a flat tape of atoms, and a machine that runs the tape against a value stack.

use vstd::prelude::*;

pub mod atom;
pub mod error;
pub mod number;
pub mod parser;
pub mod roman;
pub mod smaz_codec;
pub mod strings;

use crate::atom::{call_spec, views, Atom, AtomView, BuiltIn, CallState};
use crate::error::{ParseError, RuntimeError};
use crate::number::{lemma_reduce_integer, Number};
use crate::parser::{tokenize, tokenize_spec};

verus! {

/// A parsed program.
#[derive(Debug, PartialEq)]
pub enum Expr {
    Constant(Atom),
    /// (arg1 arg2...func-name)
    Function(Vec<Atom>),
    /// (if predicate do-this)
    If(Box<Expr>, Box<Expr>),
    /// (if predicate do-this otherwise-do-this)
    IfElse(Box<Expr>, Box<Expr>, Box<Expr>),
}

/// The machine: a tape of atoms, a program counter into it, a value stack, and the text
/// that the program has printed.
pub struct Putt {
    /// Memory of the machine
    pub stack: Vec<Atom>,
    /// The last program parsed and not yet loaded
    pub src: Option<Expr>,
    /// Instructions
    pub inst: Vec<Atom>,
    /// Program counter, used for jumps
    pub pc: usize,
    /// Text printed so far
    pub out: String,
}

/// One step: an operation at `pc` runs, any other atom is pushed. Then `pc` moves on by
/// one, unless the operation was `Jmp`, which set it itself.
pub open spec fn step_spec(tape: Seq<AtomView>, st: CallState) -> Result<CallState, RuntimeError> {
    match tape[st.pc] {
        AtomView::BuiltIn(op) => match call_spec(op, st.stack, st.pc, tape.len() as int, st.out) {
            Ok(next) => if op == BuiltIn::Jmp {
                Ok(next)
            } else {
                Ok(CallState { stack: next.stack, pc: next.pc + 1, out: next.out })
            },
            Err(e) => Err(e),
        },
        v => Ok(CallState { stack: st.stack.push(v), pc: st.pc + 1, out: st.out }),
    }
}

/// Steps until `pc` leaves the tape, an operation fails, or `fuel` steps have run with tape
/// left (then `StepLimit` reports `limit`). Gives the last state and how the run ended.
pub open spec fn run_spec(tape: Seq<AtomView>, st: CallState, fuel: nat, limit: u64) -> (
    CallState,
    Result<(), RuntimeError>,
)
    decreases fuel,
{
    if st.pc < 0 || st.pc >= tape.len() {
        (st, Ok(()))
    } else if fuel == 0 {
        (st, Err(RuntimeError::StepLimit { steps: limit }))
    } else {
        match step_spec(tape, st) {
            Ok(next) => run_spec(tape, next, (fuel - 1) as nat, limit),
            Err(e) => (st, Err(e)),
        }
    }
}

/// The atoms that loading the expression appends to the tape: those of a flat program,
/// or the one constant.
pub open spec fn loaded(src: Option<Expr>) -> Seq<AtomView> {
    match src {
        Some(Expr::Function(v)) => views(v@),
        Some(Expr::Constant(a)) => seq![a@],
        _ => Seq::empty(),
    }
}

/// The tape `2 0 Jmp`, which jumps back to its start.
pub open spec fn jump_back_tape() -> Seq<AtomView> {
    seq![
        AtomView::Num(Number::from_int_spec(2)),
        AtomView::Num(Number::from_int_spec(0)),
        AtomView::BuiltIn(BuiltIn::Jmp),
    ]
}

/// Run from its start, the tape `2 0 Jmp` loops: whatever the step budget, the run ends by
/// using it up, never with an invalid jump target, and each round leaves one more 2 on the
/// stack.
pub proof fn lemma_jump_back_loops(s: Seq<AtomView>, out: Seq<char>, fuel: nat, limit: u64)
    ensures
        run_spec(jump_back_tape(), CallState { stack: s, pc: 0, out }, fuel, limit).1 == Err::<
            (),
            RuntimeError,
        >(RuntimeError::StepLimit { steps: limit }),
    decreases fuel,
{
    let tape = jump_back_tape();
    let stop = Err::<(), RuntimeError>(RuntimeError::StepLimit { steps: limit });
    let two = AtomView::Num(Number::from_int_spec(2));
    let zero = AtomView::Num(Number::from_int_spec(0));
    let st0 = CallState { stack: s, pc: 0, out };
    let st1 = CallState { stack: s.push(two), pc: 1, out };
    let st2 = CallState { stack: s.push(two).push(zero), pc: 2, out };
    assert(tape.len() == 3);
    if fuel >= 1 {
        assert(step_spec(tape, st0) == Ok::<CallState, RuntimeError>(st1));
        assert(run_spec(tape, st0, fuel, limit) == run_spec(tape, st1, (fuel - 1) as nat, limit));
    }
    if fuel >= 2 {
        assert(step_spec(tape, st1) == Ok::<CallState, RuntimeError>(st2));
        assert(run_spec(tape, st1, (fuel - 1) as nat, limit) == run_spec(
            tape,
            st2,
            (fuel - 2) as nat,
            limit,
        ));
    }
    if fuel >= 3 {
        let st3 = CallState { stack: s.push(two), pc: 0, out };
        lemma_reduce_integer(0);
        assert(s.push(two).push(zero).drop_last() =~= s.push(two));
        assert(Number::from_int_spec(0).trunc_spec() == 0);
        assert(step_spec(tape, st2) == Ok::<CallState, RuntimeError>(st3));
        lemma_jump_back_loops(s.push(two), out, (fuel - 3) as nat, limit);
        assert(run_spec(tape, st2, (fuel - 2) as nat, limit) == run_spec(
            tape,
            st3,
            (fuel - 3) as nat,
            limit,
        ));
    } else if fuel == 2 {
        assert(run_spec(tape, st2, 0, limit).1 == stop);
    } else if fuel == 1 {
        assert(run_spec(tape, st1, 0, limit).1 == stop);
    }
    assert(run_spec(tape, st0, fuel, limit).1 == stop);
}

/// Tokenizes the source text as one flat program.
pub fn parse_expr(src: &str) -> (r: Result<Expr, ParseError>)
    ensures
        match tokenize_spec(src@) {
            Ok(s) => r matches Ok(Expr::Function(v)) && views(v@) == s,
            Err(e) => r == Err::<Expr, ParseError>(e),
        },
{
    match tokenize(src) {
        Ok(v) => Ok(Expr::Function(v)),
        Err(e) => Err(e),
    }
}

impl Putt {
    /// The state that operations read and write.
    pub open spec fn state(&self) -> CallState {
        CallState { stack: views(self.stack@), pc: self.pc as int, out: self.out@ }
    }

    /// Create a new machine
    pub fn new() -> (r: Self)
        ensures
            r.stack@.len() == 0,
            r.src is None,
            r.inst@.len() == 0,
            r.pc == 0,
            r.out@.len() == 0,
    {
        Putt { stack: Vec::new(), src: None, inst: Vec::new(), pc: 0, out: String::new() }
    }

    /// Parses the source text and keeps it as the program to load next; on an error the
    /// machine is left as it was.
    pub fn parse(&mut self, src: &str) -> (r: Result<(), ParseError>)
        ensures
            match tokenize_spec(src@) {
                Ok(s) => r is Ok && (final(self).src matches Some(Expr::Function(v)) && views(v@)
                    == s),
                Err(e) => r == Err::<(), ParseError>(e) && final(self).src == old(self).src,
            },
            final(self).stack == old(self).stack,
            final(self).inst == old(self).inst,
            final(self).pc == old(self).pc,
            final(self).out == old(self).out,
    {
        match parse_expr(src) {
            Ok(e) => {
                self.src = Some(e);
                Ok(())
            },
            Err(e) => Err(e),
        }
    }

    /// Appends the atoms to the tape.
    pub fn load(&mut self, tokens: Vec<Atom>)
        ensures
            final(self).inst@ == old(self).inst@ + tokens@,
            final(self).stack == old(self).stack,
            final(self).src == old(self).src,
            final(self).pc == old(self).pc,
            final(self).out == old(self).out,
    {
        let mut tokens = tokens;
        self.inst.append(&mut tokens);
    }

    /// Runs the atom at `pc`.
    pub fn step(&mut self) -> (r: Result<(), RuntimeError>)
        requires
            old(self).pc < old(self).inst@.len(),
        ensures
            match step_spec(views(old(self).inst@), old(self).state()) {
                Ok(st) => r is Ok && final(self).state() == st,
                Err(e) => r == Err::<(), RuntimeError>(e) && final(self).state() == old(
                    self,
                ).state(),
            },
            final(self).inst == old(self).inst,
            final(self).src == old(self).src,
    {
        let n = self.inst.len();
        let ghost tape = views(self.inst@);
        assert(tape[self.pc as int] == self.inst@[self.pc as int]@);
        match &self.inst[self.pc] {
            Atom::BuiltIn(op) => {
                let op = *op;
                let r = op.call(&mut self.stack, &mut self.pc, n, &mut self.out);
                if r.is_ok() && op != BuiltIn::Jmp {
                    self.pc = self.pc + 1;
                }
                r
            },
            a => {
                let v = a.duplicate();
                let ghost before = self.stack@;
                self.stack.push(v);
                self.pc = self.pc + 1;
                assert(views(self.stack@) =~= views(before).push(v@));
                Ok(())
            },
        }
    }

    /// Runs the tape from `pc` until `pc` leaves it, an operation fails, or `max_steps`
    /// steps have run with tape left.
    pub fn run(&mut self, max_steps: u64) -> (r: Result<(), RuntimeError>)
        ensures
            ({
                let (st, res) = run_spec(
                    views(old(self).inst@),
                    old(self).state(),
                    max_steps as nat,
                    max_steps,
                );
                final(self).state() == st && r == res
            }),
            final(self).inst == old(self).inst,
            final(self).src == old(self).src,
    {
        let ghost tape = views(self.inst@);
        let mut fuel = max_steps;
        loop
            invariant
                views(self.inst@) == tape,
                self.inst == old(self).inst,
                self.src == old(self).src,
                run_spec(tape, old(self).state(), max_steps as nat, max_steps) == run_spec(
                    tape,
                    self.state(),
                    fuel as nat,
                    max_steps,
                ),
            decreases fuel,
        {
            if self.pc >= self.inst.len() {
                return Ok(());
            }
            if fuel == 0 {
                return Err(RuntimeError::StepLimit { steps: max_steps });
            }
            let r = self.step();
            if let Err(e) = r {
                return Err(e);
            }
            fuel = fuel - 1;
        }
    }

    /// Loads the program that `parse` kept onto the tape, then runs as `run` does.
    pub fn eval_expression(&mut self, max_steps: u64) -> (r: Result<(), RuntimeError>)
        ensures
            ({
                let tape = views(old(self).inst@) + loaded(old(self).src);
                let (st, res) = run_spec(tape, old(self).state(), max_steps as nat, max_steps);
                views(final(self).inst@) == tape && final(self).state() == st && r == res
            }),
            final(self).src is None,
    {
        let ghost before = views(self.inst@);
        match self.src.take() {
            Some(Expr::Function(v)) => {
                let ghost added = views(v@);
                self.load(v);
                assert(views(self.inst@) =~= before + added);
            },
            Some(Expr::Constant(a)) => {
                let ghost av = a@;
                self.inst.push(a);
                assert(views(self.inst@) =~= before + seq![av]);
            },
            _ => {
                assert(views(self.inst@) =~= before + Seq::<AtomView>::empty());
            },
        }
        self.run(max_steps)
    }

    /// The value on top of the stack, the result of the program.
    pub fn peek_top(&self) -> (r: Option<Atom>)
        ensures
            self.stack@.len() == 0 ==> r is None,
            self.stack@.len() > 0 ==> (r matches Some(a) && a@ == self.stack@.last()@),
    {
        if self.stack.len() == 0 {
            None
        } else {
            Some(self.stack[self.stack.len() - 1].duplicate())
        }
    }
}

} // verus!
