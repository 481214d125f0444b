//! The state handed to and from the external interpreter for one run: the
//! current continuation, the control registers, the step count, the gas, and
//! the data committed by the run.

use crate::cell::Cell;
use crate::error::Error;
use crate::stack::{Continuation, SaveList, StackItem};
use vstd::prelude::*;

verus! {

/// Gas: the limit, the credit, the largest limit, the price, and what is left
/// of the starting budget.
pub struct Gas {
    limit: i64,
    credit: i64,
    limit_max: i64,
    price: i64,
    remaining: i64,
    base: i64,
}

impl Gas {
    #[verifier::type_invariant]
    spec fn inv(self) -> bool {
        &&& self.remaining <= self.base
        &&& self.base - self.remaining <= i64::MAX
    }

    pub closed spec fn spec_limit(&self) -> i64 {
        self.limit
    }

    pub closed spec fn spec_credit(&self) -> i64 {
        self.credit
    }

    pub closed spec fn spec_price(&self) -> i64 {
        self.price
    }

    pub closed spec fn spec_limit_max(&self) -> i64 {
        self.limit_max
    }

    pub closed spec fn spec_remaining(&self) -> i64 {
        self.remaining
    }

    /// Gas spent so far.
    pub closed spec fn spec_used(&self) -> int {
        self.base - self.remaining
    }

    /// A budget of `limit` plus `credit`, nothing spent.
    pub fn new(limit: i64, credit: i64, limit_max: i64, price: i64) -> (r: Gas)
        requires
            i64::MIN <= limit + credit <= i64::MAX,
        ensures
            r.spec_limit() == limit,
            r.spec_credit() == credit,
            r.spec_limit_max() == limit_max,
            r.spec_price() == price,
            r.spec_used() == 0,
            r.spec_remaining() == limit + credit,
    {
        let base = limit + credit;
        Gas { limit, credit, limit_max, price, remaining: base, base }
    }

    /// No budget at all.
    pub fn empty() -> (r: Gas)
        ensures
            r.spec_limit() == 0,
            r.spec_credit() == 0,
            r.spec_limit_max() == 0,
            r.spec_price() == 0,
            r.spec_used() == 0,
    {
        Gas { limit: 0, credit: 0, limit_max: 0, price: 0, remaining: 0, base: 0 }
    }

    /// Gas as the interpreter left it: a starting budget `base` of which
    /// `remaining` is left; `Error::Bounds` if more is left than there was, or
    /// the gas spent does not fit in 64 bits.
    pub fn with_state(limit: i64, credit: i64, limit_max: i64, price: i64, remaining: i64, base: i64) -> (r: Result<
        Gas,
        Error,
    >)
        ensures
            remaining <= base && base - remaining <= i64::MAX ==> r.is_ok() && r.unwrap().spec_limit() == limit
                && r.unwrap().spec_credit() == credit && r.unwrap().spec_limit_max() == limit_max
                && r.unwrap().spec_price() == price && r.unwrap().spec_used() == base - remaining
                && r.unwrap().spec_remaining() == remaining,
            !(remaining <= base && base - remaining <= i64::MAX) ==> r == Err::<Gas, Error>(Error::Bounds),
    {
        if remaining > base || (remaining < 0 && base > i64::MAX + remaining) {
            return Err(Error::Bounds);
        }
        Ok(Gas { limit, credit, limit_max, price, remaining, base })
    }

    pub fn limit(&self) -> (r: i64)
        ensures
            r == self.spec_limit(),
    {
        self.limit
    }

    pub fn credit(&self) -> (r: i64)
        ensures
            r == self.spec_credit(),
    {
        self.credit
    }

    pub fn price(&self) -> (r: i64)
        ensures
            r == self.spec_price(),
    {
        self.price
    }

    pub fn limit_max(&self) -> (r: i64)
        ensures
            r == self.spec_limit_max(),
    {
        self.limit_max
    }

    /// Gas spent so far.
    pub fn used(&self) -> (r: i64)
        ensures
            r == self.spec_used(),
    {
        proof {
            use_type_invariant(self);
        }
        self.base - self.remaining
    }

    /// Gas left of the starting budget.
    pub fn remaining(&self) -> (r: i64)
        ensures
            r == self.spec_remaining(),
    {
        self.remaining
    }
}

/// The state of a machine between runs.
pub struct VmState {
    pub cc: Continuation,
    pub regs: SaveList,
    pub steps: u32,
    pub gas: Gas,
    /// The persistent data committed by the run, if it committed.
    pub committed_c4: Option<Cell>,
    /// The output actions committed by the run, if it committed.
    pub committed_c5: Option<Cell>,
}

impl VmState {
    /// A state that has made no steps and committed nothing.
    pub fn new(cc: Continuation, regs: SaveList, gas: Gas) -> (r: VmState)
        ensures
            r.cc@ == cc@,
            r.regs@ == regs@,
            r.steps == 0,
            r.gas == gas,
            r.committed_c4 is None,
            r.committed_c5 is None,
    {
        VmState { cc, regs, steps: 0, gas, committed_c4: None, committed_c5: None }
    }
}

/// How a run of the interpreter ended.
pub enum Outcome {
    /// It ran to an exit code.
    Exit(i32),
    /// It stopped on an exception of the machine, with its code and value.
    Exception(i32, StackItem),
    /// It failed otherwise.
    Failure,
}

/// What a run hands back: the new state, the exit or exception code, and the
/// value of the exception, if one was raised.
pub struct VmResult {
    pub state: VmState,
    pub exit_code: i32,
    pub exception_value: Option<StackItem>,
}

/// Settings of a run: the capabilities of the machine and whether each step is traced.
pub struct RunConfig {
    pub capabilities: u64,
    pub trace: bool,
}

/// Builds the result of a run from how it ended and what the interpreter left:
/// the exit code or the exception's code and value; the committed data and
/// actions only if the run committed (`committed` holds both), never otherwise.
/// A failure that is not an exception of the machine is `Error::Execution`.
pub fn finish_run(
    outcome: Outcome,
    cc: Continuation,
    regs: SaveList,
    steps: u32,
    gas: Gas,
    committed: Option<(Cell, Cell)>,
) -> (r: Result<VmResult, Error>)
    ensures
        outcome is Failure ==> r == Err::<VmResult, Error>(Error::Execution),
        !(outcome is Failure) ==> r.is_ok() && {
            let res = r.unwrap();
            &&& res.state.cc@ == cc@
            &&& res.state.regs@ == regs@
            &&& res.state.steps == steps
            &&& res.state.gas == gas
            &&& match committed {
                Some((c4, c5)) => res.state.committed_c4 is Some && res.state.committed_c4.unwrap()@ == c4@
                    && res.state.committed_c5 is Some && res.state.committed_c5.unwrap()@ == c5@,
                None => res.state.committed_c4 is None && res.state.committed_c5 is None,
            }
            &&& match outcome {
                Outcome::Exit(code) => res.exit_code == code && res.exception_value is None,
                Outcome::Exception(code, value) => res.exit_code == code && res.exception_value is Some
                    && res.exception_value.unwrap()@ == value@,
                Outcome::Failure => false,
            }
        },
{
    let (exit_code, exception_value) = match outcome {
        Outcome::Exit(code) => (code, None),
        Outcome::Exception(code, value) => (code, Some(value)),
        Outcome::Failure => {
            return Err(Error::Execution);
        },
    };
    let (committed_c4, committed_c5) = match committed {
        Some((c4, c5)) => (Some(c4), Some(c5)),
        None => (None, None),
    };
    let state = VmState { cc, regs, steps, gas, committed_c4, committed_c5 };
    Ok(VmResult { state, exit_code, exception_value })
}

} // verus!
