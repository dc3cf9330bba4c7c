//! The control of the interpreter loop over a code sequence: which
//! instruction runs next, jumps, truth tests and `for` loops. The
//! interpreter holds the values; each step tells it what to do with them
//! and it answers with what the step needs to know.
use vstd::prelude::*;
use crate::ir::{code_view, IrInst, SInst};

verus! {

/// What a step is waiting for from the interpreter.
#[derive(Debug, Clone, Copy, PartialEq, Eq, Structural)]
pub enum Waiting {
    Nothing,
    /// The truth of the condition of the `JumpIfFalse` to this target.
    Truth(usize),
    /// The number of items of the list a `for` loop runs over.
    Items,
}

/// The control state: the next instruction, for each open `for` loop its
/// number of items and the index of the next one (innermost last), and what
/// the last action asked for.
#[derive(Debug)]
pub struct VmState {
    pub ip: usize,
    pub loops: Vec<(usize, usize)>,
    pub waiting: Waiting,
}

/// The mathematical view of a [`VmState`].
pub struct SVmState {
    pub ip: usize,
    pub loops: Seq<(usize, usize)>,
    pub waiting: Waiting,
}

impl View for VmState {
    type V = SVmState;

    open spec fn view(&self) -> SVmState {
        SVmState { ip: self.ip, loops: self.loops@, waiting: self.waiting }
    }
}

/// What the interpreter answers to an action.
#[derive(Debug, Clone, Copy, PartialEq, Eq, Structural)]
pub enum VmEvent {
    /// The action was carried out (and the first step of a run).
    Done,
    /// The popped condition was truthy or not.
    Truth(bool),
    /// The popped value is a list with this many items.
    Items(usize),
    /// The popped value is not a list.
    NotList,
}

/// What the interpreter does next.
#[derive(Debug, Clone, Copy, PartialEq, Eq, Structural)]
pub enum VmAction {
    /// Nothing: ask for the next step.
    Next,
    /// Carry out the instruction at this index on the values.
    Perform(usize),
    /// Pop the condition and answer whether it is truthy.
    PopTruth,
    /// Pop the list of a `for` loop, keep it, and answer with its length.
    PopList,
    /// Bind the variable of the `IterNext` at the first index to the item
    /// of the innermost loop's list at the second.
    Bind(usize, usize),
    /// Drop the innermost loop's list.
    EndLoop,
    /// Return the top of the stack, or null.
    Return,
    /// The code has run to its end.
    Halt,
}

/// Why the loop stops with an error.
#[derive(Debug, Clone, Copy, PartialEq, Eq, Structural)]
pub enum VmError {
    /// A `for` loop over a value that is not a list.
    ForNeedsList,
    /// An `IterNext` with no open loop.
    IterNextWithoutInit,
    /// An answer that does not fit what the last action asked for, or a
    /// wait that no instruction of the code can have asked for.
    UnexpectedEvent,
}

/// One step of the loop: after the answer `e` to the last action, the next
/// state and action.
pub open spec fn spec_vm_step(code: Seq<SInst>, s: SVmState, e: VmEvent) -> Result<(SVmState, VmAction), VmError> {
    if s.waiting != Waiting::Nothing && s.ip >= code.len() {
        Err(VmError::UnexpectedEvent)
    } else {
        match s.waiting {
            Waiting::Truth(t) => match e {
                VmEvent::Truth(b) => Ok((SVmState { ip: if b { (s.ip + 1) as usize } else { t }, waiting: Waiting::Nothing, ..s }, VmAction::Next)),
                _ => Err(VmError::UnexpectedEvent),
            },
            Waiting::Items => match e {
                VmEvent::Items(n) => Ok((SVmState { ip: (s.ip + 1) as usize, loops: s.loops.push((n, 0usize)), waiting: Waiting::Nothing }, VmAction::Next)),
                VmEvent::NotList => Err(VmError::ForNeedsList),
                _ => Err(VmError::UnexpectedEvent),
            },
            Waiting::Nothing => if e != VmEvent::Done {
                Err(VmError::UnexpectedEvent)
            } else if s.ip >= code.len() {
                Ok((s, VmAction::Halt))
            } else {
                match code[s.ip as int] {
                    SInst::Jump(t) => Ok((SVmState { ip: t as usize, ..s }, VmAction::Next)),
                    SInst::JumpIfFalse(t) => Ok((SVmState { waiting: Waiting::Truth(t as usize), ..s }, VmAction::PopTruth)),
                    SInst::IterInit => Ok((SVmState { waiting: Waiting::Items, ..s }, VmAction::PopList)),
                    SInst::IterNext(_, t) => if s.loops.len() == 0 {
                        Err(VmError::IterNextWithoutInit)
                    } else {
                        let (n, k) = s.loops.last();
                        if k < n {
                            Ok((SVmState { ip: (s.ip + 1) as usize, loops: s.loops.update(s.loops.len() - 1, (n, (k + 1) as usize)), ..s }, VmAction::Bind(s.ip, k)))
                        } else {
                            Ok((SVmState { ip: t as usize, loops: s.loops.drop_last(), ..s }, VmAction::EndLoop))
                        }
                    },
                    SInst::Return => Ok((s, VmAction::Return)),
                    _ => Ok((SVmState { ip: (s.ip + 1) as usize, ..s }, VmAction::Perform(s.ip))),
                }
            },
        }
    }
}

/// The state a run starts in.
pub fn vm_start() -> (r: VmState)
    ensures
        r@ == (SVmState { ip: 0, loops: Seq::empty(), waiting: Waiting::Nothing }),
{
    VmState { ip: 0, loops: Vec::new(), waiting: Waiting::Nothing }
}

/// One step of the loop, as `spec_vm_step` says.
pub fn vm_step(code: &Vec<IrInst>, state: VmState, event: VmEvent) -> (r: Result<(VmState, VmAction), VmError>)
    ensures
        match r {
            Ok((s, a)) => spec_vm_step(code_view(code@), state@, event) == Ok::<(SVmState, VmAction), VmError>((s@, a)),
            Err(e) => spec_vm_step(code_view(code@), state@, event) == Err::<(SVmState, VmAction), VmError>(e),
        },
{
    let VmState { ip, mut loops, waiting } = state;
    if waiting != Waiting::Nothing && ip >= code.len() {
        return Err(VmError::UnexpectedEvent);
    }
    match waiting {
        Waiting::Truth(t) => match event {
            VmEvent::Truth(b) => {
                let next = if b { ip + 1 } else { t };
                Ok((VmState { ip: next, loops, waiting: Waiting::Nothing }, VmAction::Next))
            }
            _ => Err(VmError::UnexpectedEvent),
        },
        Waiting::Items => match event {
            VmEvent::Items(n) => {
                loops.push((n, 0));
                Ok((VmState { ip: ip + 1, loops, waiting: Waiting::Nothing }, VmAction::Next))
            }
            VmEvent::NotList => Err(VmError::ForNeedsList),
            _ => Err(VmError::UnexpectedEvent),
        },
        Waiting::Nothing => {
            if event != VmEvent::Done {
                return Err(VmError::UnexpectedEvent);
            }
            if ip >= code.len() {
                return Ok((VmState { ip, loops, waiting }, VmAction::Halt));
            }
            assert(code_view(code@)[ip as int] == code@[ip as int]@);
            match &code[ip] {
                IrInst::Jump(t) => Ok((VmState { ip: *t, loops, waiting }, VmAction::Next)),
                IrInst::JumpIfFalse(t) => Ok((VmState { ip, loops, waiting: Waiting::Truth(*t) }, VmAction::PopTruth)),
                IrInst::IterInit => Ok((VmState { ip, loops, waiting: Waiting::Items }, VmAction::PopList)),
                IrInst::IterNext(_, t) => {
                    if loops.len() == 0 {
                        return Err(VmError::IterNextWithoutInit);
                    }
                    let last = loops.len() - 1;
                    let (n, k) = loops[last];
                    if k < n {
                        loops.set(last, (n, k + 1));
                        Ok((VmState { ip: ip + 1, loops, waiting }, VmAction::Bind(ip, k)))
                    } else {
                        loops.pop();
                        Ok((VmState { ip: *t, loops, waiting }, VmAction::EndLoop))
                    }
                }
                IrInst::Return => Ok((VmState { ip, loops, waiting }, VmAction::Return)),
                _ => Ok((VmState { ip: ip + 1, loops, waiting }, VmAction::Perform(ip))),
            }
        }
    }
}

} // verus!
