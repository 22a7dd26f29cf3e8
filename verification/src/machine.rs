//! The control state of the virtual machine: where it runs, the frames of the
//! calls under way and the handlers of the `try` blocks entered. The machine's
//! values live elsewhere; the decisions taken here read only instructions,
//! positions and what the value layer reports (whether a value is true, how
//! many arguments a call got).

use vstd::prelude::*;
use crate::instruction::{spec_bx, spec_sbx, Instruction};

verus! {

/// How deep calls may nest.
pub const MAX_FRAMES: usize = 1024;

/// A call under way: where the caller goes on, the base of the caller's
/// registers, and the caller's register (plus one, 0 for none) that receives
/// the result.
#[derive(Debug, Clone, Copy)]
pub struct Frame {
    pub ret_pc: usize,
    pub sp: usize,
    pub result_register: u8,
}

/// A `try` block entered: the frame it was entered in, the base of that
/// frame's registers, where its `catch` part starts, and the message of the
/// error it caught, once it caught one.
#[derive(Debug, Clone)]
pub struct Handler {
    pub stack_ix: usize,
    pub sp: usize,
    pub catch_pc: usize,
    pub exception: Option<String>,
}

/// The control state: the position of the next instruction, the base of the
/// current registers, the frames (the outermost first) and the handlers (the
/// innermost last).
#[derive(Debug, Clone)]
pub struct Machine {
    pub pc: usize,
    pub sp: usize,
    pub frames: Vec<Frame>,
    pub handlers: Vec<Handler>,
}

/// Whether a call may go ahead.
#[derive(Debug, PartialEq, Eq, Structural, Clone, Copy)]
pub enum CallCheck {
    Ready,
    WrongArity,
    TooDeep,
}

/// What a `return` leads to.
#[derive(Debug, Clone, Copy)]
pub enum ReturnAction {
    /// The outermost frame returned: the program ends.
    Exit,
    /// The caller goes on; `frame` is the call that ended. When `write_back`,
    /// the returned value goes to the caller's register `frame.sp +
    /// frame.result_register - 1`; the registers from `truncate_to` on are
    /// dropped.
    Resume { frame: Frame, write_back: bool, truncate_to: usize },
}

/// The position `pc + offset` on a machine word (wrapping around).
pub open spec fn wrapped(pc: int, offset: int) -> int {
    let t = pc + offset;
    if 0 <= t <= usize::MAX {
        t
    } else if t < 0 {
        t + usize::MAX + 1
    } else {
        t - usize::MAX - 1
    }
}

/// Where a jump at `pc` goes: `pc` moved by its signed operand.
pub fn jump_target(pc: usize, inst: Instruction) -> (r: usize)
    ensures
        r == wrapped(pc as int, spec_sbx(inst.b, inst.c)),
{
    let d = inst.sbx();
    if d >= 0 {
        let u = d as usize;
        if pc <= usize::MAX - u {
            pc + u
        } else {
            pc - (usize::MAX - u) - 1
        }
    } else {
        let u = (-(d as i32)) as usize;
        if pc >= u {
            pc - u
        } else {
            usize::MAX - (u - pc) + 1
        }
    }
}

/// A test at `pc` of a value whose truth is `truthy`, against the flag `c`:
/// when they agree the value is copied and the next instruction runs;
/// otherwise the next instruction is skipped. Returns the next position and
/// whether to copy.
pub fn test_outcome(pc: usize, truthy: bool, c: u8) -> (r: (usize, bool))
    requires
        pc + 2 <= usize::MAX,
    ensures
        r.1 == (truthy == (c != 0)),
        r.0 == if r.1 { pc + 1 } else { pc + 2 },
{
    if truthy == (c != 0) {
        (pc + 1, true)
    } else {
        (pc + 2, false)
    }
}

/// Whether a call with `arg_count` arguments of a function of `param_count`
/// parameters may go ahead with `depth` frames under way.
pub fn check_call(arg_count: usize, param_count: usize, depth: usize) -> (r: CallCheck)
    ensures
        r == if arg_count != param_count {
            CallCheck::WrongArity
        } else if depth >= MAX_FRAMES {
            CallCheck::TooDeep
        } else {
            CallCheck::Ready
        },
{
    if arg_count != param_count {
        CallCheck::WrongArity
    } else if depth >= MAX_FRAMES {
        CallCheck::TooDeep
    } else {
        CallCheck::Ready
    }
}

/// Whether the `return` instruction `inst` hands back a value (its operand
/// `b` is `a + 2`).
pub fn returns_value(inst: Instruction) -> (r: bool)
    ensures
        r == (inst.b as int == inst.a as int + 2),
{
    inst.a < 254 && inst.b == inst.a + 2
}

impl Machine {
    /// A machine about to run from `pc` with registers from `sp`, in one
    /// outermost frame and with no handler.
    pub fn new(pc: usize, sp: usize) -> (m: Machine)
        ensures
            m.pc == pc,
            m.sp == sp,
            m.frames@ == seq![Frame { ret_pc: pc, sp: sp, result_register: 0 }],
            m.handlers@.len() == 0,
    {
        Machine { pc: pc, sp: sp, frames: vec![Frame { ret_pc: pc, sp: sp, result_register: 0 }], handlers: vec![] }
    }

    /// Jumps by the signed operand of `inst`.
    pub fn jump(&mut self, inst: Instruction)
        ensures
            final(self).pc == wrapped(old(self).pc as int, spec_sbx(inst.b, inst.c)),
            final(self).sp == old(self).sp,
            final(self).frames@ == old(self).frames@,
            final(self).handlers@ == old(self).handlers@,
    {
        self.pc = jump_target(self.pc, inst);
    }

    /// Tests a value whose truth is `truthy` against the flag `c`; returns
    /// whether the value is copied.
    pub fn test(&mut self, truthy: bool, c: u8) -> (copy: bool)
        requires
            old(self).pc + 2 <= usize::MAX,
        ensures
            copy == (truthy == (c != 0)),
            final(self).pc == if copy { old(self).pc + 1 } else { old(self).pc + 2 },
            final(self).sp == old(self).sp,
            final(self).frames@ == old(self).frames@,
            final(self).handlers@ == old(self).handlers@,
    {
        let (next, copy) = test_outcome(self.pc, truthy, c);
        self.pc = next;
        copy
    }

    /// Enters a function whose registers start at `records_len`, the result
    /// to go to the caller's register `result_register - 1` (none for 0): the
    /// caller's place is kept in a new frame and the function runs from its
    /// first instruction.
    pub fn call(&mut self, result_register: u8, records_len: usize)
        requires
            old(self).pc < usize::MAX,
        ensures
            final(self).frames@ == old(self).frames@.push(
                Frame { ret_pc: (old(self).pc + 1) as usize, sp: old(self).sp, result_register: result_register },
            ),
            final(self).sp == records_len,
            final(self).pc == 0,
            final(self).handlers@ == old(self).handlers@,
    {
        self.frames.push(Frame { ret_pc: self.pc + 1, sp: self.sp, result_register: result_register });
        self.sp = records_len;
        self.pc = 0;
    }

    /// Leaves the function being run, handing back a value when `has_value`:
    /// its frame is dropped; the program ends when it was the outermost one,
    /// otherwise the caller goes on where it left off.
    pub fn ret(&mut self, has_value: bool) -> (a: ReturnAction)
        requires
            old(self).frames@.len() > 0,
        ensures
            final(self).frames@ == old(self).frames@.drop_last(),
            final(self).handlers@ == old(self).handlers@,
            final(self).frames@.len() == 0 ==> a is Exit && final(self).pc == old(self).pc && final(self).sp == old(
                self,
            ).sp,
            final(self).frames@.len() > 0 ==> {
                let f = old(self).frames@.last();
                &&& a == ReturnAction::Resume {
                    frame: f,
                    write_back: has_value && f.result_register > 0,
                    truncate_to: old(self).sp,
                }
                &&& final(self).pc == f.ret_pc
                &&& final(self).sp == f.sp
            },
    {
        let f = self.frames.pop().unwrap();
        if self.frames.len() == 0 {
            ReturnAction::Exit
        } else {
            let truncate_to = self.sp;
            self.pc = f.ret_pc;
            self.sp = f.sp;
            ReturnAction::Resume { frame: f, write_back: has_value && f.result_register > 0, truncate_to: truncate_to }
        }
    }

    /// Enters a `try` block whose `catch` part starts `bx` instructions on:
    /// a handler is kept for the current frame and registers.
    pub fn register_handler(&mut self, bx: u16)
        requires
            old(self).frames@.len() > 0,
            old(self).pc + bx + 1 <= usize::MAX,
        ensures
            final(self).handlers@ == old(self).handlers@.push(
                Handler {
                    stack_ix: (old(self).frames@.len() - 1) as usize,
                    sp: old(self).sp,
                    catch_pc: (old(self).pc + bx) as usize,
                    exception: None,
                },
            ),
            final(self).pc == old(self).pc + 1,
            final(self).sp == old(self).sp,
            final(self).frames@ == old(self).frames@,
    {
        let h = Handler { stack_ix: self.frames.len() - 1, sp: self.sp, catch_pc: self.pc + bx as usize, exception: None };
        self.handlers.push(h);
        self.pc = self.pc + 1;
    }

    /// Leaves a `try` block: its handler, if any, is dropped.
    pub fn deregister_handler(&mut self)
        requires
            old(self).pc < usize::MAX,
        ensures
            final(self).handlers@ == if old(self).handlers@.len() == 0 {
                old(self).handlers@
            } else {
                old(self).handlers@.drop_last()
            },
            final(self).pc == old(self).pc + 1,
            final(self).sp == old(self).sp,
            final(self).frames@ == old(self).frames@,
    {
        if self.handlers.len() > 0 {
            self.handlers.pop();
        }
        self.pc = self.pc + 1;
    }

    /// An error with `message` is thrown. With a handler, the innermost one
    /// catches it: it keeps the message, and the machine goes on at its
    /// `catch` part with its registers; the frame it was entered in is
    /// returned. Without one, nothing changes and `None` is returned.
    pub fn throw(&mut self, message: String) -> (caught: Option<usize>)
        requires
            old(self).handlers@.len() > 0 ==> old(self).handlers@.last().stack_ix < old(self).frames@.len(),
        ensures
            old(self).handlers@.len() == 0 ==> caught is None && *final(self) == *old(self),
            old(self).handlers@.len() > 0 ==> {
                let h = old(self).handlers@.last();
                &&& caught == Some(h.stack_ix)
                &&& final(self).pc == h.catch_pc
                &&& final(self).sp == h.sp
                &&& final(self).frames@ == old(self).frames@
                &&& final(self).handlers@.len() == old(self).handlers@.len()
                &&& final(self).handlers@.drop_last() == old(self).handlers@.drop_last()
                &&& final(self).handlers@.last().stack_ix == h.stack_ix
                &&& final(self).handlers@.last().sp == h.sp
                &&& final(self).handlers@.last().catch_pc == h.catch_pc
                &&& final(self).handlers@.last().exception == Some(message)
            },
    {
        if self.handlers.len() == 0 {
            return None;
        }
        let mut h = self.handlers.pop().unwrap();
        let ix = h.stack_ix;
        self.pc = h.catch_pc;
        self.sp = h.sp;
        h.exception = Some(message);
        self.handlers.push(h);
        Some(ix)
    }
}

} // verus!
