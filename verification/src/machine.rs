//! Workers that run one program on one tape.
//!
//! A machine has a fixed number of workers, each with a program counter and a
//! place on the tape of its own. They may be stepped in any order. A step
//! decides everything but input, output and scheduling: what it reads is
//! handed in, and what it writes and when it gives way is handed back.

use vstd::prelude::*;
use crate::lcg;
use crate::program::{Op, Program};
use crate::tape;
use crate::tape::Tape;

verus! {

/// How many workers a machine has.
pub const WORKERS: usize = 8;

/// What a step asks of whoever runs the worker.
#[derive(Debug, Copy, Clone, PartialEq, Eq)]
pub enum Action {
    /// The worker is done; nothing was executed.
    Halt,
    /// One instruction was executed. Its output is to be written, and the
    /// other workers are to be let in if `yield_now` says so.
    Next { output: Option<u8>, yield_now: bool },
}

struct Worker {
    pc: usize,
    ptr: usize,
    step: i64,
}

/// A worker as the model sees it: its program counter, its position on the
/// tape and the number of instructions it has executed.
pub struct WorkerState {
    pub pc: usize,
    pub pos: int,
    pub step: int,
}

/// A machine as the model sees it.
pub struct State {
    pub cells: Map<int, i64>,
    pub workers: Seq<WorkerState>,
}

/// All workers at the start of the program and at the head of a blank tape.
pub open spec fn start() -> State {
    State {
        cells: tape::blank(),
        workers: Seq::new(WORKERS as nat, |t: int| WorkerState { pc: 0, pos: 0, step: 0 }),
    }
}

/// A worker is done when it has used up its steps or left the program.
pub open spec fn halted(ops: Seq<Op>, steps: i64, w: WorkerState) -> bool {
    w.step >= steps || w.pc >= ops.len()
}

/// What an instruction makes of the value of the worker's cell.
pub open spec fn value_after(op: Op, v: i64, input: u8) -> i64 {
    match op {
        Op::Inc(d) => v.wrapping_add(d as i64),
        Op::In => v.wrapping_add(input as i64),
        _ => v,
    }
}

/// Where an instruction leaves the worker on the tape.
pub open spec fn position_after(op: Op, pos: int) -> int {
    match op {
        Op::Move(d) => pos + tape::direction(d),
        _ => pos,
    }
}

/// Where an instruction jumps, if it does.
pub open spec fn jump(op: Op, v: i64) -> Option<usize> {
    match op {
        Op::JumpIfZero(t) => if v == 0 {
            Some(t)
        } else {
            None
        },
        Op::JumpIfNonZero(t) => if v != 0 {
            Some(t)
        } else {
            None
        },
        _ => None,
    }
}

/// What an instruction writes, if it does: the low byte of the cell.
pub open spec fn output(op: Op, v: i64) -> Option<u8> {
    match op {
        Op::Out => Some((v % 256) as u8),
        _ => None,
    }
}

/// The program counter after an instruction that did not jump: moved on by an
/// entry of the shuffle table that the counter and the worker's number pick,
/// modulo 2^64 and the length of the program.
pub open spec fn shuffled(len: nat, pc: usize, tid: usize) -> usize {
    let r = lcg::rand_bytes()[((pc ^ tid) & 0xFF) as int];
    (((pc + r) % 0x1_0000_0000_0000_0000) % len as int) as usize
}

/// A worker after one instruction on a cell with value `v`.
pub open spec fn worker_after(ops: Seq<Op>, w: WorkerState, tid: usize, v: i64) -> WorkerState {
    let op = ops[w.pc as int];
    WorkerState {
        pc: match jump(op, v) {
            Some(t) => t,
            None => shuffled(ops.len(), w.pc, tid),
        },
        pos: position_after(op, w.pos),
        step: w.step + 1,
    }
}

/// The machine after a step of worker `tid`, which reads `input` if it reads.
pub open spec fn transition(ops: Seq<Op>, steps: i64, s: State, tid: usize, input: u8) -> State {
    let w = s.workers[tid as int];
    if halted(ops, steps, w) {
        s
    } else {
        let v = s.cells[w.pos];
        State {
            cells: s.cells.insert(w.pos, value_after(ops[w.pc as int], v, input)),
            workers: s.workers.update(tid as int, worker_after(ops, w, tid, v)),
        }
    }
}

/// What a step of worker `tid` asks for. A worker gives way every 2^18 steps,
/// unless it jumps just then.
pub open spec fn action(ops: Seq<Op>, steps: i64, s: State, tid: usize) -> Action {
    let w = s.workers[tid as int];
    if halted(ops, steps, w) {
        Action::Halt
    } else {
        let op = ops[w.pc as int];
        let v = s.cells[w.pos];
        Action::Next {
            output: output(op, v),
            yield_now: jump(op, v) is None && w.step % 0x4_0000 == 0,
        }
    }
}

/// Worker `tid` reads input in its next step.
pub open spec fn reads(ops: Seq<Op>, steps: i64, s: State, tid: usize) -> bool {
    let w = s.workers[tid as int];
    !halted(ops, steps, w) && ops[w.pc as int] == Op::In
}

/// The workers, the tape they share and the program they run.
pub struct Machine {
    prog: Program,
    steps: i64,
    rand: [u8; 256],
    tape: Tape,
    workers: Vec<Worker>,
}

impl View for Machine {
    type V = State;

    closed spec fn view(&self) -> State {
        State {
            cells: self.tape@,
            workers: Seq::new(
                self.workers@.len(),
                |t: int|
                    WorkerState {
                        pc: self.workers@[t].pc,
                        pos: self.tape.position(self.workers@[t].ptr),
                        step: self.workers@[t].step as int,
                    },
            ),
        }
    }
}

impl Machine {
    /// The instructions of the program.
    pub closed spec fn ops(self) -> Seq<Op> {
        self.prog@
    }

    /// How many steps each worker has.
    pub closed spec fn steps(self) -> i64 {
        self.steps
    }

    /// The shuffle table is the right one, and all workers stand on the tape.
    pub closed spec fn well_formed(self) -> bool {
        &&& self.rand@ == lcg::rand_bytes()
        &&& self.tape.well_formed()
        &&& self.workers@.len() == WORKERS
        &&& forall|t: int|
            0 <= t < self.workers@.len() ==> self.tape.holds((#[trigger] self.workers@[t]).ptr)
    }

    /// A machine at its start.
    pub fn new(prog: Program, steps: i64) -> (m: Self)
        ensures
            m.well_formed(),
            m.ops() == prog@,
            m.steps() == steps,
            m@ == start(),
    {
        let tape: Tape = Tape::new();
        let mut workers: Vec<Worker> = Vec::new();
        let mut t: usize = 0;
        while t < WORKERS
            invariant
                t <= WORKERS,
                workers@.len() == t,
                forall|k: int|
                    0 <= k < t ==> #[trigger] workers@[k] == (Worker { pc: 0, ptr: 0, step: 0 }),
            decreases WORKERS - t,
        {
            workers.push(Worker { pc: 0, ptr: 0, step: 0 });
            t += 1;
        }
        let m = Machine { prog, steps, rand: lcg::rand_table(), tape, workers };
        assert(m@.workers =~= start().workers);
        m
    }

    /// Where the program counter goes from `pc` without a jump.
    fn shuffle(&self, pc: usize, tid: usize) -> (next: usize)
        requires
            self.rand@ == lcg::rand_bytes(),
            pc < self.prog@.len(),
        ensures
            next == shuffled(self.prog@.len(), pc, tid),
    {
        let pick: usize = (pc ^ tid) & 0xFF;
        assert((pc ^ tid) & 0xFF < 256) by (bit_vector);
        let moved: u64 = (pc as u64).wrapping_add(self.rand[pick] as u64);
        (moved % self.prog.0.len() as u64) as usize
    }

    /// Whether worker `tid` reads input in its next step.
    pub fn wants_input(&self, tid: usize) -> (r: bool)
        requires
            self.well_formed(),
            tid < WORKERS,
        ensures
            r == reads(self.ops(), self.steps(), self@, tid),
    {
        let w: &Worker = &self.workers[tid];
        if w.step >= self.steps || w.pc >= self.prog.0.len() {
            false
        } else {
            match self.prog.0[w.pc] {
                Op::In => true,
                _ => false,
            }
        }
    }

    /// Steps worker `tid`. `input` is the byte it reads if it wants input, and
    /// is ignored otherwise.
    pub fn step(&mut self, tid: usize, input: u8) -> (a: Action)
        requires
            old(self).well_formed(),
            tid < WORKERS,
        ensures
            final(self).well_formed(),
            final(self).ops() == old(self).ops(),
            final(self).steps() == old(self).steps(),
            final(self)@ == transition(old(self).ops(), old(self).steps(), old(self)@, tid, input),
            a == action(old(self).ops(), old(self).steps(), old(self)@, tid),
    {
        let ghost ops = self.prog@;
        let ghost w = self@.workers[tid as int];
        let ghost v = self@.cells[w.pos];
        let pc: usize = self.workers[tid].pc;
        let ptr: usize = self.workers[tid].ptr;
        let step: i64 = self.workers[tid].step;
        let len: usize = self.prog.0.len();
        if step >= self.steps || pc >= len {
            return Action::Halt;
        }
        let op: Op = self.prog.0[pc];
        let mut next_ptr: usize = ptr;
        let mut out: Option<u8> = None;
        let mut target: Option<usize> = None;
        match op {
            Op::Inc(d) => {
                self.tape.inc(ptr, d as i64);
            },
            Op::Move(d) => {
                next_ptr = self.tape.neighbour(ptr, d);
            },
            Op::In => {
                self.tape.inc(ptr, input as i64);
            },
            Op::Out => {
                let x: i64 = self.tape.get(ptr);
                assert(x as u8 == x % 256) by (bit_vector);
                out = Some(x as u8);
            },
            Op::JumpIfZero(t) => {
                if self.tape.get(ptr) == 0 {
                    target = Some(t);
                }
            },
            Op::JumpIfNonZero(t) => {
                if self.tape.get(ptr) != 0 {
                    target = Some(t);
                }
            },
            Op::Nop => {},
        }
        let ghost cells = old(self)@.cells.insert(w.pos, value_after(op, v, input));
        assert(self.tape@ =~= cells) by {
            tape::law_tape_is_endless(old(self).tape, w.pos);
        }
        let mut yield_now: bool = false;
        let next_pc: usize = match target {
            Some(t) => t,
            None => {
                assert((step & 0x3_FFFF == 0) == (step % 0x4_0000 == 0)) by (bit_vector);
                yield_now = step & 0x3_FFFF == 0;
                self.shuffle(pc, tid)
            },
        };
        self.workers.set(tid, Worker { pc: next_pc, ptr: next_ptr, step: step + 1 });
        proof {
            assert(self@.workers =~= old(self)@.workers.update(
                tid as int,
                worker_after(ops, w, tid, v),
            ));
        }
        Action::Next { output: out, yield_now }
    }
}

} // verus!
