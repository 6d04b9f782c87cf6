//! What holds of a machine whatever order its workers are stepped in.

use vstd::prelude::*;
use vstd::arithmetic::power::pow;
use crate::lcg;
use crate::machine;
use crate::machine::{Action, State, WORKERS};
use crate::program;
use crate::program::Op;
use crate::program_laws;

verus! {

/// The machine after the steps `turns`, each a worker's number and the byte
/// that worker reads if it reads.
pub open spec fn run(ops: Seq<Op>, steps: i64, s: State, turns: Seq<(usize, u8)>) -> State
    decreases turns.len(),
{
    if turns.len() == 0 {
        s
    } else {
        machine::transition(
            ops,
            steps,
            run(ops, steps, s, turns.drop_last()),
            turns.last().0,
            turns.last().1,
        )
    }
}

/// How many of `turns` are worker `tid`'s.
pub open spec fn turns_of(turns: Seq<(usize, u8)>, tid: usize) -> nat
    decreases turns.len(),
{
    if turns.len() == 0 {
        0
    } else {
        turns_of(turns.drop_last(), tid) + if turns.last().0 == tid {
            1nat
        } else {
            0
        }
    }
}

/// All of `turns` are turns of workers that exist.
pub open spec fn turns_exist(turns: Seq<(usize, u8)>) -> bool {
    forall|i: int| 0 <= i < turns.len() ==> (#[trigger] turns[i]).0 < WORKERS
}

/// A program counter that does not jump stays inside the program.
pub proof fn law_shuffle_stays_inside(len: nat, pc: usize, tid: usize)
    requires
        0 < len <= usize::MAX,
    ensures
        machine::shuffled(len, pc, tid) < len,
{
}

/// A worker whose jumps lead into the program stays inside it.
pub proof fn law_worker_stays_inside(
    ops: Seq<Op>,
    w: machine::WorkerState,
    tid: usize,
    v: i64,
)
    requires
        program_laws::jumps_in_range(ops),
        w.pc < ops.len() <= usize::MAX,
    ensures
        machine::worker_after(ops, w, tid, v).pc < ops.len(),
{
    law_shuffle_stays_inside(ops.len(), w.pc, tid);
    assert(match ops[w.pc as int] {
        Op::JumpIfZero(t) => t < ops.len(),
        Op::JumpIfNonZero(t) => t < ops.len(),
        _ => true,
    });
}

/// A program that is not empty and whose jumps lead into it never ends by
/// itself: every worker executes one instruction in each of its turns until
/// its steps are used up, in whatever order the workers take turns.
pub proof fn law_workers_use_up_their_steps(
    ops: Seq<Op>,
    steps: i64,
    turns: Seq<(usize, u8)>,
    tid: usize,
)
    requires
        program_laws::jumps_in_range(ops),
        0 < ops.len() <= usize::MAX,
        turns_exist(turns),
        tid < WORKERS,
    ensures
        ({
            let w = run(ops, steps, machine::start(), turns).workers[tid as int];
            let taken = turns_of(turns, tid);
            let allowed = if steps < 0 {
                0int
            } else {
                steps as int
            };
            &&& w.pc < ops.len()
            &&& w.step == if taken < allowed {
                taken as int
            } else {
                allowed
            }
        }),
        run(ops, steps, machine::start(), turns).workers.len() == WORKERS,
    decreases turns.len(),
{
    if turns.len() > 0 {
        let before = turns.drop_last();
        lemma_turns_before(turns);
        law_workers_use_up_their_steps(ops, steps, before, tid);
        let s = run(ops, steps, machine::start(), before);
        let mover = turns.last().0;
        if mover == tid {
            let w = s.workers[tid as int];
            law_worker_stays_inside(ops, w, tid, s.cells[w.pos]);
        }
    }
}

/// A parsed program with at least one command never ends by itself: a worker
/// is done when, and only when, it has had as many turns as it has steps.
pub proof fn law_parsed_programs_do_not_end(
    src: Seq<u8>,
    ops: Seq<Op>,
    steps: i64,
    turns: Seq<(usize, u8)>,
    tid: usize,
)
    requires
        program::compiled(program::commands(src), ops),
        0 < ops.len() <= usize::MAX,
        turns_exist(turns),
        tid < WORKERS,
    ensures
        machine::halted(
            ops,
            steps,
            run(ops, steps, machine::start(), turns).workers[tid as int],
        ) <==> turns_of(turns, tid) >= steps,
{
    program_laws::law_jumps_stay_inside(program::commands(src), ops);
    law_workers_use_up_their_steps(ops, steps, turns, tid);
}

/// However a program was made, a worker executes at most one instruction in
/// each of its turns and never more than it has steps, and is done once it has
/// had as many turns as it has steps.
pub proof fn law_workers_finish(
    ops: Seq<Op>,
    steps: i64,
    turns: Seq<(usize, u8)>,
    tid: usize,
)
    requires
        turns_exist(turns),
        tid < WORKERS,
    ensures
        ({
            let w = run(ops, steps, machine::start(), turns).workers[tid as int];
            &&& 0 <= w.step <= turns_of(turns, tid)
            &&& w.step <= steps || w.step == 0
            &&& machine::halted(ops, steps, w) || w.step == turns_of(turns, tid)
            &&& turns_of(turns, tid) >= steps ==> machine::halted(ops, steps, w)
        }),
        run(ops, steps, machine::start(), turns).workers.len() == WORKERS,
    decreases turns.len(),
{
    if turns.len() > 0 {
        lemma_turns_before(turns);
        law_workers_finish(ops, steps, turns.drop_last(), tid);
    }
}

/// Turns but for the last are turns of workers that exist, as the last is.
proof fn lemma_turns_before(turns: Seq<(usize, u8)>)
    requires
        turns_exist(turns),
        turns.len() > 0,
    ensures
        turns_exist(turns.drop_last()),
        turns.last().0 < WORKERS,
{
    let before = turns.drop_last();
    assert forall|i: int| 0 <= i < before.len() implies (#[trigger] before[i]).0 < WORKERS by {
        assert(before[i] == turns[i]);
    }
    assert(turns[turns.len() - 1].0 < WORKERS);
}

/// The bytes that the workers write over `turns`, in order.
pub open spec fn written(ops: Seq<Op>, steps: i64, s: State, turns: Seq<(usize, u8)>) -> Seq<u8>
    decreases turns.len(),
{
    if turns.len() == 0 {
        Seq::empty()
    } else {
        let before = turns.drop_last();
        let so_far = written(ops, steps, s, before);
        match machine::action(ops, steps, run(ops, steps, s, before), turns.last().0) {
            Action::Next { output: Some(b), .. } => so_far.push(b),
            _ => so_far,
        }
    }
}

/// The bytes that the workers read over `turns`, in order.
pub open spec fn read(ops: Seq<Op>, steps: i64, s: State, turns: Seq<(usize, u8)>) -> Seq<u8>
    decreases turns.len(),
{
    if turns.len() == 0 {
        Seq::empty()
    } else {
        let before = turns.drop_last();
        let so_far = read(ops, steps, s, before);
        if machine::reads(ops, steps, run(ops, steps, s, before), turns.last().0) {
            so_far.push(turns.last().1)
        } else {
            so_far
        }
    }
}

/// The number of instructions that the first `n` workers have executed.
pub open spec fn executed(workers: Seq<machine::WorkerState>, n: nat) -> int
    decreases n,
{
    if n == 0 {
        0
    } else {
        executed(workers, (n - 1) as nat) + workers[n - 1].step
    }
}

/// Replacing one worker changes the number by what that worker differs in.
proof fn lemma_executed_update(
    workers: Seq<machine::WorkerState>,
    i: int,
    w: machine::WorkerState,
    n: nat,
)
    requires
        0 <= i < workers.len(),
        n <= workers.len(),
    ensures
        executed(workers.update(i, w), n) == executed(workers, n) + if i < n {
            w.step - workers[i].step
        } else {
            0
        },
    decreases n,
{
    if n > 0 {
        lemma_executed_update(workers, i, w, (n - 1) as nat);
    }
}

/// No more is executed than the workers have steps.
proof fn lemma_executed_bound(
    ops: Seq<Op>,
    steps: i64,
    turns: Seq<(usize, u8)>,
    n: nat,
)
    requires
        turns_exist(turns),
        n <= WORKERS,
    ensures
        executed(run(ops, steps, machine::start(), turns).workers, n) <= n * if steps < 0 {
            0int
        } else {
            steps as int
        },
    decreases n,
{
    if n > 0 {
        let m = (n - 1) as nat;
        let allowed = if steps < 0 {
            0int
        } else {
            steps as int
        };
        lemma_executed_bound(ops, steps, turns, m);
        law_workers_finish(ops, steps, turns, m as usize);
        assert(n * allowed == m * allowed + allowed) by (nonlinear_arith)
            requires
                n == m + 1,
        ;
    }
}

/// Every byte read or written takes an instruction of its own.
proof fn lemma_io_takes_instructions(ops: Seq<Op>, steps: i64, turns: Seq<(usize, u8)>)
    requires
        turns_exist(turns),
    ensures
        written(ops, steps, machine::start(), turns).len() + read(
            ops,
            steps,
            machine::start(),
            turns,
        ).len() <= executed(
            run(ops, steps, machine::start(), turns).workers,
            WORKERS as nat,
        ),
    decreases turns.len(),
{
    if turns.len() > 0 {
        let before = turns.drop_last();
        let s = run(ops, steps, machine::start(), before);
        let tid = turns.last().0;
        lemma_turns_before(turns);
        lemma_io_takes_instructions(ops, steps, before);
        law_workers_finish(ops, steps, before, tid);
        let w = s.workers[tid as int];
        lemma_executed_update(
            s.workers,
            tid as int,
            machine::worker_after(ops, w, tid, s.cells[w.pos]),
            WORKERS as nat,
        );
    } else {
        lemma_nothing_executed_at_start(WORKERS as nat);
    }
}

/// At the start nothing has been executed.
proof fn lemma_nothing_executed_at_start(n: nat)
    requires
        n <= WORKERS,
    ensures
        executed(machine::start().workers, n) == 0,
    decreases n,
{
    if n > 0 {
        lemma_nothing_executed_at_start((n - 1) as nat);
    }
}

/// A run reads and writes together at most one byte for each step that its
/// workers have.
pub proof fn law_io_is_bounded(ops: Seq<Op>, steps: i64, turns: Seq<(usize, u8)>)
    requires
        turns_exist(turns),
    ensures
        written(ops, steps, machine::start(), turns).len() + read(
            ops,
            steps,
            machine::start(),
            turns,
        ).len() <= WORKERS * if steps < 0 {
            0int
        } else {
            steps as int
        },
{
    lemma_io_takes_instructions(ops, steps, turns);
    lemma_executed_bound(ops, steps, turns, WORKERS as nat);
}

/// An empty program does nothing.
pub proof fn law_empty_program_halts(
    ops: Seq<Op>,
    steps: i64,
    s: State,
    tid: usize,
    input: u8,
)
    requires
        ops.len() == 0,
    ensures
        machine::action(ops, steps, s, tid) == Action::Halt,
        machine::transition(ops, steps, s, tid, input) == s,
{
}

/// A worker that is done stays done, whoever is stepped.
pub proof fn law_halted_for_good(
    ops: Seq<Op>,
    steps: i64,
    s: State,
    tid: usize,
    input: u8,
    other: usize,
)
    requires
        tid < s.workers.len(),
        other < s.workers.len(),
        machine::halted(ops, steps, s.workers[other as int]),
    ensures
        machine::transition(ops, steps, s, tid, input).workers[other as int]
            == s.workers[other as int],
{
}

/// A step changes nothing but the worker that takes it, by at most one
/// position, and the cell it was on.
pub proof fn law_step_is_local(
    ops: Seq<Op>,
    steps: i64,
    s: State,
    tid: usize,
    input: u8,
)
    requires
        tid < s.workers.len(),
    ensures
        ({
            let t = machine::transition(ops, steps, s, tid, input);
            let from = s.workers[tid as int].pos;
            let to = t.workers[tid as int].pos;
            &&& t.workers.len() == s.workers.len()
            &&& forall|k: int|
                0 <= k < s.workers.len() && k != tid ==> #[trigger] t.workers[k] == s.workers[k]
            &&& forall|p: int| p != from ==> #[trigger] t.cells[p] == s.cells[p]
            &&& from - 1 <= to <= from + 1
        }),
{
}

/// The instruction changes the cell.
pub open spec fn writes(op: Op) -> bool {
    op is Inc || op is In
}

/// The instruction depends on the cell.
pub open spec fn looks(op: Op) -> bool {
    op is Out || op is JumpIfZero || op is JumpIfNonZero
}

/// Worker `a` does not look at what worker `b` writes in the next step.
pub open spec fn undisturbed(ops: Seq<Op>, s: State, a: usize, b: usize) -> bool {
    let w = s.workers[a as int];
    let u = s.workers[b as int];
    w.pos == u.pos ==> !(looks(ops[w.pc as int]) && writes(ops[u.pc as int]))
}

/// Steps of two workers can be exchanged, with the same outcome for the
/// machine and for both of them, unless one looks at the cell that the other
/// writes. In particular additions to one cell can.
pub proof fn law_steps_commute(
    ops: Seq<Op>,
    steps: i64,
    s: State,
    a: usize,
    x: u8,
    b: usize,
    y: u8,
)
    requires
        a < s.workers.len(),
        b < s.workers.len(),
        a != b,
        undisturbed(ops, s, a, b),
        undisturbed(ops, s, b, a),
    ensures
        machine::transition(ops, steps, machine::transition(ops, steps, s, a, x), b, y)
            == machine::transition(ops, steps, machine::transition(ops, steps, s, b, y), a, x),
        machine::action(ops, steps, machine::transition(ops, steps, s, b, y), a)
            == machine::action(ops, steps, s, a),
        machine::action(ops, steps, machine::transition(ops, steps, s, a, x), b)
            == machine::action(ops, steps, s, b),
{
    let ab = machine::transition(ops, steps, machine::transition(ops, steps, s, a, x), b, y);
    let ba = machine::transition(ops, steps, machine::transition(ops, steps, s, b, y), a, x);
    assert(ab.workers =~= ba.workers);
    assert(ab.cells =~= ba.cells);
}

/// A machine starts with eight workers at the start of the program, all on one cell of
/// a tape of zeros, with nothing executed.
pub proof fn law_machine_starts_blank(tid: int, p: int)
    requires
        0 <= tid < 8,
    ensures
        machine::start().workers.len() == 8,
        machine::start().workers[tid].pc == 0,
        machine::start().workers[tid].pos == 0,
        machine::start().workers[tid].step == 0,
        machine::start().cells.dom().contains(p),
        machine::start().cells[p] == 0,
{
}

/// A worker is done exactly when it has executed all its steps or its counter has left
/// the program. Its turn then changes nothing, reads nothing and asks for nothing.
pub proof fn law_turn_of_a_done_worker(
    ops: Seq<Op>,
    steps: i64,
    s: State,
    tid: usize,
    input: u8,
)
    ensures
        (machine::action(ops, steps, s, tid) is Halt) == (s.workers[tid as int].step >= steps
            || s.workers[tid as int].pc >= ops.len()),
        machine::action(ops, steps, s, tid) is Halt ==> machine::transition(
            ops,
            steps,
            s,
            tid,
            input,
        ) == s && !machine::reads(ops, steps, s, tid),
{
}

/// What an instruction does to the tape and to the worker's place on it. An `Inc` adds
/// its number to the worker's cell and an `In` the byte it reads, modulo 2^64; nothing
/// else changes a cell. A `Move` goes to the next cell on its side; nothing else moves.
pub proof fn law_instruction_on_the_tape(
    ops: Seq<Op>,
    steps: i64,
    s: State,
    tid: usize,
    input: u8,
)
    requires
        tid < s.workers.len(),
        s.workers[tid as int].step < steps,
        s.workers[tid as int].pc < ops.len(),
    ensures
        ({
            let w = s.workers[tid as int];
            let v = s.cells[w.pos];
            let t = machine::transition(ops, steps, s, tid, input);
            &&& match ops[w.pc as int] {
                Op::Inc(d) => (t.cells[w.pos] - (v + d)) % 0x1_0000_0000_0000_0000 == 0,
                Op::In => (t.cells[w.pos] - (v + input)) % 0x1_0000_0000_0000_0000 == 0,
                _ => t.cells[w.pos] == v,
            }
            &&& forall|p: int| p != w.pos ==> #[trigger] t.cells[p] == s.cells[p]
            &&& t.workers[tid as int].pos == match ops[w.pc as int] {
                Op::Move(d) => if d > 0 {
                    w.pos + 1
                } else {
                    w.pos - 1
                },
                _ => w.pos,
            }
            &&& t.workers[tid as int].step == w.step + 1
            &&& t.workers.len() == s.workers.len()
            &&& forall|u: int|
                0 <= u < s.workers.len() && u != tid ==> #[trigger] t.workers[u] == s.workers[u]
        }),
{
}

/// What an instruction reads and writes. Only an `In` reads. Only an `Out` writes, and
/// what it writes is the low byte of the worker's cell.
pub proof fn law_instruction_reads_and_writes(ops: Seq<Op>, steps: i64, s: State, tid: usize)
    requires
        s.workers[tid as int].step < steps,
        s.workers[tid as int].pc < ops.len(),
    ensures
        ({
            let w = s.workers[tid as int];
            let v = s.cells[w.pos];
            &&& machine::reads(ops, steps, s, tid) == (ops[w.pc as int] is In)
            &&& match machine::action(ops, steps, s, tid) {
                Action::Halt => false,
                Action::Next { output: Some(b), yield_now } => ops[w.pc as int] is Out && (v - b)
                    % 256 == 0,
                Action::Next { output: None, yield_now } => !(ops[w.pc as int] is Out),
            }
        }),
{
}

/// A jump is taken exactly on the cell value it is for: then the counter is its target
/// and the worker does not give way.
pub proof fn law_jump_is_taken(ops: Seq<Op>, steps: i64, s: State, tid: usize, input: u8)
    requires
        tid < s.workers.len(),
        s.workers[tid as int].step < steps,
        s.workers[tid as int].pc < ops.len(),
        match ops[s.workers[tid as int].pc as int] {
            Op::JumpIfZero(_) => s.cells[s.workers[tid as int].pos] == 0,
            Op::JumpIfNonZero(_) => s.cells[s.workers[tid as int].pos] != 0,
            _ => false,
        },
    ensures
        match ops[s.workers[tid as int].pc as int] {
            Op::JumpIfZero(t) => machine::transition(ops, steps, s, tid, input).workers[tid as int].pc
                == t,
            Op::JumpIfNonZero(t) => machine::transition(
                ops,
                steps,
                s,
                tid,
                input,
            ).workers[tid as int].pc == t,
            _ => false,
        },
        machine::action(ops, steps, s, tid) == (Action::Next { output: None, yield_now: false }),
{
}

/// Without a jump the counter moves on, modulo the program's length, by the entry of the
/// shuffle table whose number is the low eight bits of the counter and the worker's
/// number combined: entry `k` of the 256 is the low byte of 48271^(k + 1) times the
/// start value modulo 2^31 - 1. The worker gives way if the number of instructions it
/// had executed is a multiple of 262144, and only then.
pub proof fn law_counter_moves_on(ops: Seq<Op>, steps: i64, s: State, tid: usize, input: u8)
    requires
        tid < s.workers.len(),
        s.workers[tid as int].step < steps,
        s.workers[tid as int].pc < ops.len() <= usize::MAX,
        match ops[s.workers[tid as int].pc as int] {
            Op::JumpIfZero(_) => s.cells[s.workers[tid as int].pos] != 0,
            Op::JumpIfNonZero(_) => s.cells[s.workers[tid as int].pos] == 0,
            _ => true,
        },
    ensures
        ({
            let pc = s.workers[tid as int].pc;
            let k = (pc ^ tid) % 256;
            let entry = ((pow(48271, (k + 1) as nat) * 0xC0CAC01A) % 0x7fff_ffff) % 256;
            let t = machine::transition(ops, steps, s, tid, input);
            &&& t.workers[tid as int].pc == ((pc + entry) % 0x1_0000_0000_0000_0000)
                % ops.len() as int
            &&& match machine::action(ops, steps, s, tid) {
                Action::Halt => false,
                Action::Next { output, yield_now } => yield_now == (s.workers[tid as int].step
                    % 262144 == 0),
            }
        }),
{
    let pc = s.workers[tid as int].pc;
    let x = pc ^ tid;
    assert(x & 0xFF == x % 256) by (bit_vector);
    lcg::law_table_holds_powers((x % 256) as int);
    law_shuffle_stays_inside(ops.len(), pc, tid);
}

/// Where the counter and the worker's number combine to a number below 256, that very
/// number picks the table's entry.
pub proof fn law_every_entry_is_used(
    ops: Seq<Op>,
    steps: i64,
    s: State,
    tid: usize,
    input: u8,
)
    requires
        tid < s.workers.len(),
        s.workers[tid as int].step < steps,
        s.workers[tid as int].pc < ops.len() <= usize::MAX,
        s.workers[tid as int].pc + 255 <= u64::MAX,
        s.workers[tid as int].pc ^ tid < 256,
        match ops[s.workers[tid as int].pc as int] {
            Op::JumpIfZero(_) => s.cells[s.workers[tid as int].pos] != 0,
            Op::JumpIfNonZero(_) => s.cells[s.workers[tid as int].pos] == 0,
            _ => true,
        },
    ensures
        machine::transition(ops, steps, s, tid, input).workers[tid as int].pc == (
        s.workers[tid as int].pc + lcg::rand_bytes()[(s.workers[tid as int].pc ^ tid) as int])
            % ops.len() as int,
{
    law_counter_moves_on(ops, steps, s, tid, input);
    lcg::law_table_holds_powers((s.workers[tid as int].pc ^ tid) as int);
}

/// Two turns without a jump, of any two workers at any two places of programs of the same
/// length, move the counter on by the same distance if the low eight bits of the counter
/// and the worker's number combined are the same.
pub proof fn law_low_byte_gives_distance(len: nat, a: usize, b: usize, tid: usize, other: usize)
    requires
        0 < len <= usize::MAX,
        a + 255 <= u64::MAX,
        b + 255 <= u64::MAX,
        (a ^ tid) % 256 == (b ^ other) % 256,
    ensures
        (machine::shuffled(len, a, tid) - a) % len as int == (machine::shuffled(len, b, other) - b)
            % len as int,
{
    let x = a ^ tid;
    let y = b ^ other;
    assert(x & 0xFF == x % 256) by (bit_vector);
    assert(y & 0xFF == y % 256) by (bit_vector);
    let r = lcg::rand_bytes()[(x % 256) as int];
    let m = len as int;
    law_shuffle_stays_inside(len, a, tid);
    law_shuffle_stays_inside(len, b, other);
    vstd::arithmetic::div_mod::lemma_sub_mod_noop(a + r, a as int, m);
    vstd::arithmetic::div_mod::lemma_sub_mod_noop((a + r) % m, a as int, m);
    vstd::arithmetic::div_mod::lemma_sub_mod_noop(b + r, b as int, m);
    vstd::arithmetic::div_mod::lemma_sub_mod_noop((b + r) % m, b as int, m);
    vstd::arithmetic::div_mod::lemma_mod_twice(a + r, m);
    vstd::arithmetic::div_mod::lemma_mod_twice(b + r, m);
}

} // verus!
