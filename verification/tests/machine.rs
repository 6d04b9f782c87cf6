use tape_machine::lcg::{lcg, rand_table, SEED};
use tape_machine::machine::{Action, Machine, WORKERS};
use tape_machine::program::{Op, Program};
use tape_machine::tape::{CellWrapper, Tape};

fn machine(src: &[u8], steps: i64) -> Machine {
    Machine::new(Program::from_source(src), steps)
}

/// Steps the workers in the order of `turns` and collects what they write.
fn outputs(m: &mut Machine, turns: &[(usize, u8)]) -> (Vec<u8>, usize) {
    let mut out = vec![];
    let mut halts = 0;
    for (tid, input) in turns {
        match m.step(*tid, *input) {
            Action::Halt => halts += 1,
            Action::Next { output: Some(b), .. } => out.push(b),
            Action::Next { output: None, .. } => {}
        }
    }
    (out, halts)
}

#[test]
fn generator_draws() {
    assert_eq!(lcg(1), 48271);
    assert_eq!(lcg(0x7fff_ffff), 0);
    assert_eq!(lcg(48271), 182605794);
    assert_eq!(lcg(u64::MAX), (u64::MAX - 48270) % 0x7fff_ffff);
    assert_eq!(lcg(SEED) & 0xFF, 135);
}

#[test]
fn generator_permutes_small_seeds() {
    let mut seen: Vec<u64> = (1..1000).map(lcg).collect();
    assert!(seen.iter().all(|x| 0 < *x && *x < 0x7fff_ffff));
    seen.sort();
    seen.dedup();
    assert_eq!(seen.len(), 999);
}

#[test]
fn shuffle_table_entries() {
    let table = rand_table();
    assert_eq!(&table[..8], &[135, 79, 176, 55, 195, 240, 15, 212]);
    assert_eq!(&table[252..], &[255, 176, 37, 103]);
}

#[test]
fn cells_wrap_around() {
    let mut c = CellWrapper::new();
    assert_eq!(c.get(), 0);
    c.inc(i64::MAX);
    c.inc(2);
    assert_eq!(c.get(), i64::MIN + 1);
    c.inc(-2);
    assert_eq!(c.get(), i64::MAX);
}

#[test]
fn tape_remembers_its_cells() {
    let mut t = Tape::new();
    let right = t.neighbour(0, 1);
    let left = t.neighbour(0, -1);
    t.inc(right, 5);
    t.inc(left, -3);
    assert_eq!(t.neighbour(right, -1), 0);
    assert_eq!(t.neighbour(left, 1), 0);
    assert_eq!(t.neighbour(0, 1), right);
    assert_eq!(t.neighbour(0, 0), left);
    assert_eq!((t.get(left), t.get(0), t.get(right)), (-3, 0, 5));
    let further = t.neighbour(right, 7);
    assert_eq!(t.get(further), 0);
    assert_eq!(t.neighbour(further, -7), right);
}

#[test]
fn empty_program_halts_at_once() {
    let mut m = machine(b"no commands here", 0x7fff_ffff);
    for tid in 0..WORKERS {
        assert!(!m.wants_input(tid));
        assert_eq!(m.step(tid, 9), Action::Halt);
    }
}

#[test]
fn worker_counts_and_writes() {
    let mut m = machine(b"+.", 100);
    assert_eq!(outputs(&mut m, &[(0, 0); 12]), (vec![1, 2, 3, 4, 5, 6], 0));
}

#[test]
fn low_byte_of_a_negative_cell_is_written() {
    let mut m = machine(b"-.", 100);
    assert_eq!(outputs(&mut m, &[(0, 0); 6]), (vec![255, 254, 253], 0));
}

#[test]
fn input_is_added() {
    let mut m = machine(b",.", 4);
    assert!(m.wants_input(0));
    assert_eq!(outputs(&mut m, &[(0, 200), (0, 0)]), (vec![200], 0));
    assert!(m.wants_input(0));
    assert_eq!(outputs(&mut m, &[(0, 100), (0, 0)]), (vec![44], 0));
    assert!(!m.wants_input(0));
    assert_eq!(m.step(0, 0), Action::Halt);
}

#[test]
fn workers_use_up_their_steps() {
    let mut m = machine(b"+", 3);
    for tid in 0..WORKERS {
        for _ in 0..3 {
            assert!(m.step(tid, 0) != Action::Halt);
        }
        assert_eq!(m.step(tid, 0), Action::Halt);
    }
    let mut none = machine(b"+", -1);
    assert_eq!(none.step(0, 0), Action::Halt);
}

#[test]
fn worker_gives_way_at_its_first_step_and_every_so_often() {
    let mut m = machine(b"+", 0x4_0001);
    let mut yields = vec![];
    for step in 0..0x4_0001 {
        if let Action::Next { yield_now: true, .. } = m.step(3, 0) {
            yields.push(step);
        }
    }
    assert_eq!(yields, vec![0, 0x4_0000]);
}

#[test]
fn worker_that_jumps_does_not_give_way() {
    let mut m = machine(b"[]", 10);
    assert_eq!(m.step(0, 0), Action::Next { output: None, yield_now: false });
}

#[test]
fn additions_of_two_workers_commute() {
    let turns = [(1, 10), (2, 20)];
    let swapped = [(2, 20), (1, 10)];
    let mut m = machine(b",.", 10);
    let mut n = machine(b",.", 10);
    assert_eq!(outputs(&mut m, &turns).0, vec![]);
    assert_eq!(outputs(&mut n, &swapped).0, vec![]);
    let after: Vec<(usize, u8)> = (0..8).map(|i| (i % 4, 1)).collect();
    assert_eq!(outputs(&mut m, &after), outputs(&mut n, &after));
}

#[test]
fn interleaved_workers() {
    let turns: Vec<(usize, u8)> =
        (0..400usize).map(|i| ((i * 5 + i / 7) % 8, (i * 11 % 256) as u8)).collect();
    let mut m = machine(b"+[>+<-].,>-<.+", 45);
    assert_eq!(
        outputs(&mut m, &turns),
        (
            vec![
                154, 0, 255, 159, 154, 254, 253, 201, 44, 253, 252, 196, 143, 252, 251, 143, 193,
                251, 250, 40, 197
            ],
            73
        )
    );
}

#[test]
fn draws_stay_in_range() {
    let mut s = SEED;
    for _ in 0..1000 {
        s = lcg(s);
        assert!(0 < s && s < 0x7fff_ffff);
    }
}

#[test]
fn worker_that_is_done_stays_done() {
    let mut m = machine(b"+.", 1);
    assert!(m.step(0, 0) != Action::Halt);
    for tid in [0, 1, 0, 2, 0] {
        m.step(tid, 0);
        assert_eq!(m.step(0, 0), Action::Halt);
    }
}

#[test]
fn step_of_one_worker_leaves_the_others() {
    let mut m = machine(b",+", 10);
    m.step(0, 1);
    assert!(!m.wants_input(0));
    for tid in 1..WORKERS {
        assert!(m.wants_input(tid));
    }
}

#[test]
fn ten_thousandth_draw_of_the_minimal_standard() {
    let mut s = 1;
    for _ in 0..10_000 {
        s = lcg(s);
        assert!(s != 1);
    }
    assert_eq!(s, 399268537);
}

#[test]
fn worker_that_leaves_a_handmade_program_is_done() {
    let mut m = Machine::new(Program(vec![Op::JumpIfZero(9)]), 100);
    assert!(m.step(4, 0) != Action::Halt);
    for _ in 0..100 {
        assert_eq!(m.step(4, 0), Action::Halt);
    }
}

#[test]
fn input_and_output_take_steps() {
    let mut m = machine(b",.+.,", 20);
    let mut bytes = 0;
    for turn in 0..400 {
        let tid = turn % WORKERS;
        if m.wants_input(tid) {
            bytes += 1;
        }
        if let Action::Next { output: Some(_), .. } = m.step(tid, 1) {
            bytes += 1;
        }
    }
    assert!(0 < bytes && bytes <= WORKERS * 20);
    for tid in 0..WORKERS {
        assert_eq!(m.step(tid, 0), Action::Halt);
    }
}
