//! What holds of every parsed program.

use vstd::prelude::*;
use crate::program;
use crate::program::Op;

verus! {

/// Brackets match one to one.
pub proof fn law_matches_pair_off(cmds: Seq<u8>, i: int, j: int, k: int)
    ensures
        program::matched(cmds, i, j) && program::matched(cmds, i, k) ==> j == k,
        program::matched(cmds, i, k) && program::matched(cmds, j, k) ==> i == j,
{
    if program::matched(cmds, i, j) && program::matched(cmds, i, k) && j != k {
        assert(program::height(cmds, if j < k { j + 1 } else { k + 1 }) > program::height(cmds, i));
    }
    if program::matched(cmds, i, k) && program::matched(cmds, j, k) && i != j {
        if i < j {
            assert(program::height(cmds, j) > program::height(cmds, i));
        } else {
            assert(program::height(cmds, i) > program::height(cmds, j));
        }
    }
}

/// A source text has one program, and comments have no say in it.
pub proof fn law_program_determined(a: Seq<u8>, b: Seq<u8>, p: Seq<Op>, q: Seq<Op>)
    requires
        program::commands(a) == program::commands(b),
        program::compiled(program::commands(a), p),
        program::compiled(program::commands(b), q),
    ensures
        p == q,
{
    let cmds = program::commands(a);
    let pred = |c: u8| program::is_command(c);
    assert forall|i: int| 0 <= i < p.len() implies p[i] == q[i] by {
        broadcast use vstd::seq_lib::group_filter_ensures;

        assert(pred(cmds[i]));
        assert(program::compiles_to(cmds, i, p[i]));
        assert(program::compiles_to(cmds, i, q[i]));
        match (p[i], q[i]) {
            (Op::JumpIfZero(j), Op::JumpIfZero(k)) => {
                law_matches_pair_off(cmds, i, j as int, k as int);
            },
            (Op::JumpIfNonZero(j), Op::JumpIfNonZero(k)) => {
                law_matches_pair_off(cmds, j as int, k as int, i);
            },
            _ => {},
        }
    }
    assert(p =~= q);
}

/// Heights in a program never go below zero.
proof fn lemma_compiled_heights(cmds: Seq<u8>, ops: Seq<Op>, n: int)
    requires
        program::compiled(cmds, ops),
        0 <= n <= cmds.len(),
    ensures
        program::height(cmds, n) >= 0,
    decreases n,
{
    if n > 0 {
        lemma_compiled_heights(cmds, ops, n - 1);
        if cmds[n - 1] == program::CLOSE {
            assert(program::compiles_to(cmds, n - 1, ops[n - 1]));
            if let Op::JumpIfNonZero(j) = ops[n - 1] {
                lemma_compiled_heights(cmds, ops, j as int);
            }
        }
    }
}

/// A bracket count depends only on the bytes counted.
proof fn lemma_height_of_prefix(a: Seq<u8>, b: Seq<u8>, n: int)
    requires
        n <= a.len(),
    ensures
        program::height(a + b, n) == program::height(a, n),
    decreases n,
{
    if n > 0 {
        lemma_height_of_prefix(a, b, n - 1);
    }
}

/// Comments do not count as brackets.
proof fn lemma_height_of_commands(src: Seq<u8>)
    ensures
        program::height(program::commands(src), program::commands(src).len() as int)
            == program::height(src, src.len() as int),
    decreases src.len(),
{
    reveal(Seq::filter);
    if src.len() > 0 {
        let front = src.drop_last();
        let cmds = program::commands(front);
        lemma_height_of_commands(front);
        assert(front + seq![src.last()] =~= src);
        lemma_height_of_prefix(front, seq![src.last()], front.len() as int);
        assert(cmds + seq![src.last()] =~= cmds.push(src.last()));
        lemma_height_of_prefix(cmds, seq![src.last()], cmds.len() as int);
    }
}

/// Only a source text whose every `]` has a `[` to close has a program.
pub proof fn law_unmatched_close_has_no_program(src: Seq<u8>, ops: Seq<Op>)
    requires
        program::compiled(program::commands(src), ops),
    ensures
        program::every_close_matched(src),
{
    assert forall|n: int| 0 <= n <= src.len() implies #[trigger] program::height(src, n) >= 0 by {
        let front = src.take(n);
        let back = src.skip(n);
        let cmds = program::commands(front);
        assert(front + back =~= src);
        Seq::filter_distributes_over_add(front, back, |b: u8| program::is_command(b));
        lemma_height_of_prefix(front, back, n);
        lemma_height_of_commands(front);
        lemma_height_of_prefix(cmds, program::commands(back), cmds.len() as int);
        lemma_compiled_heights(program::commands(src), ops, cmds.len() as int);
    }
}

/// Every jump of a program leads to an instruction of the program.
pub open spec fn jumps_in_range(ops: Seq<Op>) -> bool {
    forall|i: int|
        0 <= i < ops.len() ==> match #[trigger] ops[i] {
            Op::JumpIfZero(t) => t < ops.len(),
            Op::JumpIfNonZero(t) => t < ops.len(),
            _ => true,
        }
}

/// The jumps of a parsed program stay inside it.
pub proof fn law_jumps_stay_inside(cmds: Seq<u8>, ops: Seq<Op>)
    requires
        program::compiled(cmds, ops),
    ensures
        jumps_in_range(ops),
{
    assert forall|i: int| 0 <= i < ops.len() implies match #[trigger] ops[i] {
        Op::JumpIfZero(t) => t < ops.len(),
        Op::JumpIfNonZero(t) => t < ops.len(),
        _ => true,
    } by {
        assert(program::compiles_to(cmds, i, ops[i]));
    }
}

/// The jumps of a parsed program come in pairs that lead to each other, the
/// one on zero first.
pub proof fn law_jumps_pair_off(cmds: Seq<u8>, ops: Seq<Op>, i: usize, j: usize)
    requires
        program::compiled(cmds, ops),
        i < ops.len(),
        j < ops.len(),
    ensures
        ops[i as int] == Op::JumpIfZero(j) <==> ops[j as int] == Op::JumpIfNonZero(i),
        ops[i as int] == Op::JumpIfZero(j) ==> i < j,
{
    assert(program::compiles_to(cmds, i as int, ops[i as int]));
    assert(program::compiles_to(cmds, j as int, ops[j as int]));
    if ops[i as int] == Op::JumpIfZero(j) {
        if let Op::JumpIfNonZero(k) = ops[j as int] {
            law_matches_pair_off(cmds, i as int, k as int, j as int);
        }
    }
    if ops[j as int] == Op::JumpIfNonZero(i) {
        assert(program::matched(cmds, i as int, j as int));
        if let Op::JumpIfZero(k) = ops[i as int] {
            law_matches_pair_off(cmds, i as int, j as int, k as int);
        }
    }
}

/// A program's view is its instructions as they stand.
pub proof fn law_view_is_the_instructions(p: program::Program)
    ensures
        p@ == p.0@,
{
}

/// The commands of a text are those of its parts, one after the other.
pub proof fn law_commands_concatenate(a: Seq<u8>, b: Seq<u8>)
    ensures
        program::commands(a + b) == program::commands(a) + program::commands(b),
{
    Seq::filter_distributes_over_add(a, b, |c: u8| program::is_command(c));
}

/// Of a text of one byte the command is that byte if it is one of `+ - > < . , [ ]`,
/// and there is none if it is not.
pub proof fn law_commands_of_one_byte(b: u8)
    ensures
        program::commands(seq![b]) == if b == 0x2b || b == 0x2d || b == 0x3e || b == 0x3c || b
            == 0x2e || b == 0x2c || b == 0x5b || b == 0x5d {
            seq![b]
        } else {
            Seq::empty()
        },
{
    reveal_with_fuel(Seq::filter, 2);
    assert(seq![b].drop_last() =~= Seq::empty());
    assert(Seq::<u8>::empty().push(b) =~= seq![b]);
}

/// There is one instruction for each command. `+` adds 1 and `-` adds -1, `>` moves
/// one way and `<` the other, `.` writes and `,` reads, wherever they stand. A `[`
/// jumps on zero or does nothing, and a `]` jumps on what is not zero.
pub proof fn law_command_gives_instruction(cmds: Seq<u8>, ops: Seq<Op>, i: int)
    requires
        program::compiled(cmds, ops),
        0 <= i < cmds.len(),
    ensures
        ops.len() == cmds.len(),
        cmds[i] == 0x2b ==> ops[i] == Op::Inc(1),
        cmds[i] == 0x2d ==> ops[i] == Op::Inc(-1i8),
        cmds[i] == 0x3e ==> ops[i] == Op::Move(1),
        cmds[i] == 0x3c ==> ops[i] == Op::Move(-1i8),
        cmds[i] == 0x2e ==> ops[i] == Op::Out,
        cmds[i] == 0x2c ==> ops[i] == Op::In,
        cmds[i] == 0x5b ==> ops[i] is JumpIfZero || ops[i] is Nop,
        cmds[i] == 0x5d ==> ops[i] is JumpIfNonZero,
{
    assert(program::compiles_to(cmds, i, ops[i]));
}

/// The instruction for a command that is no bracket depends on the command's byte
/// alone: at any two places of any two texts equal bytes give equal instructions.
pub proof fn law_equal_bytes_equal_instructions(
    a: Seq<u8>,
    p: Seq<Op>,
    i: int,
    b: Seq<u8>,
    q: Seq<Op>,
    j: int,
)
    requires
        program::compiled(program::commands(a), p),
        program::compiled(program::commands(b), q),
        0 <= i < program::commands(a).len(),
        0 <= j < program::commands(b).len(),
        program::commands(a)[i] == program::commands(b)[j],
        program::commands(a)[i] != 0x5b,
        program::commands(a)[i] != 0x5d,
    ensures
        p[i] == q[j],
{
    broadcast use vstd::seq_lib::group_filter_ensures;

    let pred = |c: u8| program::is_command(c);
    assert(pred(program::commands(a)[i]));
    law_command_gives_instruction(program::commands(a), p, i);
    law_command_gives_instruction(program::commands(b), q, j);
}

/// What a text without brackets adds to a program is its own program: the program of
/// the whole is that of what stands before it and then its own.
pub proof fn law_programs_concatenate(
    a: Seq<u8>,
    b: Seq<u8>,
    p: Seq<Op>,
    q: Seq<Op>,
    whole: Seq<Op>,
)
    requires
        !b.contains(0x5b),
        !b.contains(0x5d),
        program::compiled(program::commands(a), p),
        program::compiled(program::commands(b), q),
        program::compiled(program::commands(a + b), whole),
    ensures
        whole == p + q,
{
    broadcast use vstd::seq_lib::group_filter_ensures;

    let x = program::commands(a);
    let y = program::commands(b);
    let pred = |c: u8| program::is_command(c);
    law_commands_concatenate(a, b);
    assert forall|k: int| 0 <= k < y.len() implies y[k] != 0x5b && y[k] != 0x5d by {
        assert(y.contains(y[k]));
        b.lemma_filter_contains_rev(pred, y[k]);
    }
    assert forall|k: int| 0 <= k < whole.len() implies whole[k] == (p + q)[k] by {
        if k >= x.len() {
            law_equal_bytes_equal_instructions(a + b, whole, k, b, q, k - x.len());
        } else {
            assert(program::compiles_to(x, k, p[k]));
            assert(program::compiles_to(x + y, k, whole[k]));
            assert(pred(x[k]));
            assert forall|i: int, j: int|
                #![trigger program::matched(x, i, j)]
                #![trigger program::matched(x + y, i, j)]
                program::matched(x, i, j) == program::matched(x + y, i, j) by {
                lemma_matched_in_prefix(x, y, i, j);
            }
            match (p[k], whole[k]) {
                (Op::JumpIfZero(i), Op::JumpIfZero(j)) => {
                    law_matches_pair_off(x, k, i as int, j as int);
                },
                (Op::JumpIfNonZero(i), Op::JumpIfNonZero(j)) => {
                    law_matches_pair_off(x, i as int, j as int, k);
                },
                _ => {},
            }
        }
    }
    assert(whole =~= p + q);
}

/// Text without brackets matches nothing and leaves the matches before it.
proof fn lemma_matched_in_prefix(x: Seq<u8>, y: Seq<u8>, i: int, j: int)
    requires
        forall|k: int| 0 <= k < y.len() ==> #[trigger] y[k] != 0x5b && y[k] != 0x5d,
    ensures
        program::matched(x, i, j) == program::matched(x + y, i, j),
{
    if j >= x.len() {
        if j < (x + y).len() {
            assert((x + y)[j] == y[j - x.len()]);
        }
    } else if 0 <= i < j {
        assert forall|k: int| k <= x.len() implies #[trigger] program::height(x + y, k)
            == program::height(x, k) by {
            lemma_height_of_prefix(x, y, k);
        }
        if program::matched(x, i, j) {
            assert forall|k: int| i < k <= j implies #[trigger] program::height(x + y, k)
                > program::height(x + y, i) by {
                assert(program::height(x, k) > program::height(x, i));
            }
        }
        if program::matched(x + y, i, j) {
            assert forall|k: int| i < k <= j implies #[trigger] program::height(x, k)
                > program::height(x, i) by {
                assert(program::height(x + y, k) > program::height(x + y, i));
            }
        }
    }
}

/// Heights differ by the brackets between them, those that open counted up and those
/// that close counted down.
proof fn lemma_height_counts(s: Seq<u8>, a: int, b: int)
    requires
        0 <= a <= b <= s.len(),
    ensures
        program::height(s, b) - program::height(s, a) == s.subrange(a, b).to_multiset().count(0x5b)
            - s.subrange(a, b).to_multiset().count(0x5d),
    decreases b,
{
    broadcast use vstd::seq_lib::group_to_multiset_ensures;
    broadcast use vstd::multiset::group_multiset_axioms;

    if a == b {
        assert(s.subrange(a, b) =~= Seq::<u8>::empty());
    } else {
        lemma_height_counts(s, a, b - 1);
        assert(s.subrange(a, b) =~= s.subrange(a, b - 1).push(s[b - 1]));
    }
}

/// A source text is accepted exactly if no beginning of it closes more brackets than
/// it opens.
pub proof fn law_accepted_texts(src: Seq<u8>)
    ensures
        program::every_close_matched(src) <==> forall|n: int|
            0 <= n <= src.len() ==> (#[trigger] src.take(n)).to_multiset().count(0x5d)
                <= src.take(n).to_multiset().count(0x5b),
{
    assert forall|n: int| 0 <= n <= src.len() implies program::height(src, n) == (
    #[trigger] src.take(n)).to_multiset().count(0x5b) - src.take(n).to_multiset().count(0x5d) by {
        lemma_height_counts(src, 0, n);
    }
    if program::every_close_matched(src) {
        assert forall|n: int| 0 <= n <= src.len() implies (
        #[trigger] src.take(n)).to_multiset().count(0x5d) <= src.take(n).to_multiset().count(
            0x5b,
        ) by {
            assert(program::height(src, n) >= 0);
        }
    } else {
        let n = choose|n: int| 0 <= n <= src.len() && #[trigger] program::height(src, n) < 0;
        assert(program::height(src, n) == src.take(n).to_multiset().count(0x5b) - src.take(
            n,
        ).to_multiset().count(0x5d));
    }
}

/// Instruction `i` jumps to `j` on zero, and instruction `j` back to `i` on what is not
/// zero, exactly if a `[` stands at `i` and a `]` at `j` and the brackets between them
/// are balanced: as many open as close, and none closes before it is opened.
pub proof fn law_jumps_enclose_balanced_text(cmds: Seq<u8>, ops: Seq<Op>, i: usize, j: usize)
    requires
        program::compiled(cmds, ops),
        i < cmds.len(),
        j < cmds.len(),
        cmds[i as int] == 0x5b,
        cmds[j as int] == 0x5d,
    ensures
        (ops[i as int] == Op::JumpIfZero(j)) == (i < j && cmds.subrange(
            i + 1,
            j as int,
        ).to_multiset().count(0x5b) == cmds.subrange(i + 1, j as int).to_multiset().count(0x5d)
            && forall|k: int|
            i < k < j ==> (#[trigger] cmds.subrange(i + 1, k)).to_multiset().count(0x5d)
                <= cmds.subrange(i + 1, k).to_multiset().count(0x5b)),
        (ops[i as int] == Op::JumpIfZero(j)) == (ops[j as int] == Op::JumpIfNonZero(i)),
{
    let n = i as int;
    let m = j as int;
    assert(program::compiles_to(cmds, n, ops[n]));
    assert(program::compiles_to(cmds, m, ops[m]));
    if program::matched(cmds, n, m) {
        if let Op::JumpIfZero(k) = ops[n] {
            law_matches_pair_off(cmds, n, m, k as int);
        }
        if let Op::JumpIfNonZero(k) = ops[m] {
            law_matches_pair_off(cmds, n, k as int, m);
        }
    }
    assert((ops[n] == Op::JumpIfZero(j)) == program::matched(cmds, n, m));
    assert((ops[m] == Op::JumpIfNonZero(i)) == program::matched(cmds, n, m));
    if n < m {
        assert forall|k: int| n < k <= m implies program::height(cmds, k) - program::height(cmds, n)
            == 1 + (#[trigger] cmds.subrange(n + 1, k)).to_multiset().count(0x5b) - cmds.subrange(
            n + 1,
            k,
        ).to_multiset().count(0x5d) by {
            lemma_height_counts(cmds, n + 1, k);
        }
        assert(cmds.subrange(n + 1, m).len() == m - n - 1);
        if program::matched(cmds, n, m) {
            assert forall|k: int| n < k < m implies (
            #[trigger] cmds.subrange(n + 1, k)).to_multiset().count(0x5d) <= cmds.subrange(
                n + 1,
                k,
            ).to_multiset().count(0x5b) by {
                assert(program::height(cmds, k) > program::height(cmds, n));
            }
        } else if cmds.subrange(n + 1, m).to_multiset().count(0x5b) == cmds.subrange(
            n + 1,
            m,
        ).to_multiset().count(0x5d) {
            let k = choose|k: int|
                n < k <= m && #[trigger] program::height(cmds, k) <= program::height(cmds, n);
            assert(cmds.subrange(n + 1, k).len() == k - n - 1);
        }
    }
}

} // verus!
