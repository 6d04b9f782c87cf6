//! Programs and their source text.
//!
//! The language has eight one-byte commands; every other byte is a comment.
//! `[` and `]` jump to each other where they match.

use vstd::prelude::*;

verus! {

/// The command bytes `+`, `-`, `>`, `<`, `.`, `,`, `[` and `]`.
pub const PLUS: u8 = 0x2b;

pub const MINUS: u8 = 0x2d;

pub const RIGHT: u8 = 0x3e;

pub const LEFT: u8 = 0x3c;

pub const DOT: u8 = 0x2e;

pub const COMMA: u8 = 0x2c;

pub const OPEN: u8 = 0x5b;

pub const CLOSE: u8 = 0x5d;

/// One instruction.
#[derive(Debug, Copy, Clone, PartialEq, Eq)]
pub enum Op {
    /// Adds to the cell.
    Inc(i8),
    /// Moves to the right if positive, else to the left.
    Move(i8),
    /// Adds an input byte to the cell.
    In,
    /// Writes the cell's low byte.
    Out,
    /// Jumps if the cell is zero.
    JumpIfZero(usize),
    /// Jumps if the cell is not zero.
    JumpIfNonZero(usize),
    /// Does nothing.
    Nop,
}

/// A parsed program. Its view is the sequence of its instructions.
pub struct Program(pub Vec<Op>);

impl View for Program {
    type V = Seq<Op>;

    open spec fn view(&self) -> Seq<Op> {
        self.0@
    }
}

/// The bytes that are commands.
pub open spec fn is_command(b: u8) -> bool {
    b == PLUS || b == MINUS || b == RIGHT || b == LEFT || b == DOT || b == COMMA || b == OPEN || b
        == CLOSE
}

/// The commands of a source text, comments left out.
pub open spec fn commands(src: Seq<u8>) -> Seq<u8> {
    src.filter(|b: u8| is_command(b))
}

/// How much a byte opens.
pub open spec fn opening(b: u8) -> int {
    if b == OPEN {
        1
    } else if b == CLOSE {
        -1
    } else {
        0
    }
}

/// How many more brackets the first `n` bytes open than close.
pub open spec fn height(s: Seq<u8>, n: int) -> int
    decreases n,
{
    if n <= 0 {
        0
    } else {
        height(s, n - 1) + opening(s[n - 1])
    }
}

/// Every `]` has a `[` before it to close.
pub open spec fn every_close_matched(src: Seq<u8>) -> bool {
    forall|n: int| 0 <= n <= src.len() ==> #[trigger] height(src, n) >= 0
}

/// The `[` at `i` and the `]` at `j` match: the brackets between them cancel
/// out and none of them closes the one at `i`.
pub open spec fn matched(cmds: Seq<u8>, i: int, j: int) -> bool {
    &&& 0 <= i < j < cmds.len()
    &&& cmds[i] == OPEN
    &&& cmds[j] == CLOSE
    &&& height(cmds, j + 1) == height(cmds, i)
    &&& forall|k: int| i < k <= j ==> #[trigger] height(cmds, k) > height(cmds, i)
}

/// `op` is the instruction for command `i`. A `[` jumps to the matching `]`
/// and back; one that nothing matches does nothing.
pub open spec fn compiles_to(cmds: Seq<u8>, i: int, op: Op) -> bool {
    let b = cmds[i];
    if b == PLUS {
        op == Op::Inc(1)
    } else if b == MINUS {
        op == Op::Inc(-1i8)
    } else if b == RIGHT {
        op == Op::Move(1)
    } else if b == LEFT {
        op == Op::Move(-1i8)
    } else if b == DOT {
        op == Op::Out
    } else if b == COMMA {
        op == Op::In
    } else if b == OPEN {
        match op {
            Op::JumpIfZero(j) => matched(cmds, i, j as int),
            Op::Nop => forall|j: int| !#[trigger] matched(cmds, i, j),
            _ => false,
        }
    } else {
        match op {
            Op::JumpIfNonZero(j) => matched(cmds, j as int, i),
            _ => false,
        }
    }
}

/// `ops` is the program for the commands `cmds`: one instruction each, in order.
pub open spec fn compiled(cmds: Seq<u8>, ops: Seq<Op>) -> bool {
    &&& ops.len() == cmds.len()
    &&& forall|i: int| 0 <= i < ops.len() ==> compiles_to(cmds, i, #[trigger] ops[i])
}

/// Heights depend only on the bytes before them.
proof fn lemma_height_prefix(s: Seq<u8>, b: u8, n: int)
    requires
        n <= s.len(),
    ensures
        height(s.push(b), n) == height(s, n),
    decreases n,
{
    if n > 0 {
        lemma_height_prefix(s, b, n - 1);
    }
}

/// A further command changes no match among those before it.
proof fn lemma_matched_push(s: Seq<u8>, b: u8, i: int, j: int)
    requires
        j < s.len(),
    ensures
        matched(s.push(b), i, j) == matched(s, i, j),
{
    if 0 <= i < j {
        assert forall|n: int| 0 <= n <= j + 1 implies #[trigger] height(s.push(b), n) == height(
            s,
            n,
        ) by {
            lemma_height_prefix(s, b, n);
        }
        if matched(s, i, j) {
            assert forall|k: int| i < k <= j implies #[trigger] height(s.push(b), k) > height(
                s.push(b),
                i,
            ) by {
                assert(height(s, k) > height(s, i));
            }
        }
        if matched(s.push(b), i, j) {
            assert forall|k: int| i < k <= j implies #[trigger] height(s, k) > height(s, i) by {
                assert(height(s.push(b), k) > height(s.push(b), i));
            }
        }
    }
}

/// The `[` at `pos` is open, with `depth` others open around it.
spec fn still_open(cmds: Seq<u8>, pos: int, depth: int) -> bool {
    &&& 0 <= pos < cmds.len()
    &&& cmds[pos] == OPEN
    &&& height(cmds, pos) == depth
    &&& forall|k: int| pos < k <= cmds.len() ==> #[trigger] height(cmds, k) > depth
}

/// What the parser keeps: the instructions so far fit the commands so far, and
/// the stack holds the brackets that are still open, outermost first.
spec fn parsing(cmds: Seq<u8>, ops: Seq<Op>, stack: Seq<usize>) -> bool {
    &&& compiled(cmds, ops)
    &&& stack.len() == height(cmds, cmds.len() as int)
    &&& forall|k: int|
        0 <= k < stack.len() ==> still_open(cmds, (#[trigger] stack[k]) as int, k)
    &&& forall|i: int|
        0 <= i < ops.len() && #[trigger] ops[i] == Op::Nop ==> stack.contains(i as usize)
}

/// A further command that closes nothing keeps the instructions before it
/// right and the open brackets open.
proof fn lemma_push_keeps(cmds: Seq<u8>, ops: Seq<Op>, stack: Seq<usize>, b: u8)
    requires
        parsing(cmds, ops, stack),
        b != CLOSE,
    ensures
        forall|i: int|
            0 <= i < ops.len() ==> compiles_to(cmds.push(b), i, #[trigger] ops[i]),
        forall|k: int|
            0 <= k < stack.len() ==> still_open(cmds.push(b), (#[trigger] stack[k]) as int, k),
        height(cmds.push(b), cmds.len() as int) == stack.len(),
        height(cmds.push(b), cmds.len() as int + 1) == stack.len() + opening(b),
{
    let len = cmds.len() as int;
    let more = cmds.push(b);
    lemma_height_prefix(cmds, b, len);
    assert forall|i: int| 0 <= i < ops.len() implies compiles_to(more, i, #[trigger] ops[i]) by {
        assert(compiles_to(cmds, i, ops[i]));
        match ops[i] {
            Op::JumpIfZero(j) => lemma_matched_push(cmds, b, i, j as int),
            Op::JumpIfNonZero(j) => lemma_matched_push(cmds, b, j as int, i),
            Op::Nop => {
                assert forall|j: int| !#[trigger] matched(more, i, j) by {
                    if j < len {
                        lemma_matched_push(cmds, b, i, j);
                    }
                }
            },
            _ => {},
        }
    }
    assert forall|k: int| 0 <= k < stack.len() implies still_open(
        more,
        (#[trigger] stack[k]) as int,
        k,
    ) by {
        let pos = stack[k] as int;
        assert(still_open(cmds, pos, k));
        lemma_height_prefix(cmds, b, pos);
        assert forall|n: int| pos < n <= more.len() implies #[trigger] height(more, n) > k by {
            if n <= len {
                lemma_height_prefix(cmds, b, n);
                assert(height(cmds, n) > k);
            }
        }
    }
}

/// The parser's step on a command that is no bracket.
proof fn lemma_parse_plain(cmds: Seq<u8>, ops: Seq<Op>, stack: Seq<usize>, b: u8, op: Op)
    requires
        parsing(cmds, ops, stack),
        b != OPEN,
        b != CLOSE,
        op != Op::Nop,
        compiles_to(cmds.push(b), cmds.len() as int, op),
    ensures
        parsing(cmds.push(b), ops.push(op), stack),
{
    lemma_push_keeps(cmds, ops, stack, b);
    assert forall|i: int| 0 <= i < ops.push(op).len() implies compiles_to(
        cmds.push(b),
        i,
        #[trigger] ops.push(op)[i],
    ) by {
        if i < ops.len() {
            assert(ops.push(op)[i] == ops[i]);
        }
    }
    assert forall|i: int|
        0 <= i < ops.push(op).len() && #[trigger] ops.push(op)[i]
            == Op::Nop implies stack.contains(i as usize) by {
        assert(ops[i] == Op::Nop);
    }
}

/// The parser's step on `[`.
proof fn lemma_parse_open(cmds: Seq<u8>, ops: Seq<Op>, stack: Seq<usize>)
    requires
        parsing(cmds, ops, stack),
        cmds.len() <= usize::MAX,
    ensures
        parsing(cmds.push(OPEN), ops.push(Op::Nop), stack.push(cmds.len() as usize)),
{
    let b = OPEN;
    let len = cmds.len() as int;
    let more = cmds.push(b);
    let ops2 = ops.push(Op::Nop);
    let stack2 = stack.push(len as usize);
    lemma_push_keeps(cmds, ops, stack, b);
    assert forall|i: int| 0 <= i < ops2.len() implies compiles_to(more, i, #[trigger] ops2[i]) by {
        if i < len {
            assert(ops2[i] == ops[i]);
        }
    }
    assert forall|k: int| 0 <= k < stack2.len() implies still_open(
        more,
        (#[trigger] stack2[k]) as int,
        k,
    ) by {
        if k < stack.len() {
            assert(stack2[k] == stack[k]);
        }
    }
    assert forall|i: int| 0 <= i < ops2.len() && #[trigger] ops2[i]
        == Op::Nop implies stack2.contains(i as usize) by {
        if i < len {
            assert(ops[i] == Op::Nop);
            let k = choose|k: int| 0 <= k < stack.len() && stack[k] == i as usize;
            assert(stack2[k] == i as usize);
        } else {
            assert(stack2[stack.len() as int] == i as usize);
        }
    }
}

/// The parser's step on `]`.
proof fn lemma_parse_close(cmds: Seq<u8>, ops: Seq<Op>, stack: Seq<usize>)
    requires
        parsing(cmds, ops, stack),
        stack.len() > 0,
        cmds.len() <= usize::MAX,
    ensures
        parsing(
            cmds.push(CLOSE),
            ops.update(stack.last() as int, Op::JumpIfZero(cmds.len() as usize)).push(
                Op::JumpIfNonZero(stack.last()),
            ),
            stack.drop_last(),
        ),
{
    let b = CLOSE;
    let len = cmds.len() as int;
    let more = cmds.push(b);
    let top = stack.last() as int;
    let depth = stack.len() - 1;
    let ops2 = ops.update(top, Op::JumpIfZero(len as usize)).push(Op::JumpIfNonZero(top as usize));
    let stack2 = stack.drop_last();
    assert(still_open(cmds, stack[depth] as int, depth));
    lemma_height_prefix(cmds, b, len);
    assert(height(more, len + 1) == depth);
    assert(matched(more, top, len)) by {
        lemma_height_prefix(cmds, b, top);
        assert forall|k: int| top < k <= len implies #[trigger] height(more, k) > height(
            more,
            top,
        ) by {
            lemma_height_prefix(cmds, b, k);
            assert(height(cmds, k) > depth);
        }
    }
    assert forall|i: int| 0 <= i < ops2.len() implies compiles_to(more, i, #[trigger] ops2[i]) by {
        if i < len && i != top {
            assert(ops2[i] == ops[i]);
            assert(compiles_to(cmds, i, ops[i]));
            match ops[i] {
                Op::JumpIfZero(j) => lemma_matched_push(cmds, b, i, j as int),
                Op::JumpIfNonZero(j) => lemma_matched_push(cmds, b, j as int, i),
                Op::Nop => {
                    let k = choose|k: int| 0 <= k < stack.len() && stack[k] == i as usize;
                    assert(still_open(cmds, stack[k] as int, k));
                    lemma_height_prefix(cmds, b, i);
                    assert forall|j: int| !#[trigger] matched(more, i, j) by {
                        if j < len {
                            lemma_matched_push(cmds, b, i, j);
                        }
                    }
                },
                _ => {},
            }
        }
    }
    assert forall|k: int| 0 <= k < stack2.len() implies still_open(
        more,
        (#[trigger] stack2[k]) as int,
        k,
    ) by {
        let pos = stack[k] as int;
        assert(still_open(cmds, stack[k] as int, k));
        lemma_height_prefix(cmds, b, pos);
        assert forall|n: int| pos < n <= more.len() implies #[trigger] height(more, n) > k by {
            if n <= len {
                lemma_height_prefix(cmds, b, n);
                assert(height(cmds, n) > k);
            }
        }
    }
    assert forall|i: int| 0 <= i < ops2.len() && #[trigger] ops2[i]
        == Op::Nop implies stack2.contains(i as usize) by {
        assert(i < len && i != top);
        assert(ops[i] == Op::Nop);
        let k = choose|k: int| 0 <= k < stack.len() && stack[k] == i as usize;
        assert(stack2[k] == i as usize);
    }
}

/// What one more byte of source does to the commands.
proof fn lemma_commands_step(src: Seq<u8>, n: int)
    requires
        0 <= n < src.len(),
    ensures
        commands(src.take(n + 1)) == if is_command(src[n]) {
            commands(src.take(n)).push(src[n])
        } else {
            commands(src.take(n))
        },
{
    assert(src.take(n + 1) =~= src.take(n).push(src[n]));
    src.take(n).lemma_filter_push(src[n], |b: u8| is_command(b));
}

impl Program {
    /// Parses a source text.
    pub fn from_source(src: &[u8]) -> (p: Self)
        requires
            every_close_matched(src@),
        ensures
            compiled(commands(src@), p@),
    {
        let mut prog: Vec<Op> = Vec::new();
        let mut stack: Vec<usize> = Vec::new();
        let mut n: usize = 0;
        proof {
            reveal(Seq::filter);
            assert(commands(src@.take(0)) =~= Seq::empty());
        }
        while n < src.len()
            invariant
                n <= src@.len(),
                every_close_matched(src@),
                parsing(commands(src@.take(n as int)), prog@, stack@),
                stack@.len() == height(src@, n as int),
            decreases src@.len() - n,
        {
            let b: u8 = src[n];
            let ghost cmds = commands(src@.take(n as int));
            let ghost ops = prog@;
            proof {
                lemma_commands_step(src@, n as int);
                assert(height(src@, n + 1) >= 0);
            }
            if b == PLUS {
                prog.push(Op::Inc(1));
                proof {
                    lemma_parse_plain(cmds, ops, stack@, b, Op::Inc(1));
                }
            } else if b == MINUS {
                prog.push(Op::Inc(-1));
                proof {
                    lemma_parse_plain(cmds, ops, stack@, b, Op::Inc(-1i8));
                }
            } else if b == RIGHT {
                prog.push(Op::Move(1));
                proof {
                    lemma_parse_plain(cmds, ops, stack@, b, Op::Move(1));
                }
            } else if b == LEFT {
                prog.push(Op::Move(-1));
                proof {
                    lemma_parse_plain(cmds, ops, stack@, b, Op::Move(-1i8));
                }
            } else if b == DOT {
                prog.push(Op::Out);
                proof {
                    lemma_parse_plain(cmds, ops, stack@, b, Op::Out);
                }
            } else if b == COMMA {
                prog.push(Op::In);
                proof {
                    lemma_parse_plain(cmds, ops, stack@, b, Op::In);
                }
            } else if b == OPEN {
                let here: usize = prog.len();
                proof {
                    lemma_parse_open(cmds, ops, stack@);
                }
                stack.push(here);
                prog.push(Op::Nop);
            } else if b == CLOSE {
                let here: usize = prog.len();
                let ghost open = stack@;
                proof {
                    lemma_parse_close(cmds, ops, open);
                    assert(still_open(cmds, open[open.len() - 1] as int, open.len() - 1));
                }
                if let Some(j) = stack.pop() {
                    prog.set(j, Op::JumpIfZero(here));
                    prog.push(Op::JumpIfNonZero(j));
                }
            }
            n += 1;
        }
        assert(src@.take(n as int) =~= src@);
        Program(prog)
    }
}

/// Tells whether every `]` of a source text has a `[` to close.
pub fn closes_match(src: &[u8]) -> (r: bool)
    ensures
        r == every_close_matched(src@),
{
    let mut depth: usize = 0;
    let mut n: usize = 0;
    while n < src.len()
        invariant
            n <= src@.len(),
            depth <= n,
            depth == height(src@, n as int),
            forall|k: int| 0 <= k <= n ==> #[trigger] height(src@, k) >= 0,
        decreases src@.len() - n,
    {
        if src[n] == OPEN {
            depth = depth + 1;
        } else if src[n] == CLOSE {
            if depth == 0 {
                assert(height(src@, n + 1) < 0);
                return false;
            }
            depth = depth - 1;
        }
        n += 1;
    }
    true
}

} // verus!
