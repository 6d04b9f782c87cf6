use tape_machine::payload::{decode_payload, B, P, Z};
use tape_machine::program::{closes_match, Op, Program};

fn parse(src: &[u8]) -> Vec<Op> {
    assert!(closes_match(src));
    Program::from_source(src).0
}

#[test]
fn payload_spells_its_text() {
    assert_eq!(decode_payload::<P>(), b"arst is evil".to_vec());
}

#[test]
fn payload_without_commands_is_the_empty_program() {
    assert_eq!(parse(&decode_payload::<P>()), vec![]);
}

#[test]
fn short_lists() {
    assert_eq!(decode_payload::<Z>(), vec![]);
    assert_eq!(decode_payload::<B<43, B<0x15d, Z>>>(), vec![43, 0x5d]);
}

#[test]
fn each_command() {
    assert_eq!(
        parse(b"+-><.,"),
        vec![Op::Inc(1), Op::Inc(-1), Op::Move(1), Op::Move(-1), Op::Out, Op::In]
    );
}

#[test]
fn brackets_jump_to_each_other() {
    assert_eq!(
        parse(b"[+[-]>[]]"),
        vec![
            Op::JumpIfZero(8),
            Op::Inc(1),
            Op::JumpIfZero(4),
            Op::Inc(-1),
            Op::JumpIfNonZero(2),
            Op::Move(1),
            Op::JumpIfZero(7),
            Op::JumpIfNonZero(6),
            Op::JumpIfNonZero(0),
        ]
    );
}

#[test]
fn open_bracket_without_a_match_does_nothing() {
    assert_eq!(
        parse(b"[[+]"),
        vec![Op::Nop, Op::JumpIfZero(3), Op::Inc(1), Op::JumpIfNonZero(1)]
    );
}

#[test]
fn comments_have_no_say() {
    assert_eq!(parse(b" a[ b+\n c] d"), parse(b"[+]"));
    assert_eq!(parse(b""), vec![]);
}

#[test]
fn jumps_come_in_pairs_inside_the_program() {
    let ops = parse(b"[[]+[[-]]]>[.[,]<]");
    for (i, op) in ops.iter().enumerate() {
        match *op {
            Op::JumpIfZero(j) => assert!(i < j && ops[j] == Op::JumpIfNonZero(i)),
            Op::JumpIfNonZero(j) => assert!(j < i && ops[j] == Op::JumpIfZero(i)),
            _ => {}
        }
    }
}

#[test]
fn unmatched_close_is_found() {
    assert!(!closes_match(b"]"));
    assert!(!closes_match(b"[]]["));
    assert!(!closes_match(b"a]b["));
    assert!(closes_match(b"[[]"));
    assert!(closes_match(b""));
}
