use brainfuck::machine::Action;
use brainfuck::{Ast, Machine};

/// Runs `program` to its end, reading from `input` and collecting output.
fn run(m: &mut Machine, src: &str, input: &[u8]) -> (usize, Vec<u8>) {
    let program = Ast::parse_str(src).unwrap();
    let mut out = Vec::new();
    let mut pos = 0;
    m.start();
    loop {
        assert!(m.ready(&program));
        match m.step(&program) {
            Action::Continue => {}
            Action::Output(b) => out.push(b),
            Action::Input => {
                let b = input.get(pos).copied();
                pos += 1;
                m.feed(&program, b);
            }
            Action::Halt => return (m.cycles(), out),
        }
    }
}

#[test]
fn three_increments_take_three_cycles() {
    let mut m = Machine::new();
    let (cycles, _) = run(&mut m, "+++", &[]);
    assert_eq!(cycles, 3);
    assert_eq!(m.current_cell(), 3);
}

#[test]
fn comments_count_as_cycles() {
    let mut m = Machine::new();
    let (cycles, _) = run(&mut m, "+ +", &[]);
    assert_eq!(cycles, 3);
}

#[test]
fn read_at_end_of_input_stores_zero() {
    let mut m = Machine::new();
    run(&mut m, "+++++", &[]);
    assert_eq!(m.current_cell(), 5);
    let (cycles, _) = run(&mut m, ",", &[]);
    assert_eq!(cycles, 1);
    assert_eq!(m.current_cell(), 0);
}

#[test]
fn read_stores_input_byte() {
    let mut m = Machine::new();
    let (_, out) = run(&mut m, ",.,.,.", b"ab");
    assert_eq!(out, vec![b'a', b'b', 0]);
}

#[test]
fn decrement_of_zero_wraps_to_max() {
    let mut m = Machine::new();
    run(&mut m, "-", &[]);
    assert_eq!(m.current_cell(), 255);
    run(&mut m, "+", &[]);
    assert_eq!(m.current_cell(), 0);
}

#[test]
fn clear_loop_zeroes_cell() {
    let mut m = Machine::new();
    run(&mut m, "+++++++", &[]);
    let (cycles, _) = run(&mut m, "[-]", &[]);
    assert_eq!(m.current_cell(), 0);
    assert_eq!(cycles, 7);
}

#[test]
fn loop_on_zero_cell_is_skipped() {
    let mut m = Machine::new();
    let (cycles, _) = run(&mut m, "[+++]", &[]);
    assert_eq!(cycles, 0);
    assert_eq!(m.current_cell(), 0);
}

#[test]
fn nested_loops_unwind() {
    let mut m = Machine::new();
    run(&mut m, "++", &[]);
    let (cycles, _) = run(&mut m, "[>+++[-]<-]", &[]);
    assert_eq!(m.current_cell(), 0);
    assert_eq!(cycles, 2 * (1 + 3 + 3 + 1 + 1));
}

#[test]
fn nested_clear_with_decrement_never_halts() {
    let program = Ast::parse_str("[[-]-]").unwrap();
    let mut m = Machine::new();
    run(&mut m, "++", &[]);
    m.start();
    for _ in 0..10000 {
        assert!(m.ready(&program));
        assert!(!matches!(m.step(&program), Action::Halt));
    }
}

#[test]
fn hello_output() {
    let mut m = Machine::new();
    let (_, out) = run(&mut m, "++++++++[>++++++++<-]>+.+.", &[]);
    assert_eq!(out, vec![b'A', b'B']);
}

#[test]
fn head_stays_at_left_edge() {
    let mut m = Machine::new();
    run(&mut m, "<<<+", &[]);
    assert_eq!(m.current_cell(), 1);
    run(&mut m, ">", &[]);
    assert_eq!(m.current_cell(), 0);
}

#[test]
fn ready_rejects_foreign_position() {
    let big = Ast::parse_str("[[+]]").unwrap();
    let small = Ast::parse_str("+").unwrap();
    let mut m = Machine::new();
    m.start();
    run(&mut m, "+", &[]);
    m.start();
    assert!(matches!(m.step(&big), Action::Continue));
    assert!(matches!(m.step(&big), Action::Continue));
    assert!(!m.ready(&small));
}
