use bf::interp::{Effect, Fault, Machine, RunEnd};
use bf::parser::parse;

fn compile(src: &str) -> Vec<bf::parser::Instr> {
    parse(src.chars().collect()).unwrap()
}

#[test]
fn increment_wraps_255_to_0() {
    // 256 increments bring the cell from 0 over 255 back to 0
    let src: String = std::iter::repeat('+').take(255).collect();
    let program = compile(&src);
    let mut m = Machine::new();
    let (out, end) = m.run(&program, &vec![], 1000);
    assert_eq!(RunEnd::Halted, end);
    assert!(out.is_empty());
    assert_eq!(Some(255), m.cell(0));

    let program = compile(&(src + "+"));
    let mut m = Machine::new();
    let (_, end) = m.run(&program, &vec![], 1000);
    assert_eq!(RunEnd::Halted, end);
    assert_eq!(Some(0), m.cell(0));
}

#[test]
fn decrement_wraps_0_to_255() {
    let program = compile("-");
    let mut m = Machine::new();
    let (_, end) = m.run(&program, &vec![], 10);
    assert_eq!(RunEnd::Halted, end);
    assert_eq!(Some(255), m.cell(0));
}

#[test]
fn bracketed_loop_zeroes_a_cell() {
    // three increments, then a loop that decrements until the cell is zero
    let program = compile("+++[-]");
    let mut m = Machine::new();
    let (out, end) = m.run(&program, &vec![], 1000);
    assert_eq!(RunEnd::Halted, end);
    assert!(out.is_empty());
    assert_eq!(Some(0), m.cell(0));
}

#[test]
fn empty_program_terminates_immediately_with_no_output() {
    let program = compile("");
    let mut m = Machine::new();
    let (out, end) = m.run(&program, &vec![], 1000);
    assert_eq!(RunEnd::Halted, end);
    assert!(out.is_empty());
    assert_eq!(0, m.pc());
    assert_eq!(0, m.cursor());

    let program = compile("no instruction characters at all");
    let mut m = Machine::new();
    let (out, end) = m.run(&program, &vec![], 1000);
    assert_eq!(RunEnd::Halted, end);
    assert!(out.is_empty());
}

#[test]
fn output_reports_the_cell_value() {
    let program = compile("+++.");
    let mut m = Machine::new();
    let (out, end) = m.run(&program, &vec![], 100);
    assert_eq!(RunEnd::Halted, end);
    assert_eq!(vec![3u8], out);
}

#[test]
fn input_byte_is_stored_in_the_current_cell() {
    let program = compile(",.");
    let mut m = Machine::new();
    let (out, end) = m.run(&program, &vec![65], 100);
    assert_eq!(RunEnd::Halted, end);
    assert_eq!(vec![65u8], out);
    assert_eq!(Some(65), m.cell(0));
}

#[test]
fn exhausted_input_ends_the_run() {
    let program = compile(",");
    let mut m = Machine::new();
    let (out, end) = m.run(&program, &vec![], 100);
    assert_eq!(RunEnd::InputExhausted, end);
    assert!(out.is_empty());
    assert_eq!(0, m.pc());
}

#[test]
fn step_asks_for_input_and_accepts_it() {
    let program = compile(",");
    let mut m = Machine::new();
    assert_eq!(Effect::NeedInput, m.step(&program, None));
    assert_eq!(Effect::Proceed, m.step(&program, Some(7)));
    assert_eq!(Some(7), m.cell(0));
    assert_eq!(Effect::Halted, m.step(&program, None));
}

#[test]
fn zero_cell_jump_skips_the_loop_body() {
    // the loop body would write a byte; with cell 0 it must never run
    let program = compile("[.]");
    let mut m = Machine::new();
    let (out, end) = m.run(&program, &vec![], 100);
    assert_eq!(RunEnd::Halted, end);
    assert!(out.is_empty());
}

#[test]
fn moving_left_of_cell_zero_faults() {
    let program = compile("<");
    let mut m = Machine::new();
    let (_, end) = m.run(&program, &vec![], 10);
    assert_eq!(RunEnd::Faulted(Fault::CursorUnderflow), end);
}

#[test]
fn touching_the_tape_past_the_end_faults() {
    // 3000 moves right leave the cursor just off the tape; the increment faults
    let mut src: String = std::iter::repeat('>').take(3000).collect();
    src.push('+');
    let program = compile(&src);
    let mut m = Machine::new();
    let (_, end) = m.run(&program, &vec![], 5000);
    assert_eq!(RunEnd::Faulted(Fault::CursorOutOfRange), end);
    assert_eq!(3000, m.cursor());
}

#[test]
fn moving_past_the_end_alone_does_not_fault() {
    // the cursor may wander beyond the tape as long as no cell is touched
    let src: String = "+".chars().chain(std::iter::repeat('>').take(3005)).chain("<".chars().cycle().take(3005)).chain(".".chars()).collect();
    let program = compile(&src);
    let mut m = Machine::new();
    let (out, end) = m.run(&program, &vec![], 10000);
    assert_eq!(RunEnd::Halted, end);
    assert_eq!(vec![1u8], out);
}

#[test]
fn run_stops_at_the_step_bound() {
    // an endless loop: the cell stays 1 forever
    let program = compile("+[]");
    let mut m = Machine::new();
    let (_, end) = m.run(&program, &vec![], 50);
    assert_eq!(RunEnd::OutOfSteps, end);
}

#[test]
fn dump_reports_a_twenty_cell_window() {
    let program = compile("++>+#");
    let mut m = Machine::new();
    let mut dumped: Option<Vec<u8>> = None;
    loop {
        match m.step(&program, None) {
            Effect::Dump => {
                dumped = m.dump_window();
            }
            Effect::Halted => break,
            Effect::Proceed => {}
            other => panic!("unexpected effect {:?}", other),
        }
    }
    let w = dumped.expect("a dump must have been requested");
    assert_eq!(20, w.len());
    assert_eq!(1u8, w[0]);
    assert!(w[1..].iter().all(|&b| b == 0));
}

#[test]
fn dump_near_the_tape_end_faults() {
    let src: String = std::iter::repeat('>').take(2981).chain("#".chars()).collect();
    let program = compile(&src);
    let mut m = Machine::new();
    let (_, end) = m.run(&program, &vec![], 5000);
    assert_eq!(RunEnd::Faulted(Fault::CursorOutOfRange), end);
}

#[test]
fn outputs_are_collected_in_order() {
    let program = compile("+.+.+.");
    let mut m = Machine::new();
    let (out, end) = m.run(&program, &vec![], 100);
    assert_eq!(RunEnd::Halted, end);
    assert_eq!(vec![1u8, 2, 3], out);
}
