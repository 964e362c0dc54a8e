use std::cell::{Cell, RefCell};
use std::rc::Rc;

use brainfuck_interpreter::{BrainFuck, Fault, NoOpObserver, Observer};

const STEPS: u64 = 1_000_000;

fn run(program: &str) -> Result<Option<String>, Fault> {
    let mut bf = BrainFuck::<NoOpObserver>::new();
    bf.interpret(program, STEPS)
}

/// An observer that counts its invocations through shared state.
struct CountingObserver {
    count: Rc<Cell<u64>>,
}

impl Observer for CountingObserver {
    fn observe(&mut self, _pos: usize, _last_instruct: Option<(usize, char)>, _tape: &Vec<i32>) {
        self.count.set(self.count.get() + 1);
    }
}

/// An observer that records the last-instruction marker it is shown.
struct MarkerObserver {
    seen: Rc<RefCell<Vec<Option<(usize, char)>>>>,
}

impl Observer for MarkerObserver {
    fn observe(&mut self, _pos: usize, last_instruct: Option<(usize, char)>, _tape: &Vec<i32>) {
        self.seen.borrow_mut().push(last_instruct);
    }
}

#[test]
fn fresh_interpreter_state() {
    let bf = BrainFuck::<NoOpObserver>::new();
    assert_eq!(bf.cursor(), 0);
    assert_eq!(bf.tape_snapshot(), vec![0]);
    assert_eq!(bf.last_instruction(), None);
    assert_eq!(bf.output_text(), "");
}

#[test]
fn loop_decrements_to_zero() {
    let mut bf = BrainFuck::<NoOpObserver>::new();
    let out = bf.interpret("+++[-]", STEPS).unwrap().unwrap();
    assert_eq!(out, "");
    assert_eq!(bf.cursor(), 0);
    assert_eq!(bf.tape_snapshot(), vec![0]);
}

#[test]
fn loop_moves_value_across_cells() {
    let mut bf = BrainFuck::<NoOpObserver>::new();
    let out = bf.interpret("+++[>+<-]", STEPS).unwrap().unwrap();
    assert_eq!(out, "");
    assert_eq!(bf.tape_snapshot(), vec![0, 3]);
    assert_eq!(bf.cursor(), 0);
}

#[test]
fn decimal_output() {
    assert_eq!(run("+++?").unwrap().unwrap(), "3");
}

#[test]
fn decimal_output_two_digits() {
    assert_eq!(run("++++++++++++?").unwrap().unwrap(), "12");
}

#[test]
fn decimal_output_negative() {
    assert_eq!(run("-?").unwrap().unwrap(), "-1");
}

#[test]
fn character_output() {
    assert_eq!(run("++++++++.").unwrap().unwrap(), "\u{8}");
}

#[test]
fn character_output_wraps_to_low_byte() {
    // The cell holds -1; its low byte is 255.
    assert_eq!(run("-.").unwrap().unwrap(), "\u{ff}");
}

#[test]
fn tape_grows_one_cell_per_move() {
    let mut bf = BrainFuck::<NoOpObserver>::new();
    let out = bf.interpret(">>>", STEPS).unwrap().unwrap();
    assert_eq!(out, "");
    assert_eq!(bf.tape_snapshot(), vec![0, 0, 0, 0]);
    assert_eq!(bf.cursor(), 3);
}

#[test]
fn flat_walk_matches_simulation() {
    let mut bf = BrainFuck::<NoOpObserver>::new();
    let out = bf.interpret("+>++>+++?<?<?", STEPS).unwrap().unwrap();
    assert_eq!(out, "321");
    assert_eq!(bf.tape_snapshot(), vec![1, 2, 3]);
    assert_eq!(bf.cursor(), 0);
}

#[test]
fn comments_are_ignored() {
    let plain = run("+++?").unwrap().unwrap();
    let noisy = run("+ one\n+ two\t+ and then ?").unwrap().unwrap();
    assert_eq!(plain, noisy);
    let mut bf = BrainFuck::<NoOpObserver>::new();
    bf.interpret("comment > only ; moves # once", STEPS).unwrap().unwrap();
    assert_eq!(bf.tape_snapshot(), vec![0, 0]);
    assert_eq!(bf.cursor(), 1);
}

#[test]
fn nested_loops() {
    let mut bf = BrainFuck::<NoOpObserver>::new();
    let out = bf.interpret("++[>++[>++<-]<-]", STEPS).unwrap().unwrap();
    assert_eq!(out, "");
    assert_eq!(bf.tape_snapshot(), vec![0, 0, 8]);
    assert_eq!(bf.cursor(), 0);
}

#[test]
fn unmatched_open_bracket_faults() {
    assert_eq!(run("+["), Err(Fault::MalformedProgram));
    assert_eq!(run("["), Err(Fault::MalformedProgram));
    assert_eq!(run("++[>+<-"), Err(Fault::MalformedProgram));
}

#[test]
fn stray_close_bracket_is_a_comment() {
    assert_eq!(run("]").unwrap().unwrap(), "");
    assert_eq!(run("+]?").unwrap().unwrap(), "1");
}

#[test]
fn left_move_at_zero_faults() {
    assert_eq!(run("<"), Err(Fault::MalformedProgram));
    assert_eq!(run("+>+<<<?"), Err(Fault::MalformedProgram));
}

#[test]
fn budget_exhaustion_reports_unfinished() {
    // The loop body never zeroes the tested cell: the run cannot finish.
    assert_eq!(run("+[]"), Ok(None));
    // A finishing program still runs out of a zero budget.
    let mut bf = BrainFuck::<NoOpObserver>::new();
    assert_eq!(bf.interpret("+++?", 0), Ok(None));
}

#[test]
fn last_instruction_tracks_triggering_instructions_only() {
    let mut bf = BrainFuck::<NoOpObserver>::new();
    bf.interpret("+>", STEPS).unwrap().unwrap();
    assert_eq!(bf.last_instruction(), Some((1, '>')));
    let mut bf2 = BrainFuck::<NoOpObserver>::new();
    bf2.interpret("+.", STEPS).unwrap().unwrap();
    assert_eq!(bf2.last_instruction(), Some((0, '+')));
}

#[test]
fn observer_call_count() {
    // 1 top-level start + 3 for `+++`, then 3 passes over `>+<-`:
    // each pass 1 start-of-body + 4 triggering instructions.
    let count = Rc::new(Cell::new(0u64));
    let mut bf = BrainFuck::<CountingObserver>::new();
    bf.callback(CountingObserver { count: Rc::clone(&count) });
    bf.interpret("+++[>+<-]", STEPS).unwrap().unwrap();
    assert_eq!(count.get(), 1 + 3 + 3 * (1 + 4));
}

#[test]
fn observer_call_count_flat_program() {
    // 1 top-level start + one call per `+ - < >`; `.` and `?` are silent.
    let count = Rc::new(Cell::new(0u64));
    let mut bf = BrainFuck::<CountingObserver>::new();
    bf.callback(CountingObserver { count: Rc::clone(&count) });
    bf.interpret("+>+?.<-", STEPS).unwrap().unwrap();
    assert_eq!(count.get(), 1 + 5);
}

#[test]
fn attaching_an_observer_replaces_the_prior() {
    let first = Rc::new(Cell::new(0u64));
    let second = Rc::new(Cell::new(0u64));
    let mut bf = BrainFuck::<CountingObserver>::new();
    bf.callback(CountingObserver { count: Rc::clone(&first) });
    bf.callback(CountingObserver { count: Rc::clone(&second) });
    bf.interpret("+", STEPS).unwrap().unwrap();
    assert_eq!(first.get(), 0);
    assert_eq!(second.get(), 2);
}

#[test]
fn output_accumulates_across_the_run() {
    let mut bf = BrainFuck::<NoOpObserver>::new();
    let out = bf.interpret("+?+?+?", STEPS).unwrap().unwrap();
    assert_eq!(out, "123");
    assert_eq!(bf.output_text(), "123");
}

#[test]
fn render_shows_cursor_last_and_tape() {
    let bf = BrainFuck::<NoOpObserver>::new();
    assert_eq!(bf.render(), "pos:0\n[0]");
    let mut bf2 = BrainFuck::<NoOpObserver>::new();
    bf2.interpret("+++[>+<-]", STEPS).unwrap().unwrap();
    assert_eq!(bf2.render(), "pos:0, last: -\n[0, 3]");
    let mut bf3 = BrainFuck::<NoOpObserver>::new();
    bf3.interpret(">-", STEPS).unwrap().unwrap();
    assert_eq!(bf3.render(), "pos:1, last: -\n[0, -1]");
}

#[test]
fn empty_program_finishes_untouched() {
    let mut bf = BrainFuck::<NoOpObserver>::new();
    assert_eq!(bf.interpret("", STEPS), Ok(Some(String::new())));
    assert_eq!(bf.cursor(), 0);
    assert_eq!(bf.tape_snapshot(), vec![0]);
}

#[test]
fn budget_boundary_is_exact() {
    // Four instruction characters plus the end of the scan: five steps.
    let mut bf = BrainFuck::<NoOpObserver>::new();
    assert_eq!(bf.interpret("+++?", 5), Ok(Some(String::from("3"))));
    let mut bf2 = BrainFuck::<NoOpObserver>::new();
    assert_eq!(bf2.interpret("+++?", 4), Ok(None));
}

#[test]
fn observer_sees_the_previous_marker() {
    // The observer runs after the mutation but before the marker is updated,
    // so each call shows the marker of the preceding instruction.
    let seen = Rc::new(RefCell::new(Vec::new()));
    let mut bf = BrainFuck::<MarkerObserver>::new();
    bf.callback(MarkerObserver { seen: Rc::clone(&seen) });
    bf.interpret("+>.", STEPS).unwrap().unwrap();
    assert_eq!(*seen.borrow(), vec![None, None, Some((0, '+'))]);
    assert_eq!(bf.last_instruction(), Some((1, '>')));
}
