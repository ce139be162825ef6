use wpkpp::do_grade;
use wpkpp::error::Error;
use wpkpp::task::Task;
use wpkpp::vm::Instruction;

#[test]
fn empty_program_scores_only_zero_cases() {
    // An empty program leaves the whole tape clear, so exactly the XOR
    // cases whose expected output is 0 pass: the two reserved equal-input
    // cases plus whichever drawn cases have equal bits.
    let outcome = do_grade(Task::ZeroXor, Vec::new(), "NOSEED").unwrap();
    assert_eq!(outcome.total, 100);
    assert!(outcome.correct >= 2);
    assert!(outcome.correct <= 98);
    assert!(!outcome.verdict);
    assert_eq!(outcome.max_runtime, 0);
    assert_eq!(outcome.max_memory, 1);
    assert_eq!(outcome.inc_count, 0);
    assert_eq!(outcome.cdec_count, 0);
    assert_eq!(outcome.load_count, 0);
    assert_eq!(outcome.inv_count, 0);
}

#[test]
fn complementary_programs_split_the_batch() {
    // A program that always writes 1 into the output cell passes exactly
    // the XOR cases the empty program fails.
    let ones = vec![Instruction::Inc(2), Instruction::Inv];
    let outcome_ones = do_grade(Task::ZeroXor, ones, "NOSEED").unwrap();
    let outcome_empty = do_grade(Task::ZeroXor, Vec::new(), "NOSEED").unwrap();
    assert_eq!(outcome_ones.correct + outcome_empty.correct, 100);
    assert_eq!(outcome_ones.max_runtime, 3);
    assert_eq!(outcome_ones.max_memory, 3);
    assert_eq!(outcome_ones.inc_count, 2);
    assert_eq!(outcome_ones.inv_count, 1);
}

#[test]
fn grading_is_reproducible() {
    let prog = vec![Instruction::Inc(2), Instruction::Inv];
    let a = do_grade(Task::ZeroXor, prog.clone(), "fixed key").unwrap();
    let b = do_grade(Task::ZeroXor, prog, "fixed key").unwrap();
    assert_eq!(a.correct, b.correct);
    assert_eq!(a.verdict, b.verdict);
    assert_eq!(a.max_runtime, b.max_runtime);
    assert_eq!(a.max_memory, b.max_memory);
}

#[test]
fn unimplemented_task_fails_the_whole_run() {
    assert!(matches!(
        do_grade(Task::SevenPointMul, Vec::new(), "NOSEED"),
        Err(Error::TaskNotImplemented)
    ));
}
