use asmvm::error::VmError;
use asmvm::vm::VM;

fn run_ok(source: &str) -> (Vec<i64>, Vec<String>) {
    let mut vm = VM::new();
    let output = vm.execute(source).expect("program should be accepted");
    (vm.stack.iter().copied().collect(), output)
}

fn run_err(source: &str) -> VmError {
    let mut vm = VM::new();
    match vm.execute(source) {
        Ok(_) => panic!("program should be rejected"),
        Err(e) => {
            assert_eq!(vm.stack.len(), 0);
            e
        },
    }
}

#[test]
fn add_yields_sum() {
    let (stack, output) = run_ok("add 2 3");
    assert_eq!(stack, vec![5]);
    assert_eq!(output, Vec::<String>::new());
}

#[test]
fn sub_is_left_minus_right() {
    let (stack, _) = run_ok("sub 10 4");
    assert_eq!(stack, vec![6]);
}

#[test]
fn mul_yields_product() {
    let (stack, _) = run_ok("mul -3 3");
    assert_eq!(stack, vec![-9]);
}

#[test]
fn div_truncates_toward_zero() {
    let (stack, _) = run_ok("div 7 2\ndiv -7 2\ndiv 7 -2\ndiv -7 -2");
    assert_eq!(stack, vec![3, -3, -3, 3]);
}

#[test]
fn div_by_zero_is_rejected() {
    assert_eq!(run_err("div 1 0"), VmError::DivisionByZero);
}

#[test]
fn add_overflow_is_rejected() {
    assert_eq!(run_err("add 9223372036854775807 1"), VmError::Overflow);
}

#[test]
fn sub_overflow_is_rejected() {
    assert_eq!(run_err("sub -9223372036854775808 1"), VmError::Overflow);
}

#[test]
fn div_min_by_minus_one_is_rejected() {
    assert_eq!(run_err("div -9223372036854775808 -1"), VmError::Overflow);
}

#[test]
fn min_integer_literal_parses() {
    let (stack, _) = run_ok("add -9223372036854775808 0");
    assert_eq!(stack, vec![i64::MIN]);
}

#[test]
fn loop_three_expands_to_three_adds() {
    let (stack, output) = run_ok(".loop 3\nadd 2 3\n.endloop");
    assert_eq!(stack, vec![5, 5, 5]);
    assert_eq!(output, Vec::<String>::new());
}

#[test]
fn loop_without_count_repeats_zero_times() {
    let (stack, _) = run_ok(".loop\nadd 1 1\n.endloop");
    assert_eq!(stack, Vec::<i64>::new());
}

#[test]
fn loop_count_is_first_nonnegative_argument() {
    let (stack, _) = run_ok(".loop -5 2\nadd 1 1\n.endloop");
    assert_eq!(stack, vec![2, 2]);
}

#[test]
fn loop_body_non_operations_are_dropped() {
    let (stack, _) = run_ok(".loop 2\n; a comment\n@z 9\nadd 4 4\n.endloop");
    assert_eq!(stack, vec![8, 8]);
}

#[test]
fn missing_endloop_is_rejected() {
    assert_eq!(run_err(".loop 2\nadd 1 1"), VmError::MissingLoopEnd);
}

#[test]
fn variable_resolves_in_add() {
    let (stack, _) = run_ok("@x 10\nadd x 5");
    assert_eq!(stack, vec![15]);
}

#[test]
fn variable_resolves_on_right_side() {
    let (stack, _) = run_ok("@x 10\nsub 20 x");
    assert_eq!(stack, vec![10]);
}

#[test]
fn duplicate_declarations_each_contribute() {
    let (stack, _) = run_ok("@x 1\n@x 2\nadd x 0");
    assert_eq!(stack, vec![1, 2]);
}

#[test]
fn unmatched_variable_yields_no_result() {
    let (stack, output) = run_ok("add y 5");
    assert_eq!(stack, Vec::<i64>::new());
    assert_eq!(output, Vec::<String>::new());
}

#[test]
fn print_substitutes_and_strips_quotes() {
    let (stack, output) = run_ok("@x 7\nprint \"hello\" x");
    assert_eq!(stack, Vec::<i64>::new());
    assert_eq!(output, vec!["hello 7".to_string()]);
}

#[test]
fn print_renders_integers_in_decimal() {
    let (_, output) = run_ok("print 42 -42");
    assert_eq!(output, vec!["42 -42".to_string()]);
}

#[test]
fn print_without_operands_emits_empty_line() {
    let (_, output) = run_ok("print");
    assert_eq!(output, vec!["".to_string()]);
}

#[test]
fn print_text_variable_value() {
    let (_, output) = run_ok("@name \"bob\"\nprint name");
    assert_eq!(output, vec!["bob".to_string()]);
}

#[test]
fn print_duplicate_matches_each_emit() {
    let (_, output) = run_ok("@x 1\n@x 2\nprint x");
    assert_eq!(output, vec!["1 2".to_string()]);
}

#[test]
fn text_variable_in_arithmetic_is_rejected() {
    assert_eq!(run_err("@x \"hi\"\nadd x 1"), VmError::InvalidOperands);
}

#[test]
fn two_text_operands_are_rejected() {
    assert_eq!(run_err("add a b"), VmError::InvalidOperands);
}

#[test]
fn one_operand_is_rejected() {
    assert_eq!(run_err("add 1"), VmError::InvalidOperands);
}

#[test]
fn three_operands_are_rejected() {
    assert_eq!(run_err("add 1 2 3"), VmError::InvalidOperands);
}

#[test]
fn unknown_mnemonic_is_rejected() {
    assert_eq!(run_err("bogus 1 2"), VmError::InvalidMnemonic);
}

#[test]
fn declaration_without_value_is_rejected() {
    assert_eq!(run_err("@x"), VmError::MalformedDeclaration);
}

#[test]
fn comments_labels_directives_are_no_ops() {
    let (stack, output) = run_ok("; comment\n#data\n#code\n.main\n\nadd 1 1\n.end");
    assert_eq!(stack, vec![2]);
    assert_eq!(output, Vec::<String>::new());
}

#[test]
fn out_of_range_literal_is_a_text_operand() {
    let (stack, _) = run_ok("add 9223372036854775808 1");
    assert_eq!(stack, Vec::<i64>::new());
}

#[test]
fn stack_accumulates_across_runs() {
    let mut vm = VM::new();
    vm.execute("add 1 1").unwrap();
    vm.execute("add 2 2").unwrap();
    let stack: Vec<i64> = vm.stack.iter().copied().collect();
    assert_eq!(stack, vec![2, 4]);
}

#[test]
fn rejected_run_leaves_stack_unchanged() {
    let mut vm = VM::new();
    vm.execute("add 1 1").unwrap();
    assert_eq!(vm.execute("div 1 0"), Err(VmError::DivisionByZero));
    let stack: Vec<i64> = vm.stack.iter().copied().collect();
    assert_eq!(stack, vec![2]);
}

#[test]
fn second_loop_directive_replays_first_body() {
    // Only the first loop region is spliced out; a later loop-start
    // directive replays that same buffered body, and the second region's
    // own operation line stays inline and runs once.
    let (stack, _) = run_ok(".loop 1\nadd 1 1\n.endloop\n.loop 2\nadd 1 1\n.endloop");
    assert_eq!(stack, vec![2, 2, 2, 2]);
}

#[test]
fn windows_line_endings_are_trimmed() {
    let (stack, _) = run_ok("add 3 4\r\nadd 1 1\r\n");
    assert_eq!(stack, vec![7, 2]);
}
