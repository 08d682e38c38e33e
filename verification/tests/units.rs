use std::collections::VecDeque;

use asmvm::error::VmError;
use asmvm::field::Field;
use asmvm::instruction::Instruction;
use asmvm::operation::Operation;
use asmvm::text::{
    contains_sub, i64_to_text, join_spaced_exec, parse_i64, split_lines, split_ws, str_eq,
    strip_quotes, trim,
};
use asmvm::token::Token;
use asmvm::variable::Variable;
use asmvm::vm::VM;

#[test]
fn blank_line_tokenizes_to_end() {
    let toks = Token::tokenize("   \n");
    assert_eq!(toks.len(), 1);
    assert!(matches!(toks[0], Token::End));
}

#[test]
fn leading_characters_classify_lines() {
    let toks = Token::tokenize("; note \n .main \n #data \n @x 1 \n add 1 2 ");
    assert_eq!(toks.len(), 5);
    match &toks[0] {
        Token::Comment(s) => assert_eq!(s, "; note"),
        _ => panic!("expected a comment"),
    }
    match &toks[1] {
        Token::Directive(s) => assert_eq!(s, ".main"),
        _ => panic!("expected a directive"),
    }
    match &toks[2] {
        Token::Label(s) => assert_eq!(s, "#data"),
        _ => panic!("expected a label"),
    }
    match &toks[3] {
        Token::Variable(s) => assert_eq!(s, "@x 1"),
        _ => panic!("expected a variable declaration"),
    }
    match &toks[4] {
        Token::Operation(s) => assert_eq!(s, "add 1 2"),
        _ => panic!("expected an operation"),
    }
}

#[test]
fn field_accessors() {
    assert_eq!(Field::Integer(5).to_int(), Some(5));
    assert_eq!(Field::Integer(5).to_s(), None);
    assert_eq!(Field::Text("hi".to_string()).to_int(), None);
    assert_eq!(Field::Text("hi".to_string()).to_s(), Some("hi".to_string()));
}

#[test]
fn field_renders_as_text() {
    assert_eq!(Field::Integer(0).to_text(), "0");
    assert_eq!(Field::Integer(-42).to_text(), "-42");
    assert_eq!(Field::Integer(i64::MIN).to_text(), "-9223372036854775808");
    assert_eq!(Field::Integer(i64::MAX).to_text(), "9223372036854775807");
    assert_eq!(Field::Text("word".to_string()).to_text(), "word");
}

#[test]
fn mnemonics_map_to_operations() {
    assert_eq!(Operation::from_mnemonic("add"), Some(Operation::Add));
    assert_eq!(Operation::from_mnemonic("sub"), Some(Operation::Sub));
    assert_eq!(Operation::from_mnemonic("mul"), Some(Operation::Mul));
    assert_eq!(Operation::from_mnemonic("div"), Some(Operation::Div));
    assert_eq!(Operation::from_mnemonic("print"), Some(Operation::Print));
    assert_eq!(Operation::from_mnemonic("jmp"), None);
    assert_eq!(Operation::from_mnemonic("Add"), None);
    assert_eq!(Operation::from_mnemonic(""), None);
}

#[test]
fn operations_render_as_mnemonics() {
    assert_eq!(Operation::Add.mnemonic(), "add");
    assert_eq!(Operation::Print.mnemonic(), "print");
}

#[test]
fn integer_literals_parse_exactly() {
    assert_eq!(parse_i64("123"), Some(123));
    assert_eq!(parse_i64("+45"), Some(45));
    assert_eq!(parse_i64("-0"), Some(0));
    assert_eq!(parse_i64("007"), Some(7));
    assert_eq!(parse_i64(""), None);
    assert_eq!(parse_i64("+"), None);
    assert_eq!(parse_i64("12a"), None);
    assert_eq!(parse_i64("1 2"), None);
    assert_eq!(parse_i64("9223372036854775807"), Some(i64::MAX));
    assert_eq!(parse_i64("9223372036854775808"), None);
    assert_eq!(parse_i64("-9223372036854775808"), Some(i64::MIN));
    assert_eq!(parse_i64("-9223372036854775809"), None);
}

#[test]
fn integers_render_in_decimal() {
    assert_eq!(i64_to_text(0), "0");
    assert_eq!(i64_to_text(10), "10");
    assert_eq!(i64_to_text(-1), "-1");
    assert_eq!(i64_to_text(i64::MIN), "-9223372036854775808");
}

#[test]
fn text_helpers_behave() {
    assert_eq!(trim("  a b \t"), "a b");
    assert_eq!(trim("   "), "");
    assert_eq!(split_ws(" one  two\tthree "), vec!["one", "two", "three"]);
    assert_eq!(split_ws("   "), Vec::<String>::new());
    assert_eq!(split_lines("a\nb\n"), vec!["a", "b"]);
    assert_eq!(split_lines("a\n\nb"), vec!["a", "", "b"]);
    assert_eq!(split_lines(""), Vec::<String>::new());
    assert_eq!(strip_quotes("\"hi\" there\""), "hi there");
    assert!(str_eq("same", "same"));
    assert!(!str_eq("same", "sane"));
    assert!(contains_sub(".endloop", ".endloop"));
    assert!(!contains_sub(".endloop", ".loop"));
    assert!(contains_sub("x .loop y", ".loop"));
    let parts = vec!["a".to_string(), "b".to_string()];
    assert_eq!(join_spaced_exec(&parts), "a b");
}

#[test]
fn process_operation_parses_operands() {
    let mut instrs: Vec<Instruction> = Vec::new();
    Instruction::process_operation("add 1 x".to_string(), &mut instrs).unwrap();
    assert_eq!(instrs.len(), 1);
    assert_eq!(instrs[0].operation, Operation::Add);
    assert_eq!(instrs[0].operands.len(), 2);
    assert_eq!(instrs[0].operands[0].to_int(), Some(1));
    assert_eq!(instrs[0].operands[1].to_s(), Some("x".to_string()));
}

#[test]
fn process_operation_rejects_unknown_mnemonic() {
    let mut instrs: Vec<Instruction> = Vec::new();
    assert_eq!(
        Instruction::process_operation("nop".to_string(), &mut instrs),
        Err(VmError::InvalidMnemonic)
    );
    assert_eq!(instrs.len(), 0);
}

#[test]
fn process_loop_replays_operations_only() {
    let mut body: VecDeque<Token> = VecDeque::new();
    body.push_back(Token::Comment("; skip".to_string()));
    body.push_back(Token::Operation("add 1 1".to_string()));
    let args = vec!["2".to_string()];
    let mut instrs: Vec<Instruction> = Vec::new();
    Instruction::process_loop(&args, &body, &mut instrs).unwrap();
    assert_eq!(instrs.len(), 2);
    assert_eq!(instrs[0].operation, Operation::Add);
    assert_eq!(instrs[1].operation, Operation::Add);
}

#[test]
fn from_tokens_collects_instructions_and_declarations() {
    let mut toks: VecDeque<Token> = VecDeque::new();
    toks.push_back(Token::Variable("@x 3".to_string()));
    toks.push_back(Token::Operation("add x 1".to_string()));
    toks.push_back(Token::End);
    let (instrs, decls) = Instruction::from_tokens(toks).unwrap();
    assert_eq!(instrs.len(), 1);
    assert_eq!(decls, vec!["@x 3".to_string()]);
}

#[test]
fn variables_resolve_with_sigil_stripped() {
    let decls = vec!["@x 10".to_string(), "@msg \"hi\"".to_string()];
    let vars = Variable::from_vec_string(decls).unwrap();
    assert_eq!(vars.len(), 2);
    assert_eq!(vars[0].name, "x");
    assert_eq!(vars[0].value.to_int(), Some(10));
    assert_eq!(vars[1].name, "msg");
    assert_eq!(vars[1].value.to_s(), Some("hi".to_string()));
}

#[test]
fn variable_extra_words_are_ignored() {
    let vars = Variable::from_vec_string(vec!["@x 1 trailing".to_string()]).unwrap();
    assert_eq!(vars.len(), 1);
    assert_eq!(vars[0].value.to_int(), Some(1));
}

#[test]
fn execute_instruction_appends_results() {
    let mut operands: VecDeque<Field> = VecDeque::new();
    operands.push_back(Field::Integer(2));
    operands.push_back(Field::Integer(3));
    let ins = Instruction::new(Operation::Mul, operands);
    let vars: Vec<Variable> = Vec::new();
    let mut results: VecDeque<Field> = VecDeque::new();
    let mut out: Vec<String> = Vec::new();
    ins.execute_instruction(&mut results, &vars, &mut out).unwrap();
    assert_eq!(results.len(), 1);
    assert_eq!(results[0].to_int(), Some(6));
    assert_eq!(out, Vec::<String>::new());
}

#[test]
fn execute_instruction_substitutes_each_match() {
    let mut operands: VecDeque<Field> = VecDeque::new();
    operands.push_back(Field::Text("x".to_string()));
    operands.push_back(Field::Integer(0));
    let ins = Instruction::new(Operation::Add, operands);
    let vars = vec![
        Variable::new("x".to_string(), Field::Integer(1)),
        Variable::new("x".to_string(), Field::Integer(2)),
    ];
    let mut results: VecDeque<Field> = VecDeque::new();
    let mut out: Vec<String> = Vec::new();
    ins.execute_instruction(&mut results, &vars, &mut out).unwrap();
    assert_eq!(results.len(), 2);
    assert_eq!(results[0].to_int(), Some(1));
    assert_eq!(results[1].to_int(), Some(2));
}

#[test]
fn new_vm_has_empty_stack() {
    let vm = VM::new();
    assert_eq!(vm.stack.len(), 0);
}
