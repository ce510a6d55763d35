use bf_interpreter::ast::{create_ast, syntax_analysis, Node, NodeType};
use bf_interpreter::interpreter::{interpreter_init, run_program, Action, Interpreter, MEMORY_SIZE};
use bf_interpreter::lexer::{lexical_analysis, Command};

fn parse(src: &str) -> Result<Node, String> {
    let commands = lexical_analysis(src.to_string()).unwrap();
    syntax_analysis(commands)
}

/// Runs `src` for at most `fuel` steps; returns the output, the final
/// interpreter and whether the program ended.
fn run_source(src: &str, input: &[u8], fuel: u64) -> (Vec<u8>, Interpreter, bool) {
    let ast = parse(src).unwrap();
    let mut interpreter = interpreter_init();
    let out = run_program(&mut interpreter, &ast, &input.to_vec(), fuel);
    let done = interpreter.finished();
    (out, interpreter, done)
}

fn count_operators(nodes: &[Node]) -> usize {
    nodes
        .iter()
        .map(|n| match n.node_type {
            NodeType::Operator => 1,
            _ => count_operators(&n.childrens),
        })
        .sum()
}

#[test]
fn lexer_maps_each_symbol() {
    let r = lexical_analysis("><+-.,[]".to_string()).unwrap();
    assert_eq!(
        r,
        vec![
            Command::IncDP,
            Command::DecDP,
            Command::IncByte,
            Command::DecByte,
            Command::OutByte,
            Command::InByte,
            Command::JumpForward,
            Command::JumpBackward,
        ]
    );
}

#[test]
fn lexer_drops_comments_and_keeps_order() {
    let src = "a+ b\n-é>x<]y[";
    let r = lexical_analysis(src.to_string()).unwrap();
    assert_eq!(
        r,
        vec![
            Command::IncByte,
            Command::DecByte,
            Command::IncDP,
            Command::DecDP,
            Command::JumpBackward,
            Command::JumpForward,
        ]
    );
    assert!(r.len() <= src.chars().count());
}

#[test]
fn lexer_empty_source() {
    assert_eq!(lexical_analysis(String::new()).unwrap(), Vec::<Command>::new());
}

#[test]
fn parser_builds_nested_loops() {
    let ast = parse("+[>[-]<]").unwrap();
    assert_eq!(ast.node_type, NodeType::Program);
    assert_eq!(ast.instruction, Command::Default);
    assert_eq!(ast.childrens.len(), 2);
    assert_eq!(ast.childrens[0].node_type, NodeType::Operator);
    assert_eq!(ast.childrens[0].instruction, Command::IncByte);
    let outer = &ast.childrens[1];
    assert_eq!(outer.node_type, NodeType::Loop);
    assert_eq!(outer.childrens.len(), 3);
    assert_eq!(outer.childrens[0].instruction, Command::IncDP);
    assert_eq!(outer.childrens[1].node_type, NodeType::Loop);
    assert_eq!(outer.childrens[1].childrens.len(), 1);
    assert_eq!(outer.childrens[1].childrens[0].instruction, Command::DecByte);
    assert_eq!(outer.childrens[2].instruction, Command::DecDP);
}

#[test]
fn parser_operator_count_matches_plain_commands() {
    let src = "++[>+[<-]>.]<,[][[]]";
    let ast = parse(src).unwrap();
    let plain = src.chars().filter(|c| *c != '[' && *c != ']').count();
    assert_eq!(count_operators(&ast.childrens), plain);
}

#[test]
fn parser_empty_program() {
    let ast = parse("").unwrap();
    assert_eq!(ast.childrens.len(), 0);
}

#[test]
fn parser_rejects_unbalanced_brackets() {
    for src in ["[", "]", "[[]", "[]]", "][", "+[-]]["] {
        assert_eq!(parse(src).unwrap_err(), "missing bracket".to_string(), "{}", src);
    }
}

#[test]
fn create_ast_stops_at_closing_bracket() {
    let commands = vec![
        Command::IncByte,
        Command::JumpForward,
        Command::DecByte,
        Command::JumpBackward,
        Command::IncDP,
    ];
    let mut node = Node { node_type: NodeType::Loop, instruction: Command::JumpForward, childrens: Vec::new() };
    let mut index: usize = 2;
    create_ast(&mut node, &commands, &mut index);
    assert_eq!(index, 3);
    assert_eq!(node.childrens.len(), 1);
    assert_eq!(node.childrens[0].node_type, NodeType::Operator);
    assert_eq!(node.childrens[0].instruction, Command::DecByte);
}

#[test]
fn init_gives_zeroed_tape() {
    let interpreter = interpreter_init();
    assert_eq!(interpreter.memory.len(), MEMORY_SIZE);
    assert!(interpreter.memory.iter().all(|b| *b == 0));
    assert_eq!(interpreter.pointer, 0);
    assert_eq!(interpreter.position, vec![0]);
}

#[test]
fn increment_wraps_to_zero() {
    let src = "+".repeat(255);
    let (_, interp, done) = run_source(&src, &[], 1000);
    assert!(done);
    assert_eq!(interp.memory[0], 255);
    let (_, interp, _) = run_source(&format!("{}+", src), &[], 1000);
    assert_eq!(interp.memory[0], 0);
}

#[test]
fn decrement_wraps_to_255() {
    let (_, interp, done) = run_source("-", &[], 10);
    assert!(done);
    assert_eq!(interp.memory[0], 255);
}

#[test]
fn pointer_left_of_zero_is_last_cell() {
    let (_, interp, done) = run_source("<+", &[], 10);
    assert!(done);
    assert_eq!(interp.pointer, MEMORY_SIZE - 1);
    assert_eq!(interp.memory[MEMORY_SIZE - 1], 1);
    assert_eq!(interp.memory[1], 0);
    assert_eq!(interp.memory[0], 0);
}

#[test]
fn pointer_right_wraps_around() {
    let src = format!("{}+", ">".repeat(MEMORY_SIZE + 2));
    let (_, interp, done) = run_source(&src, &[], 100_000);
    assert!(done);
    assert_eq!(interp.pointer, 2);
    assert_eq!(interp.memory[2], 1);
}

#[test]
fn clear_loop_runs_body_n_times() {
    let ast = parse("[-]").unwrap();
    for n in [0u8, 1, 2, 7, 255] {
        let steps = 2 * n as u64 + 2;
        let mut interp = interpreter_init();
        interp.memory[0] = n;
        let out = run_program(&mut interp, &ast, &Vec::new(), steps);
        assert!(interp.finished());
        assert_eq!(interp.memory[0], 0);
        assert!(out.is_empty());
        let mut short = interpreter_init();
        short.memory[0] = n;
        run_program(&mut short, &ast, &Vec::new(), steps - 1);
        assert!(!short.finished());
    }
}

#[test]
fn empty_loop_on_nonzero_cell_never_ends() {
    let (out, interp, done) = run_source("+[]", &[], 100_000);
    assert!(!done);
    assert!(out.is_empty());
    assert_eq!(interp.memory[0], 1);
}

#[test]
fn empty_loop_on_zero_cell_is_skipped() {
    let (_, _, done) = run_source("[]", &[], 10);
    assert!(done);
}

#[test]
fn hello_program_prints_hello() {
    let src = "++++++++[>++++[>++>+++>+++>+<<<<-]>+>+>->>+[<]<-]>>.>---.+++++++..+++.";
    let (out, _, done) = run_source(src, &[], 1_000_000);
    assert!(done);
    assert_eq!(out, b"Hello".to_vec());
}

#[test]
fn hello_world_full() {
    let src = "++++++++[>++++[>++>+++>+++>+<<<<-]>+>+>->>+[<]<-]>>.>---.+++++++..+++.>>.<-.<.+++.------.--------.>>+.>++.";
    let (out, _, done) = run_source(src, &[], 1_000_000);
    assert!(done);
    assert_eq!(out, b"Hello World!\n".to_vec());
}

#[test]
fn echo_one_byte() {
    let (out, _, done) = run_source(",.", &[65], 10);
    assert!(done);
    assert_eq!(out, vec![b'A']);
}

#[test]
fn echo_on_empty_input_gives_null() {
    let (out, _, done) = run_source(",.", &[], 10);
    assert!(done);
    assert_eq!(out, vec![0u8]);
}

#[test]
fn reads_consume_input_in_order() {
    let (out, _, _) = run_source(",>,<.>.", &[1, 2, 3], 100);
    assert_eq!(out, vec![1, 2]);
}

#[test]
fn unmatched_open_bracket_is_rejected_before_running() {
    let r = parse("+[");
    assert_eq!(r.unwrap_err(), "missing bracket");
    let r = parse("++[.>]+[.");
    assert!(r.is_err());
}

#[test]
fn step_reports_actions() {
    let ast = parse(",.").unwrap();
    let mut interp = interpreter_init();
    assert_eq!(interp.step(&ast), Action::Input);
    interp.store_input(&ast, 9);
    assert_eq!(interp.step(&ast), Action::Output(9));
    assert_eq!(interp.step(&ast), Action::Halt);
    assert!(interp.finished());
    assert_eq!(interp.step(&ast), Action::Halt);
}
