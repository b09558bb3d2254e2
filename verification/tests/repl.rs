use brainf::brain::Brain;
use brainf::engine::Interpreter;
use brainf::parser::Parser;
use brainf::token::RunStatus;
use brainf::token::Token;
use brainf::token::TokenizeStatus;

fn commit(parser: &mut Parser, engine: &mut Interpreter) {
    engine.take_tokens(parser.tokens.clone());
    parser.reset();
}

#[test]
fn balanced_pair_targets() {
    let mut parser = Parser::new();
    let status = parser.tokenize("[+]");
    assert_eq!(status, TokenizeStatus::Done);
    assert!(parser.match_stack.is_empty());
    assert_eq!(
        parser.tokens,
        vec![
            Token::JumpForward(2),
            Token::DataIncrement,
            Token::JumpBackward(0),
        ]
    );
    let fwd = parser
        .tokens
        .iter()
        .filter(|t| matches!(t, Token::JumpForward(_)))
        .count();
    let bwd = parser
        .tokens
        .iter()
        .filter(|t| matches!(t, Token::JumpBackward(_)))
        .count();
    assert_eq!(fwd, bwd);
}

#[test]
fn nested_pairs_resolve_mutually() {
    let mut parser = Parser::new();
    let status = parser.tokenize("[[]]");
    assert_eq!(status, TokenizeStatus::Done);
    assert_eq!(
        parser.tokens,
        vec![
            Token::JumpForward(3),
            Token::JumpForward(2),
            Token::JumpBackward(1),
            Token::JumpBackward(0),
        ]
    );
}

#[test]
fn bracket_across_chunks() {
    let mut split = Parser::new();
    assert_eq!(split.tokenize("[+"), TokenizeStatus::Done);
    assert_eq!(split.match_stack.len(), 1);
    assert_eq!(split.tokenize("]"), TokenizeStatus::Done);
    assert!(split.match_stack.is_empty());

    let mut whole = Parser::new();
    assert_eq!(whole.tokenize("[+]"), TokenizeStatus::Done);

    assert_eq!(split.tokens, whole.tokens);
}

#[test]
fn unbalanced_discards_fragment() {
    let mut parser = Parser::new();
    let engine = Interpreter::new();
    let status = parser.tokenize("+++]");
    assert_eq!(status, TokenizeStatus::Unbalanced);
    assert!(parser.tokens.is_empty());
    assert!(parser.match_stack.is_empty());
    assert!(engine.tokens.is_empty());
}

#[test]
fn unbalanced_discards_earlier_valid_tokens() {
    let mut parser = Parser::new();
    let status = parser.tokenize("+[+]]++");
    assert_eq!(status, TokenizeStatus::Unbalanced);
    assert!(parser.tokens.is_empty());
    assert!(parser.match_stack.is_empty());
}

#[test]
fn close_alone_reports_and_commits_nothing() {
    let mut parser = Parser::new();
    let mut engine = Interpreter::new();
    let status = parser.tokenize("]");
    assert_eq!(status, TokenizeStatus::Unbalanced);
    assert!(parser.tokens.is_empty());
    commit(&mut parser, &mut engine);
    assert!(engine.tokens.is_empty());
    assert_eq!(engine.interpret(100), RunStatus::Done);
}

#[test]
fn quit_stops_the_scan() {
    let mut parser = Parser::new();
    let status = parser.tokenize("+?+");
    assert_eq!(status, TokenizeStatus::Quit);
    assert_eq!(parser.tokens, vec![Token::DataIncrement]);
}

#[test]
fn unrecognized_characters_are_ignored() {
    let mut parser = Parser::new();
    let status = parser.tokenize("hello world! 123");
    assert_eq!(status, TokenizeStatus::Done);
    assert!(parser.tokens.is_empty());
}

#[test]
fn cell_arithmetic_wraps() {
    let mut brain = Brain::new();
    brain.decrement();
    assert_eq!(brain.cell(0), 255);
    brain.increment();
    assert_eq!(brain.cell(0), 0);
    brain.add(255);
    assert_eq!(brain.cell(0), 255);
    brain.increment();
    assert_eq!(brain.cell(0), 0);
}

#[test]
fn tape_growth_is_lazy_and_monotonic() {
    let mut brain = Brain::new();
    assert_eq!(brain.cell_count(), 1);
    for n in 1..6 {
        brain.ptr_right();
        assert_eq!(brain.cell_count(), n + 1);
        assert_eq!(brain.position(), n);
    }
    for _ in 0..10 {
        brain.ptr_left();
    }
    assert_eq!(brain.position(), 0);
    assert_eq!(brain.cell_count(), 6);
}

#[test]
fn input_takes_first_character() {
    let mut brain = Brain::new();
    brain.input("AB");
    assert_eq!(brain.cell(0), 65);
    brain.input("");
    assert_eq!(brain.cell(0), 65);
}

#[test]
fn input_truncates_wide_characters() {
    let mut brain = Brain::new();
    // U+0141 is 321; truncated to eight bits that is 65
    brain.input("\u{0141}");
    assert_eq!(brain.cell(0), 65);
}

#[test]
fn render_marks_the_cursor() {
    let mut brain = Brain::new();
    brain.add(65);
    assert_eq!(brain.render(), b" [65]".to_vec());
    brain.ptr_right();
    assert_eq!(brain.render(), b" 65 [0]".to_vec());
    brain.ptr_left();
    brain.add(35);
    assert_eq!(brain.render(), b" [100] 0".to_vec());
}

#[test]
fn end_to_end_outputs_letter() {
    let mut parser = Parser::new();
    let mut engine = Interpreter::new();
    let status = parser.tokenize("++++++[>++++++++++<-]>+++++.");
    assert_eq!(status, TokenizeStatus::Done);
    assert!(parser.match_stack.is_empty());
    commit(&mut parser, &mut engine);
    assert_eq!(engine.interpret(10_000), RunStatus::Done);
    assert_eq!(engine.brain.take_output(), vec![65]);
    assert_eq!(engine.brain.take_output(), Vec::<u8>::new());
}

#[test]
fn input_is_copied_back_out() {
    let mut parser = Parser::new();
    let mut engine = Interpreter::new();
    assert_eq!(parser.tokenize(",."), TokenizeStatus::Done);
    commit(&mut parser, &mut engine);
    assert_eq!(engine.interpret(100), RunStatus::NeedInput);
    engine.supply_input("A");
    assert_eq!(engine.interpret(100), RunStatus::Done);
    assert_eq!(engine.brain.cell(0), 65);
    assert_eq!(engine.brain.take_output(), vec![65]);
}

#[test]
fn open_bracket_waits_for_its_close() {
    let mut parser = Parser::new();
    let mut engine = Interpreter::new();
    assert_eq!(parser.tokenize("["), TokenizeStatus::Done);
    assert_eq!(parser.match_stack.len(), 1);
    // the fragment is incomplete: nothing reaches the engine yet
    assert!(engine.tokens.is_empty());
    assert_eq!(parser.tokenize("]"), TokenizeStatus::Done);
    assert!(parser.match_stack.is_empty());
    assert_eq!(
        parser.tokens,
        vec![Token::JumpForward(1), Token::JumpBackward(0)]
    );
    commit(&mut parser, &mut engine);
    assert_eq!(engine.interpret(100), RunStatus::Done);
    assert_eq!(engine.brain.cell_count(), 1);
    assert_eq!(engine.brain.cell(0), 0);
    assert_eq!(engine.brain.take_output(), Vec::<u8>::new());
}

#[test]
fn jump_targets_shift_across_fragments() {
    let mut parser = Parser::new();
    let mut engine = Interpreter::new();
    assert_eq!(parser.tokenize("+"), TokenizeStatus::Done);
    commit(&mut parser, &mut engine);
    assert_eq!(engine.interpret(100), RunStatus::Done);
    assert_eq!(parser.tokenize("[-]"), TokenizeStatus::Done);
    assert_eq!(
        parser.tokens,
        vec![
            Token::JumpForward(3),
            Token::DataDecrement,
            Token::JumpBackward(1),
        ]
    );
    commit(&mut parser, &mut engine);
    assert_eq!(engine.interpret(100), RunStatus::Done);
    assert_eq!(engine.brain.cell(0), 0);
    assert_eq!(engine.cursor, 4);
}

#[test]
fn interpreter_runs_out_of_fuel_on_a_spin() {
    let mut parser = Parser::new();
    let mut engine = Interpreter::new();
    assert_eq!(parser.tokenize("+[]"), TokenizeStatus::Done);
    commit(&mut parser, &mut engine);
    assert_eq!(engine.interpret(100), RunStatus::OutOfFuel);
}
