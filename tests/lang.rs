use tweet_lang::lang;
use tweet_lang::lang::{InstructionsParser, SyntaxError};
use tweet_lang::{Action, Direction, Instruction};

fn run(text: &str) -> Vec<Action> {
    let instructions = InstructionsParser::new().parse(text).unwrap();
    instructions.into()
}

#[test]
fn lang() {
    let instructions = lang::InstructionsParser::new()
        .parse("punch left. walk right. Do jump left 3 times.")
        .unwrap();
    let actions: Vec<Action> = instructions.into();
    assert_eq!(
        actions,
        vec![
            Action::Punch(Direction::Left),
            Action::Walk(Direction::Right),
            Action::Jump(Direction::Left),
            Action::Jump(Direction::Left),
            Action::Jump(Direction::Left),
        ]
    );
}

#[test]
fn single_punch() {
    assert_eq!(run("punch left."), vec![Action::Punch(Direction::Left)]);
}

#[test]
fn single_walk() {
    assert_eq!(run("walk right."), vec![Action::Walk(Direction::Right)]);
}

#[test]
fn repeated_jump() {
    assert_eq!(
        run("Do jump left 3 times."),
        vec![
            Action::Jump(Direction::Left),
            Action::Jump(Direction::Left),
            Action::Jump(Direction::Left),
        ]
    );
}

#[test]
fn zero_times_is_empty() {
    assert_eq!(run("Do jump left 0 times."), Vec::<Action>::new());
}

#[test]
fn parse_gives_list_of_sentences() {
    let parsed = InstructionsParser::new()
        .parse("punch left. Do walk right 2 times.")
        .unwrap();
    let expected = Instruction::List(vec![
        Instruction::Action(Action::Punch(Direction::Left)),
        Instruction::Repetition(Box::new(Instruction::Action(Action::Walk(Direction::Right))), 2),
    ]);
    assert_eq!(parsed, expected);
}

#[test]
fn words_ignore_case_and_extra_space() {
    assert_eq!(
        run("  PUNCH   Left .\n\tdo WALK right 2 TIMES."),
        vec![
            Action::Punch(Direction::Left),
            Action::Walk(Direction::Right),
            Action::Walk(Direction::Right),
        ]
    );
}

#[test]
fn nested_repetition_text() {
    assert_eq!(run("Do Do punch right 2 times 3 times.").len(), 6);
    assert_eq!(run("Do Do punch right 2 times 0 times."), Vec::<Action>::new());
}

#[test]
fn empty_text_is_empty_program() {
    assert_eq!(InstructionsParser::new().parse(""), Ok(Instruction::List(vec![])));
    assert_eq!(run("   \n"), Vec::<Action>::new());
}

#[test]
fn missing_period_is_rejected() {
    assert_eq!(InstructionsParser::new().parse("punch left"), Err(SyntaxError));
    assert_eq!(InstructionsParser::new().parse("punch left. walk right"), Err(SyntaxError));
}

#[test]
fn unknown_words_are_rejected() {
    let parser = InstructionsParser::new();
    assert_eq!(parser.parse("kick left."), Err(SyntaxError));
    assert_eq!(parser.parse("jump up."), Err(SyntaxError));
    assert_eq!(parser.parse("left jump."), Err(SyntaxError));
    assert_eq!(parser.parse("."), Err(SyntaxError));
    assert_eq!(parser.parse("jump left right."), Err(SyntaxError));
}

#[test]
fn bad_counts_are_rejected() {
    let parser = InstructionsParser::new();
    assert_eq!(parser.parse("Do jump left times."), Err(SyntaxError));
    assert_eq!(parser.parse("Do jump left 3x times."), Err(SyntaxError));
    assert_eq!(parser.parse("Do jump left -3 times."), Err(SyntaxError));
    assert_eq!(parser.parse("Do jump left 3."), Err(SyntaxError));
    assert_eq!(
        parser.parse("Do jump left 99999999999999999999999 times."),
        Err(SyntaxError)
    );
}

#[test]
fn largest_count_is_read() {
    let text = format!("Do jump left {} times.", usize::MAX);
    let parsed = InstructionsParser::new().parse(&text).unwrap();
    let expected = Instruction::List(vec![Instruction::Repetition(
        Box::new(Instruction::Action(Action::Jump(Direction::Left))),
        usize::MAX,
    )]);
    assert_eq!(parsed, expected);
}
