use tweet_lang::{Action, Direction, Instruction, Repeat};

fn leaf(a: Action) -> Instruction {
    Instruction::Action(a)
}

const J: Action = Action::Jump(Direction::Left);
const W: Action = Action::Walk(Direction::Right);
const P: Action = Action::Punch(Direction::Left);

#[test]
fn leaf_identity_for_every_action() {
    for d in [Direction::Left, Direction::Right] {
        for a in [Action::Jump(d), Action::Walk(d), Action::Punch(d)] {
            assert_eq!(leaf(a).lower(), vec![a]);
        }
    }
}

#[test]
fn zero_repetition_of_nested_tree() {
    let inner = Instruction::List(vec![
        leaf(J),
        Instruction::Repetition(Box::new(leaf(W)), 4),
    ]);
    assert_eq!(Instruction::Repetition(Box::new(inner), 0).lower(), Vec::<Action>::new());
}

#[test]
fn repetition_concatenates_copies() {
    let inner = Instruction::List(vec![leaf(J), leaf(W)]);
    let out = Instruction::Repetition(Box::new(inner), 3).lower();
    assert_eq!(out, vec![J, W, J, W, J, W]);
}

#[test]
fn repetition_of_empty_list_is_empty() {
    let out = Instruction::Repetition(Box::new(Instruction::List(vec![])), 5).lower();
    assert!(out.is_empty());
}

#[test]
fn list_concatenates_in_order() {
    let list = Instruction::List(vec![
        leaf(P),
        Instruction::Repetition(Box::new(leaf(J)), 2),
        Instruction::List(vec![leaf(W)]),
    ]);
    assert_eq!(list.lower(), vec![P, J, J, W]);
    assert_eq!(Instruction::List(vec![]).lower(), Vec::<Action>::new());
}

#[test]
fn nested_lists_flatten() {
    let nested = Instruction::List(vec![Instruction::List(vec![leaf(P), leaf(W)]), leaf(J)]);
    let flat = Instruction::List(vec![leaf(P), leaf(W), leaf(J)]);
    assert_eq!(nested.lower(), flat.lower());
    assert_eq!(flat.lower(), vec![P, W, J]);
}

#[test]
fn equal_trees_lower_alike() {
    let build = || {
        Instruction::List(vec![
            Instruction::Repetition(Box::new(Instruction::List(vec![leaf(J), leaf(P)])), 2),
            leaf(W),
        ])
    };
    let a = build();
    let b = build();
    assert_eq!(a, b);
    assert_eq!(a.lower(), b.lower());
    assert_eq!(a.lower(), a.lower());
    let c = a.clone();
    assert_eq!(c, a);
    assert_eq!(c.lower(), vec![J, P, J, P, W]);
}

#[test]
fn into_lowers() {
    let tree = Instruction::Repetition(Box::new(leaf(W)), 2);
    let actions: Vec<Action> = tree.into();
    assert_eq!(actions, vec![W, W]);
}

#[test]
fn large_nested_repetition() {
    let tree = Instruction::Repetition(
        Box::new(Instruction::Repetition(Box::new(leaf(J)), 1000)),
        1000,
    );
    let out = tree.lower();
    assert_eq!(out.len(), 1_000_000);
    assert!(out.iter().all(|a| *a == J));
}

#[test]
fn repeat_hands_out_count_actions() {
    let mut r = Repeat::new(P, 2);
    assert_eq!(r.next(), Some(P));
    assert_eq!(r.next(), Some(P));
    assert_eq!(r.next(), None);
    assert_eq!(r.next(), None);
    let mut empty = Repeat::new(W, 0);
    assert_eq!(empty.next(), None);
}
