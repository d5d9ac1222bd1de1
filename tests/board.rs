use boardslam::expr::{op, power};
use boardslam::search::permutations;
use boardslam::{display, fill_board, get_missing, is_valid_die, Answer, Board, Op, Value};
use std::collections::HashMap;

fn all_dice() -> Vec<(u8, u8, u8)> {
    let mut triples = Vec::new();
    for a in 1..=6u8 {
        for b in 1..=6u8 {
            for c in 1..=6u8 {
                triples.push((a, b, c));
            }
        }
    }
    triples
}

fn int_value(v: &Value) -> i64 {
    (v.number as i64).pow(v.power)
}

fn int_apply(o: &Op, a: i64, b: i64) -> Option<i64> {
    match o {
        Op::Add => Some(a + b),
        Op::Subtract => Some(a - b),
        Op::Multiply => Some(a * b),
        Op::Divide => {
            if b == 0 || a % b != 0 {
                None
            } else {
                Some(a / b)
            }
        }
    }
}

#[test]
fn test_1_1_1() {
    let results = fill_board(1, 1, 1);
    let missing = get_missing(&results);
    assert_eq!(
        vec![
            4, 5, 6, 7, 8, 9, 10, 11, 12, 13, 14, 15, 16, 17, 18, 19, 20, 21, 22, 23, 24, 25, 26,
            27, 28, 29, 30, 31, 32, 33, 34, 35, 36,
        ],
        missing
    );
}

#[test]
fn test_2_2_2() {
    let results = fill_board(2, 2, 2);
    let missing = get_missing(&results);
    assert_eq!(vec![19, 21, 22, 23, 25, 26, 27, 29, 35], missing);
}

#[test]
fn test_3_5_1() {
    let results = fill_board(3, 5, 1);
    let missing = get_missing(&results);
    assert_eq!(vec![19, 30], missing);
}

#[test]
fn test_3_4_2() {
    let results = fill_board(3, 4, 2);
    let answer = results.get(&22).unwrap();
    assert_eq!(4, answer.x.number);
    assert_eq!(3, answer.x.power);
    assert_eq!(Op::Add, answer.op1);
    assert_eq!(2, answer.y.number);
    assert_eq!(1, answer.y.power);
    assert_eq!(Op::Divide, answer.op2);
    assert_eq!(3, answer.z.number);
    assert_eq!(1, answer.z.power);
}

#[test]
fn every_entry_evaluates_to_its_key() {
    for (a, b, c) in all_dice() {
        let results = fill_board(a, b, c);
        for (key, answer) in results.iter() {
            assert!(*key >= 1 && *key <= 36);
            let mid = int_apply(&answer.op1, int_value(&answer.x), int_value(&answer.y)).unwrap();
            let total = int_apply(&answer.op2, mid, int_value(&answer.z)).unwrap();
            assert_eq!(*key as i64, total);
        }
    }
}

#[test]
fn missing_and_keys_cover_all_targets_once() {
    for (a, b, c) in all_dice() {
        let results = fill_board(a, b, c);
        let missing = get_missing(&results);
        for t in 1..=36u8 {
            assert!(missing.contains(&t) != results.contains_key(&t));
        }
        assert_eq!(missing.len() + results.len(), 36);
        for w in missing.windows(2) {
            assert!(w[0] < w[1]);
        }
    }
}

#[test]
fn search_is_deterministic() {
    for (a, b, c) in all_dice() {
        let first = fill_board(a, b, c);
        let second = fill_board(a, b, c);
        assert_eq!(first, second);
        assert_eq!(display(&first), display(&second));
    }
}

#[test]
fn no_stored_expression_divides_badly() {
    for (a, b, c) in all_dice() {
        let results = fill_board(a, b, c);
        for answer in results.values() {
            let x = int_value(&answer.x);
            let y = int_value(&answer.y);
            let z = int_value(&answer.z);
            if answer.op1 == Op::Divide {
                assert!(y != 0 && x % y == 0);
            }
            if answer.op2 == Op::Divide {
                let mid = int_apply(&answer.op1, x, y).unwrap();
                assert!(z != 0 && mid % z == 0);
            }
        }
    }
}

#[test]
fn operators_saturate_and_reject_bad_division() {
    assert_eq!(op(2, &Op::Add, 3), 5);
    assert_eq!(op(200, &Op::Add, 100), 255);
    assert_eq!(op(9, &Op::Subtract, 4), 5);
    assert_eq!(op(3, &Op::Subtract, 5), 0);
    assert_eq!(op(6, &Op::Multiply, 7), 42);
    assert_eq!(op(20, &Op::Multiply, 20), 255);
    assert_eq!(op(8, &Op::Divide, 2), 4);
    assert_eq!(op(7, &Op::Divide, 2), 0);
    assert_eq!(op(6, &Op::Divide, 0), 0);
}

#[test]
fn powers_of_dice() {
    assert_eq!(power(6, 3), 216);
    assert_eq!(power(5, 0), 1);
    assert_eq!(power(4, 1), 4);
    assert_eq!(power(3, 2), 9);
    assert_eq!(power(0, 0), 1);
    assert_eq!(power(0, 2), 0);
}

#[test]
fn permutations_in_generation_order() {
    let perms = permutations(&vec![1, 2, 3]);
    assert_eq!(
        perms,
        vec![(1, 2, 3), (1, 3, 2), (2, 1, 3), (2, 3, 1), (3, 1, 2), (3, 2, 1)]
    );
}

#[test]
fn first_found_expression_is_kept() {
    let results = fill_board(1, 1, 1);
    let one = results.get(&1).unwrap();
    assert_eq!(
        *one,
        Answer::from(&1, &1, &Op::Add, &1, &1, &Op::Subtract, &1, &1)
    );
    assert_eq!(results.len(), 3);
}

#[test]
fn answer_from_keeps_fields() {
    let a = Answer::from(&4, &3, &Op::Add, &2, &1, &Op::Divide, &3, &1);
    assert_eq!(a.x, Value { number: 4, power: 3 });
    assert_eq!(a.op1, Op::Add);
    assert_eq!(a.y, Value { number: 2, power: 1 });
    assert_eq!(a.op2, Op::Divide);
    assert_eq!(a.z, Value { number: 3, power: 1 });
}

#[test]
fn operand_and_operator_text() {
    assert_eq!(Value { number: 4, power: 3 }.text(), "4^3");
    assert_eq!(Value { number: 5, power: 1 }.text(), "5");
    assert_eq!(Value { number: 2, power: 0 }.text(), "2^0");
    assert_eq!(Value { number: 12, power: 10 }.text(), "12^10");
    assert_eq!(Op::Add.symbol(), '+');
    assert_eq!(Op::Subtract.symbol(), '-');
    assert_eq!(Op::Multiply.symbol(), '*');
    assert_eq!(Op::Divide.symbol(), '/');
}

#[test]
fn display_renders_lines_in_target_order() {
    let mut board: Board = HashMap::new();
    board.insert(22, Answer::from(&4, &3, &Op::Add, &2, &1, &Op::Divide, &3, &1));
    board.insert(3, Answer::from(&1, &1, &Op::Add, &1, &1, &Op::Add, &1, &1));
    board.insert(40, Answer::from(&6, &2, &Op::Add, &2, &2, &Op::Add, &0, &1));
    assert_eq!(
        display(&board),
        "1   + 1   + 1   = 3\n4^3 + 2   / 3   = 22\n"
    );
    assert_eq!(display(&HashMap::new()), "");
}

#[test]
fn display_of_a_search_has_one_line_per_target() {
    let results = fill_board(3, 4, 2);
    let text = display(&results);
    assert_eq!(text.lines().count(), results.len());
    assert!(text.contains("4^3 + 2   / 3   = 22\n"));
}

#[test]
fn missing_ignores_keys_outside_the_board() {
    let mut board: Board = HashMap::new();
    board.insert(40, Answer::from(&6, &2, &Op::Add, &2, &2, &Op::Add, &0, &1));
    board.insert(36, Answer::from(&6, &2, &Op::Add, &1, &0, &Op::Subtract, &1, &0));
    let missing = get_missing(&board);
    assert_eq!(missing, (1..=35).collect::<Vec<u8>>());
    assert_eq!(get_missing(&HashMap::new()), (1..=36).collect::<Vec<u8>>());
}

#[test]
fn die_values_are_one_to_six() {
    assert!(!is_valid_die(0));
    assert!(is_valid_die(1));
    assert!(is_valid_die(6));
    assert!(!is_valid_die(7));
    assert!(!is_valid_die(255));
}
