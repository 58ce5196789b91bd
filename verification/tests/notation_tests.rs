use plcourse::notation::prefix_to_infix;
use plcourse::notation::try_prefix_to_infix;
use plcourse::notation::NotationError;

#[test]
fn test_2_plus_2() {
    assert_eq!("(2 + 2)", prefix_to_infix(&String::from("+ 2 2")));
}

#[test]
fn test_pattern_1() {
    assert_eq!(prefix_to_infix(&String::from("+ 2 * 2 - 2 1")), "(2 + (2 * (2 - 1)))");
}

#[test]
fn test_pattern_5() {
    assert_eq!(
        "((3 + 10) / ((2 + 3) * (3 - 5)))",
        prefix_to_infix(&String::from("/ + 3 10 * + 2 3 - 3 5"))
    );
}

#[test]
fn too_many_operators_is_refused() {
    assert_eq!(try_prefix_to_infix("+ + 2 2"), Err(NotationError::MissingOperands));
}

#[test]
fn too_many_numbers_is_refused() {
    assert_eq!(try_prefix_to_infix("2 2"), Err(NotationError::TooManyNumbers));
}

#[test]
fn unknown_token_is_refused() {
    assert_eq!(try_prefix_to_infix("a"), Err(NotationError::UnknownToken { token: "a".to_string() }));
}

#[test]
fn empty_string_is_refused() {
    assert_eq!(try_prefix_to_infix(""), Err(NotationError::UnknownToken { token: "".to_string() }));
}

#[test]
fn numbers_above_255_are_unknown_tokens() {
    assert_eq!(try_prefix_to_infix("+ 256 1"), Err(NotationError::UnknownToken { token: "256".to_string() }));
    assert_eq!(prefix_to_infix("+ 255 +7"), "(255 + +7)");
}

#[test]
fn surrounding_whitespace_is_trimmed() {
    assert_eq!(prefix_to_infix("  * 4 5\n"), "(4 * 5)");
}

#[test]
fn double_space_gives_an_empty_token() {
    assert_eq!(try_prefix_to_infix("+ 1  2"), Err(NotationError::UnknownToken { token: "".to_string() }));
}

#[test]
fn single_number_is_itself() {
    assert_eq!(prefix_to_infix("007"), "007");
}

#[test]
fn well_formed_prefix_forms_convert() {
    assert_eq!(try_prefix_to_infix("- * 2 3 + 4 5"), Ok("((2 * 3) - (4 + 5))".to_string()));
    assert_eq!(try_prefix_to_infix("/ +7 255"), Ok("(+7 / 255)".to_string()));
}

#[test]
fn operator_without_its_operands_is_refused() {
    assert_eq!(try_prefix_to_infix("+ 2"), Err(NotationError::MissingOperands));
    assert_eq!(try_prefix_to_infix("+"), Err(NotationError::MissingOperands));
}

#[test]
fn whitespace_around_changes_nothing() {
    assert_eq!(try_prefix_to_infix("\t + 1 2 \n"), try_prefix_to_infix("+ 1 2"));
    assert_eq!(try_prefix_to_infix("\u{a0}7 "), Ok("7".to_string()));
}
