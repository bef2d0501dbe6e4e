use hiwkhao::parser;
use hiwkhao::scanner;
#[test]
fn binary_operators_positive_addition() {
    let input = "23 + 8";
    let expected_output = vec![r"(23+8)"];
    let tokens = scanner::tokenize(input);
    let mut parser = parser::Parser::new(vec![]);
    let output = parser.parse_tokens_fancy(tokens);
    assert_eq!(output, expected_output);
}

#[test]
fn binary_operators_positive_subtraction() {
    let input = "23 - 8";
    let expected_output = vec![r"(23-8)"];
    let tokens = scanner::tokenize(input);
    let mut parser = parser::Parser::new(vec![]);
    let output = parser.parse_tokens_fancy(tokens);
    assert_eq!(output, expected_output);
}

#[test]
fn binary_operators_positive_multiplication() {
    let input = "23 * 8";
    let expected_output = vec![r"(23*8)"];
    let tokens = scanner::tokenize(input);
    let mut parser = parser::Parser::new(vec![]);
    let output = parser.parse_tokens_fancy(tokens);
    assert_eq!(output, expected_output);
}

#[test]
fn binary_operators_positive_division() {
    let input = "23.0 / 8.0";
    let expected_output = vec![r"(23.0/8.0)"];
    let tokens = scanner::tokenize(input);
    let mut parser = parser::Parser::new(vec![]);
    let output = parser.parse_tokens_fancy(tokens);
    assert_eq!(output, expected_output);
}

#[test]
fn binary_operators_positive_division_integers() {
    let input = "23 / 8";
    let expected_output = vec![r"(23/8)"];
    let tokens = scanner::tokenize(input);
    let mut parser = parser::Parser::new(vec![]);
    let output = parser.parse_tokens_fancy(tokens);
    assert_eq!(output, expected_output);
}

#[test]
fn binary_operators_positive_exponent() {
    let input = "23 ^ 8";
    let expected_output = vec![r"(23^8)"];
    let tokens = scanner::tokenize(input);
    let mut parser = parser::Parser::new(vec![]);
    let output = parser.parse_tokens_fancy(tokens);
    assert_eq!(output, expected_output);
}

#[test]
fn binary_operators_positive_exponent_float() {
    let input = "23.0 ^ 8.0";
    let expected_output = vec![r"(23.0^8.0)"];
    let tokens = scanner::tokenize(input);
    let mut parser = parser::Parser::new(vec![]);
    let output = parser.parse_tokens_fancy(tokens);
    assert_eq!(output, expected_output);
}

#[test]
fn binary_operators_negative_addition() {
    let input = "-23 + 8";
    let expected_output = vec![r"((-23)+8)"];
    let tokens = scanner::tokenize(input);
    let mut parser = parser::Parser::new(vec![]);
    let output = parser.parse_tokens_fancy(tokens);
    assert_eq!(output, expected_output);
}

#[test]
fn negative_addition_no_space() {
    let input = "-23+8";
    let expected_output = vec![r"((-23)+8)"];
    let tokens = scanner::tokenize(input);
    let mut parser = parser::Parser::new(vec![]);
    let output = parser.parse_tokens_fancy(tokens);
    assert_eq!(output, expected_output);
}

#[test]
fn binary_operators_negative_subtraction() {
    let input = "-23 - 8";
    let expected_output = vec![r"((-23)-8)"];
    let tokens = scanner::tokenize(input);
    let mut parser = parser::Parser::new(vec![]);
    let output = parser.parse_tokens_fancy(tokens);
    assert_eq!(output, expected_output);
}

#[test]
fn negative_subtraction_no_space_1() {
    let input = "-23-8";
    let expected_output = vec![r"((-23)-8)"];
    let tokens = scanner::tokenize(input);
    let mut parser = parser::Parser::new(vec![]);
    let output = parser.parse_tokens_fancy(tokens);
    assert_eq!(output, expected_output);
}

#[test]
fn negative_subtraction_no_space_2() {
    let input = "23-8";
    let expected_output = vec![r"(23-8)"];
    let tokens = scanner::tokenize(input);
    let mut parser = parser::Parser::new(vec![]);
    let output = parser.parse_tokens_fancy(tokens);
    assert_eq!(output, expected_output);
}

#[test]
fn negative_subtraction_no_space_3() {
    let input = "- 23 - 8";
    let expected_output = vec![r"(-(23-8))"];
    let tokens = scanner::tokenize(input);
    let mut parser = parser::Parser::new(vec![]);
    let output = parser.parse_tokens_fancy(tokens);
    assert_eq!(output, expected_output);
}

#[test]
fn binary_operators_negative_multiplication() {
    let input = "-23 * 8";
    let expected_output = vec![r"((-23)*8)"];
    let tokens = scanner::tokenize(input);
    let mut parser = parser::Parser::new(vec![]);
    let output = parser.parse_tokens_fancy(tokens);
    assert_eq!(output, expected_output);
}

#[test]
fn binary_operators_negative_division() {
    let input = "-23.0 / 8.0";
    let expected_output = vec![r"((-23.0)/8.0)"];
    let tokens = scanner::tokenize(input);
    let mut parser = parser::Parser::new(vec![]);
    let output = parser.parse_tokens_fancy(tokens);
    assert_eq!(output, expected_output);
}

#[test]
fn binary_operators_negative_division_integers() {
    let input = "-23 / 8";
    let expected_output = vec![r"((-23)/8)"];
    let tokens = scanner::tokenize(input);
    let mut parser = parser::Parser::new(vec![]);
    let output = parser.parse_tokens_fancy(tokens);
    assert_eq!(output, expected_output);
}

#[test]
fn zero_division() {
    let input = "23 / 0";
    let expected_output = vec![r"Division by zero at line 1, pos 4"];
    let tokens = scanner::tokenize(input);
    let mut parser = parser::Parser::new(vec![]);
    let output = parser.parse_tokens_fancy(tokens);
    assert_eq!(output, expected_output);
}

#[test]
fn binary_operators_negative_exponent() {
    let input = "-23 ^ 8";
    let expected_output = vec![r"((-23)^8)"];
    let tokens = scanner::tokenize(input);
    let mut parser = parser::Parser::new(vec![]);
    let output = parser.parse_tokens_fancy(tokens);
    assert_eq!(output, expected_output);
}

#[test]
fn binary_operators_negative_exponent_float() {
    let input = "-23.0 ^ 8.0";
    let expected_output = vec![r"((-23.0)^8.0)"];
    let tokens = scanner::tokenize(input);
    let mut parser = parser::Parser::new(vec![]);
    let output = parser.parse_tokens_fancy(tokens);
    assert_eq!(output, expected_output);
}
