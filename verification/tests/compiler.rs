use hiwkhao::codegen::generate_assembly;
use hiwkhao::codegen::generate_code;
use hiwkhao::codegen::RegisterAllocator;
use hiwkhao::number::Real;
use hiwkhao::parser::error_message;
use hiwkhao::parser::Expr;
use hiwkhao::parser::ParseError;
use hiwkhao::parser::Parser;
use hiwkhao::parser::Position;
use hiwkhao::parser::TokenInfo;
use hiwkhao::scanner::run_scanner;
use hiwkhao::scanner::split_lines;
use hiwkhao::scanner::tokenize;
use hiwkhao::scanner::Token;
use hiwkhao::symbol_table::SymbolTable;
use hiwkhao::symbol_table::ValueToken;

fn fancy(input: &str) -> Vec<String> {
    let mut parser = Parser::new(vec![]);
    parser.parse_tokens_fancy(tokenize(input))
}

fn text_of(r: &Real) -> String {
    let mut out = Vec::new();
    r.push_text(&mut out);
    out.into_iter().collect()
}

#[test]
fn lexemes_spell_the_input_without_blanks() {
    let input = "x1 = -2.50*(y //3)\t!= 4\r\n$";
    let joined: String = tokenize(input).into_iter().map(|(s, _)| s).collect();
    let solid: String = input.chars().filter(|c| !matches!(c, ' ' | '\t' | '\r' | '\x0C')).collect();
    assert_eq!(joined, solid);
}

#[test]
fn tokenize_reads_longest_tokens() {
    let toks = tokenize("list1 list <= -3.25 //");
    let kinds: Vec<Token> = toks.iter().map(|(_, t)| *t).collect();
    assert_eq!(kinds, vec![Token::VAR, Token::LIST, Token::LE, Token::REAL, Token::INTDIV]);
    assert_eq!(toks[3].0, "-3.25");
}

#[test]
fn scanner_lists_one_line_per_input_line() {
    let input = "a = 1\r\n\nb";
    assert_eq!(split_lines(input), vec!["a = 1", "", "b"]);
    assert_eq!(run_scanner(input), vec!["a/VAR =/= 1/INT", "", "b/VAR"]);
}

#[test]
fn assignment_then_read() {
    assert_eq!(fancy("x = 5\nx"), vec!["(x=5)", "x"]);
    assert_eq!(fancy("x"), vec!["Undefined variable x at line 1, pos 1"]);
}

#[test]
fn wide_integers_are_cut_to_the_largest() {
    assert_eq!(fancy("x = 99999999999999999999"), vec!["(x=9223372036854775807)"]);
    assert_eq!(fancy("-99999999999999999999"), vec!["(-9223372036854775807)"]);
}

#[test]
fn one_text_per_line_with_tokens() {
    assert_eq!(fancy("x = 1\n\n2 + 3\n"), vec!["(x=1)", "(2+3)"]);
}

#[test]
fn no_error_right_after_another() {
    let mut parser = Parser::new(vec![]);
    let results = parser.parse_tokens(tokenize("x\ny\n1\nz"));
    assert_eq!(results.len(), 3);
    assert!(results[0].is_err());
    assert!(results[1].is_ok());
    assert!(results[2].is_err());
}

#[test]
fn unreadable_characters_stop_line_parsing() {
    let mut parser = Parser::new(vec![]);
    assert!(parser.parse_tokens(tokenize("x = 1 $")).is_empty());
}

#[test]
fn error_messages() {
    assert_eq!(fancy(")"), vec!["Invalid atom at line 1, pos 1"]);
    assert_eq!(fancy("x = list[2]\nx[5]"), vec!["(x=(list[2]))", "IndexOutOfRange at line 2, pos 4, index 5"]);
    assert_eq!(error_message(&ParseError::TokenizeError), "TokenizeError");
    let p = Position { line: 3, column: 7 };
    assert_eq!(error_message(&ParseError::MissingIndex(p)), "Missing index expression at line 3, pos 7");
}

#[test]
fn floats_print_with_one_place() {
    assert_eq!(fancy("2.25 + 1"), vec!["(2.2+1)"]);
    assert_eq!(fancy("2.35"), vec!["2.4"]);
}

#[test]
fn token_lengths() {
    assert_eq!(TokenInfo::token_length(&"abc".to_string(), &Token::VAR), 3);
    assert_eq!(TokenInfo::token_length(&"<=".to_string(), &Token::LE), 2);
    assert_eq!(TokenInfo::token_length(&"list".to_string(), &Token::LIST), 4);
    assert_eq!(TokenInfo::token_length(&"+".to_string(), &Token::ADD), 1);
}

#[test]
fn number_text_reads_back() {
    let r = Real::parse("-002.500").unwrap();
    assert_eq!(text_of(&r), "-2.5");
    let again = Real::parse(&text_of(&r)).unwrap();
    assert_eq!(text_of(&again), "-2.5");
    assert!(Real::parse("2.").is_none());
    assert!(Real::parse("").is_none());
}

#[test]
fn symbol_table_entries_run_on() {
    let mut parser = Parser::new(vec![]);
    let results = parser.parse_tokens(tokenize("x = 5\ny = 2.5\nz = list[3]\nw = z[1]"));
    let mut table = SymbolTable::new();
    table.process_parsed_expressions(results);
    assert_eq!(table.output(), vec![
        "x,1,0,1,INT(\"5\"),5",
        "y,2,2,3,REAL(\"2.5\"),2.5",
        "z,3,6,5,LIST,Array",
        "w,4,12,4,INT(\"1\"),z[1]",
    ]);
    let records = table.csv_records();
    assert_eq!(records[0], vec!["Lexeme", "Line Number", "Start Position", "Length", "Type", "Value"]);
    assert_eq!(records[2], vec!["y", "2", "2", "3", "REAL", "2.5"]);
}

#[test]
fn symbol_table_counts_bytes_of_list_names() {
    let mut table = SymbolTable::new();
    let access = Expr::ListAccess("é".to_string(), Box::new(Expr::Int(1)));
    table.process_parsed_expressions(vec![Ok(Expr::Assignment("w".to_string(), Box::new(access)))]);
    assert_eq!(table.output(), vec!["w,1,0,5,INT(\"1\"),é[1]"]);
}

#[test]
fn symbol_table_insert_escapes_quotes() {
    let mut table = SymbolTable::new();
    table.insert("a".to_string(), 1, 0, 1, ValueToken::INT("q\"\\\n\u{1}".to_string()), "v".to_string());
    assert_eq!(table.output(), vec!["a,1,0,1,INT(\"q\\\"\\\\\\n\\u{1}\"),v"]);
}

#[test]
fn generate_code_separates_blocks() {
    let results = vec![
        Ok(Expr::Int(1)),
        Err(ParseError::TokenizeError),
        Err(ParseError::TokenizeError),
        Ok(Expr::Variable("x".to_string())),
    ];
    assert_eq!(generate_code(results), vec![
        "LD R0 #1", "ST @print R0", "", "ERROR", "", "ERROR", "", "ERROR", "",
    ]);
}

#[test]
fn generate_assembly_reports_unsupported_expressions() {
    assert_eq!(generate_assembly(&Expr::Variable("x".to_string())), vec!["ERROR"]);
    assert_eq!(generate_assembly(&Expr::Int(-3)), vec!["LD R0 #-3", "ST @print R0"]);
}

#[test]
fn register_allocator_counts_up() {
    let mut alloc = RegisterAllocator::new();
    assert_eq!(alloc.get_next_reg(), 0);
    assert_eq!(alloc.get_next_reg(), 1);
}

#[test]
fn two_lines_are_listed_one_after_the_other() {
    let a = "x = 1 + 2";
    let b = "y   - 3.5";
    let joined = format!("{}\n{}", a, b);
    let expected: Vec<String> = run_scanner(a).into_iter().chain(run_scanner(b)).collect();
    assert_eq!(run_scanner(&joined), expected);
    assert_eq!(run_scanner("1\n"), run_scanner("1"));
}

#[test]
fn wider_blanks_leave_the_listing_alone() {
    assert_eq!(run_scanner("1  2  3"), run_scanner("1 2 3"));
    assert_eq!(run_scanner("x    =   a  +  -4"), run_scanner("x = a + -4"));
    assert_eq!(tokenize("a     //  b"), tokenize("a // b"));
}

#[test]
fn assembly_starts_with_register_zero_and_has_no_blank_line() {
    let exprs = vec![
        Expr::Int(5),
        Expr::BinaryOp(Box::new(Expr::Int(1)), "+".to_string(), Box::new(Expr::Variable("x".to_string()))),
        Expr::Assignment("y".to_string(), Box::new(Expr::Int(3))),
        Expr::Boolean(Box::new(Expr::Int(1)), "<".to_string(), Box::new(Expr::Int(2))),
    ];
    for e in &exprs {
        let r = generate_assembly(e);
        assert!(!r.is_empty());
        assert!(r.iter().all(|l| !l.is_empty()));
        assert!(r[0].starts_with("LD R0 "));
        assert_eq!(generate_assembly(e), r);
    }
    let bad = generate_assembly(&Expr::Variable("z".to_string()));
    assert_eq!(bad, vec!["ERROR".to_string()]);
}

/// The register numbers named in `lines` (words `R` followed by digits).
fn registers_named(lines: &[String]) -> Vec<i64> {
    let mut regs = Vec::new();
    for line in lines {
        for w in line.split_whitespace() {
            if let Some(rest) = w.strip_prefix('R') {
                if let Ok(n) = rest.parse::<i64>() {
                    regs.push(n);
                }
            }
        }
    }
    regs
}

#[test]
fn assembly_names_registers_from_zero_up() {
    let cases: Vec<(Expr, i64)> = vec![
        (Expr::Int(5), 1),
        (Expr::Assignment("x".to_string(), Box::new(Expr::Int(3))), 1),
        (Expr::Assignment("l".to_string(), Box::new(Expr::List(vec![]))), 6),
        (Expr::ListAccess("l".to_string(), Box::new(Expr::Int(2))), 5),
        (Expr::Boolean(Box::new(Expr::Int(1)), "==".to_string(), Box::new(Expr::Variable("y".to_string()))), 3),
        (Expr::BinaryOp(Box::new(Expr::Int(1)), "/".to_string(), Box::new(Expr::Int(0))), 0),
    ];
    for (e, used) in cases {
        let r = generate_assembly(&e);
        let regs = registers_named(&r);
        assert!(regs.iter().all(|&j| 0 <= j && j < used), "{:?} {:?}", r, regs);
        if used > 0 {
            assert!(regs.contains(&0));
            assert!(regs.contains(&(used - 1)));
        }
    }
}

#[test]
fn tokens_from_the_lexer_parse_without_a_check() {
    let toks = tokenize("x = 3.25 + 007\ny = -12");
    let mut parser = Parser::new(vec![]);
    let parsed = parser.parse_tokens(toks);
    assert_eq!(parsed.len(), 2);
    assert!(parsed.iter().all(|r| r.is_ok()));
}
