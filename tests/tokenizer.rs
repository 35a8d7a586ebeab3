use calculator::tokenizer::{parse_token, Symbol, Token, Tokenizer, TokenizerError};

#[test]
fn test_baby_tokenizer() {
    let tests = vec![
        (
            String::from("12+34"),
            Ok(vec![Token::Integer(12), Token::Operator(Symbol::Plus), Token::Integer(34)]),
        ),
        (
            String::from("12+34*56"),
            Ok(vec![
                Token::Integer(12),
                Token::Operator(Symbol::Plus),
                Token::Integer(34),
                Token::Operator(Symbol::Multiply),
                Token::Integer(56),
            ]),
        ),
        (
            String::from("asdf"),
            Err(TokenizerError {
                message: String::from("Invalid char to symbol"),
                string: String::from("a"),
            }),
        ),
    ];

    for (input, solution) in tests {
        let result = input.tokenize();
        match (result, solution) {
            (Ok(tokens), Ok(solution_tokens)) => {
                assert_eq!(tokens.len(), solution_tokens.len());
                for (i, token) in tokens.iter().enumerate() {
                    assert_eq!(*token, solution_tokens[i]);
                }
            }
            (Err(tokenizer_error), Err(solution_error)) => {
                assert_eq!(tokenizer_error, solution_error);
            }
            (res, sol) => {
                println!("{:?} is not {:?}", res, sol);
                assert!(false);
            }
        }
    }
}

fn bad_number(fragment: &str) -> TokenizerError {
    TokenizerError { message: String::from("Error parsing u32"), string: String::from(fragment) }
}

#[test]
fn tokens_alternate_on_valid_text() {
    let tokens = "7-0*123/4+99".tokenize().unwrap();
    assert_eq!(tokens.len(), 9);
    for (i, token) in tokens.iter().enumerate() {
        assert_eq!(matches!(token, Token::Integer(_)), i % 2 == 0);
    }
    assert_eq!(tokens[0], Token::Integer(7));
    assert_eq!(tokens[1], Token::Operator(Symbol::Minus));
    assert_eq!(tokens[5], Token::Operator(Symbol::Divide));
    assert_eq!(tokens[8], Token::Integer(99));
}

#[test]
fn single_number_is_one_token() {
    assert_eq!("0".tokenize(), Ok(vec![Token::Integer(0)]));
    assert_eq!("007".tokenize(), Ok(vec![Token::Integer(7)]));
}

#[test]
fn invalid_char_names_the_char() {
    assert_eq!(
        "12 + 3".tokenize(),
        Err(TokenizerError { message: String::from("Invalid char to symbol"), string: String::from(" ") })
    );
    assert_eq!(
        "1+2é".tokenize(),
        Err(TokenizerError { message: String::from("Invalid char to symbol"), string: String::from("é") })
    );
}

#[test]
fn empty_input_fails_in_tokenizer() {
    assert_eq!("".tokenize(), Err(bad_number("")));
}

#[test]
fn trailing_operator_fails_in_tokenizer() {
    assert_eq!("12+".tokenize(), Err(bad_number("")));
}

#[test]
fn consecutive_operators_fail_in_tokenizer() {
    assert_eq!("1+*2".tokenize(), Err(bad_number("")));
    assert_eq!("-5".tokenize(), Err(bad_number("")));
}

#[test]
fn largest_u32_is_accepted() {
    assert_eq!("4294967295".tokenize(), Ok(vec![Token::Integer(4294967295)]));
}

#[test]
fn number_beyond_u32_is_refused() {
    assert_eq!("1+4294967296".tokenize(), Err(bad_number("4294967296")));
    assert_eq!("99999999999999999999*2".tokenize(), Err(bad_number("99999999999999999999")));
}

#[test]
fn invalid_char_reported_before_earlier_run_closes() {
    assert_eq!(
        "99999999999x".tokenize(),
        Err(TokenizerError { message: String::from("Invalid char to symbol"), string: String::from("x") })
    );
}

#[test]
fn from_char_maps_operators() {
    assert_eq!(Symbol::from_char(&'+'), Ok(Symbol::Plus));
    assert_eq!(Symbol::from_char(&'-'), Ok(Symbol::Minus));
    assert_eq!(Symbol::from_char(&'*'), Ok(Symbol::Multiply));
    assert_eq!(Symbol::from_char(&'/'), Ok(Symbol::Divide));
    assert_eq!(
        Symbol::from_char(&'%'),
        Err(TokenizerError { message: String::from("Invalid char to symbol"), string: String::from("%") })
    );
}

#[test]
fn symbols_order_by_precedence() {
    assert!(Symbol::Plus < Symbol::Multiply);
    assert!(Symbol::Minus < Symbol::Divide);
    assert!(!(Symbol::Plus < Symbol::Minus));
    assert!(!(Symbol::Divide < Symbol::Multiply));
    assert!(Symbol::Divide > Symbol::Plus);
    assert_eq!(Symbol::Multiply.partial_cmp(&Symbol::Divide), Some(std::cmp::Ordering::Equal));
}

#[test]
fn parse_token_pushes_or_refuses() {
    let mut tokens = vec![Token::Operator(Symbol::Plus)];
    assert_eq!(parse_token("305", &mut tokens), Ok(()));
    assert_eq!(tokens, vec![Token::Operator(Symbol::Plus), Token::Integer(305)]);
    assert_eq!(parse_token("3a", &mut tokens), Err(bad_number("3a")));
    assert_eq!(parse_token("", &mut tokens), Err(bad_number("")));
    assert_eq!(tokens.len(), 2);
}

#[test]
fn tokenizer_error_text() {
    let e = "a".tokenize().unwrap_err();
    assert_eq!(e.text(), "Invalid char to symbol (a)");
}
