use regex_nfa::tokenizer::{parse_character_set, parse_quantifier, tokenize};
use regex_nfa::types::token_types::{CharClassType, CharSetType, Token};

#[test]
fn test_simple_literals() {
    let tokens = tokenize("abc").unwrap();
    let expected: Vec<Token> = vec![Token::Literal('a'), Token::Literal('b'), Token::Literal('c')];
    assert_eq!(tokens, expected);

}
#[test]
fn test_escaped_special_chars() {
    let tokens = tokenize("\\*\\?\\+\\(\\)\\|\\.\\^\\$").unwrap();
    let expected: Vec<Token> = vec![Token::Literal('*'), Token::Literal('?'), Token::Literal('+'),
                                    Token::Literal('('), Token::Literal(')'), Token::Literal('|'),
                                    Token::Literal('.'), Token::Literal('^'), Token::Literal('$')];
    assert_eq!(tokens, expected);
}
#[test]
fn test_general_escapes() {}
#[test]
fn test_octal_escapes() {
    let tokens = tokenize("\\012").unwrap();
    let expected: Vec<Token> = vec![Token::Literal(10 as char)];
    assert_eq!(tokens, expected);
    let tokens = tokenize("\\02").unwrap();
    let expected: Vec<Token> = vec![Token::Literal('\0'), Token::Literal('2')];
    assert_eq!(tokens, expected);
    let tokens = tokenize("\\070").unwrap();
    let expected: Vec<Token> = vec![Token::Literal(56 as char)];
    assert_eq!(tokens, expected);
    let tokens = tokenize("a\\456a").unwrap();
    let expected: Vec<Token> = vec![Token::Literal('a'), Token::Literal(255 as char), Token::Literal('a')];
    assert_eq!(tokens, expected);
    let tokens = tokenize("\\900").unwrap();
    let expected: Vec<Token> = vec![Token::Literal('9'), Token::Literal('0'), Token::Literal('0')];
    assert_eq!(tokens, expected);
    let tokens = tokenize("\\080").unwrap();
    let expected: Vec<Token> = vec![Token::Literal('\0'), Token::Literal('8'), Token::Literal('0')];
    assert_eq!(tokens, expected);
}
#[test]
fn test_hex_escapes() {
    let mut input_string = "\\x4e"; // hex for N
    let mut token = tokenize(input_string);
    let mut expected_token: Result<Vec<Token>, String> = Ok(vec![Token::Literal('N')]);
    assert_eq!(token, expected_token);

    input_string = "\\x00"; //VALID
    token = tokenize(input_string);
    expected_token = Ok(vec![Token::Literal('\0')]);
    assert_eq!(token, expected_token);

    input_string = "a\\x4eb"; //VALID
    token = tokenize(input_string);
    expected_token = Ok(vec![Token::Literal('a'), Token::Literal('N'), Token::Literal('b')]);
    assert_eq!(token, expected_token);
}
#[test]
fn test_unicode_escapes() {
    let mut input_string = "\\u00a9"; // hex for N
    let mut token = tokenize(input_string);
    let mut expected_token: Result<Vec<Token>, String> = Ok(vec![Token::Literal('©')]);
    assert_eq!(token, expected_token);

    input_string = "\\u20AC"; //VALID
    token = tokenize(input_string);
    expected_token = Ok(vec![Token::Literal('€')]);
    assert_eq!(token, expected_token);

    input_string = "a\\u20ACb"; //VALID
    token = tokenize(input_string);
    expected_token = Ok(vec![Token::Literal('a'), Token::Literal('€'), Token::Literal('b')]);
    assert_eq!(token, expected_token);
}
#[test]
fn test_char_set() {
    let mut input_str = "[a-zA-Z]";
    let mut tokens = tokenize(input_str).unwrap();
    let mut expected: Vec<Token> = vec![Token::CharacterSet(CharSetType::NonNegated, vec![CharClassType::Range('a', 'z'), CharClassType::Range('A', 'Z')])];
    assert_eq!(tokens, expected);

    input_str = "[]abc]"; //literal ]
    tokens = tokenize(input_str).unwrap();
    expected = vec![Token::CharacterSet(CharSetType::NonNegated,
            vec![CharClassType::Literal(']'), CharClassType::Literal('a'), CharClassType::Literal('b'), CharClassType::Literal('c')])];
    assert_eq!(tokens, expected);

    input_str = "[\\d]"; //escaped
    tokens = tokenize(input_str).unwrap();
    expected = vec![Token::CharacterSet(CharSetType::NonNegated,
                vec![CharClassType::Digit])];
    assert_eq!(tokens, expected);

    input_str = "[\\]\\[]"; //escaped
    tokens = tokenize(input_str).unwrap();
    expected = vec![Token::CharacterSet(CharSetType::NonNegated,
                vec![CharClassType::Literal(']'), CharClassType::Literal('[')])];
    assert_eq!(tokens, expected);

    input_str = "a[z]bc"; //escaped
    tokens = tokenize(input_str).unwrap();
    expected = vec![Token::Literal('a'),
                    Token::CharacterSet(CharSetType::NonNegated,vec![CharClassType::Literal('z')]),
                    Token::Literal('b'),
                    Token::Literal('c')];
    assert_eq!(tokens, expected);

    input_str = "[abc"; //unclosed ] "Error at Character Class at Position {cc_pos}, no closing ']'"
    let tokens = tokenize(input_str);
    let expected = Err(String::from("Error at Character Class at Position 0, no closing ']'"));
    assert_eq!(tokens, expected);
}
#[test]
fn test_parse_quantifier() {
    let mut q_test_str = String::from("1,2"); // range 1 - 2
    let mut q_token = parse_quantifier(q_test_str);
    let mut actual_token: Result<Token, String> = Ok(Token::Repetition(1, Some(2)));
    assert_eq!(q_token, actual_token);

    q_test_str = String::from("2"); //exactly 2
    q_token = parse_quantifier(q_test_str);
    actual_token = Ok(Token::Repetition(2, Some(2)));
    assert_eq!(q_token, actual_token);

    q_test_str = String::from("2,"); //2 or more
    q_token = parse_quantifier(q_test_str);
    actual_token = Ok(Token::Repetition(2, None));
    assert_eq!(q_token, actual_token);

    q_test_str = String::from("2,1"); //invalid - err
    q_token = parse_quantifier(q_test_str);
    actual_token = Err(String::from("Error: invalid quantifier value! First value must be less than the second value!"));
    assert_eq!(q_token, actual_token);

    q_test_str = String::from("4784279837"); //large num
    q_token = parse_quantifier(q_test_str);
    actual_token = Ok(Token::Repetition(4784279837, Some(4784279837)));
    assert_eq!(q_token, actual_token);

    q_test_str = String::from("-2"); //err - negative
    q_token = parse_quantifier(q_test_str);
    actual_token = Err(String::from("Error: invalid quantifier value! '-2'"));
    assert_eq!(q_token, actual_token);

    q_test_str = String::from("0,7"); //0 - 7
    q_token = parse_quantifier(q_test_str);
    actual_token = Ok(Token::Repetition(0, Some(7)));
    assert_eq!(q_token, actual_token);

    q_test_str = String::from(",7"); //err, no starting number
    q_token = parse_quantifier(q_test_str);
    actual_token = Err(String::from("Error: error parsing first quantifier value ''"));
    assert_eq!(q_token, actual_token);

    q_test_str = String::from("-2, 1"); //err - negative
    q_token = parse_quantifier(q_test_str);
    actual_token = Err(String::from("Error: error parsing first quantifier value '-2'"));
    assert_eq!(q_token, actual_token);

    q_test_str = String::from(""); //empty "Error: empty quantifier!"
    q_token = parse_quantifier(q_test_str);
    actual_token = Err(String::from("Error: empty quantifier!"));
    assert_eq!(q_token, actual_token);

    q_test_str = String::from("abc"); //chars
    q_token = parse_quantifier(q_test_str);
    actual_token = Err(String::from("Error: invalid quantifier value! 'abc'"));
    assert_eq!(q_token, actual_token);
}
#[test]
fn test_parse_character_set() {
    let mut char_set_str = String::from("abc");
    let mut char_set_token = parse_character_set(char_set_str);
    let mut expected_token: Result<Token, String> = Ok(Token::CharacterSet(CharSetType::NonNegated,
    vec![CharClassType::Literal('a'), CharClassType::Literal('b'), CharClassType::Literal('c')]));
    assert_eq!(char_set_token, expected_token);

    char_set_str = String::from("a-z"); //valid a-z
    char_set_token = parse_character_set(char_set_str);
    expected_token = Ok(Token::CharacterSet(CharSetType::NonNegated,
        vec![CharClassType::Range('a', 'z')]));
    assert_eq!(char_set_token, expected_token);

    char_set_str = String::from("a-Z"); //err, start code larger than end
    char_set_token = parse_character_set(char_set_str);
    expected_token = Err(String::from("Invalid range! a - Z"));
    assert_eq!(char_set_token, expected_token);

    char_set_str = String::from("a-zA-Z"); //valid a-z, A-Z
    char_set_token = parse_character_set(char_set_str);
    expected_token = Ok(Token::CharacterSet(CharSetType::NonNegated,
                                            vec![CharClassType::Range('a', 'z'), CharClassType::Range('A', 'Z')]));
    assert_eq!(char_set_token, expected_token);

    char_set_str = String::from("-az"); //literal -, a, z
    char_set_token = parse_character_set(char_set_str);
    expected_token = Ok(Token::CharacterSet(CharSetType::NonNegated,
                                            vec![CharClassType::Literal('-'), CharClassType::Literal('a'), CharClassType::Literal('z')]));
    assert_eq!(char_set_token, expected_token);

    char_set_str = String::from("az-"); //a, z, literal -
    char_set_token = parse_character_set(char_set_str);
    expected_token = Ok(Token::CharacterSet(CharSetType::NonNegated,
                                            vec![CharClassType::Literal('-'), CharClassType::Literal('a'), CharClassType::Literal('z')]));
    assert_eq!(char_set_token, expected_token);

    char_set_str = String::from("-a-z-"); //lit -, a-z, lit -
    char_set_token = parse_character_set(char_set_str);
    expected_token = Ok(Token::CharacterSet(CharSetType::NonNegated,
                                            vec![CharClassType::Literal('-'), CharClassType::Range('a', 'z')]));
    assert_eq!(char_set_token, expected_token);

    char_set_str = String::from("^abc"); //NOT abc
    char_set_token = parse_character_set(char_set_str);
    expected_token = Ok(Token::CharacterSet(CharSetType::Negated,
                                            vec![CharClassType::Literal('a'), CharClassType::Literal('b'), CharClassType::Literal('c')]));
    assert_eq!(char_set_token, expected_token);

    char_set_str = String::from("a^b"); //a, ^, b
    char_set_token = parse_character_set(char_set_str);
    expected_token = Ok(Token::CharacterSet(CharSetType::NonNegated,
                                            vec![CharClassType::Literal('a'), CharClassType::Literal('^'), CharClassType::Literal('b')]));
    assert_eq!(char_set_token, expected_token);

    char_set_str = String::from("\n"); // \n
    char_set_token = parse_character_set(char_set_str);
    expected_token = Ok(Token::CharacterSet(CharSetType::NonNegated,
                                            vec![CharClassType::Literal('\n')]));
    assert_eq!(char_set_token, expected_token);

    char_set_str = String::from("]abc"); //literal ], a, b, c
    char_set_token = parse_character_set(char_set_str);
    expected_token = Ok(Token::CharacterSet(CharSetType::NonNegated,
                vec![CharClassType::Literal(']'), CharClassType::Literal('a'), CharClassType::Literal('b'), CharClassType::Literal('c')]));
    assert_eq!(char_set_token, expected_token);

    char_set_str = String::from("a-z0-9_"); //a-z, 0-9, _
    char_set_token = parse_character_set(char_set_str);
    expected_token = Ok(Token::CharacterSet(CharSetType::NonNegated,
                                            vec![CharClassType::Range('a', 'z'), CharClassType::Range('0', '9'), CharClassType::Literal('_')]));
    assert_eq!(char_set_token, expected_token);

    char_set_str = String::from("a\\-z"); //a, lit -, z
    char_set_token = parse_character_set(char_set_str);
    expected_token = Ok(Token::CharacterSet(CharSetType::NonNegated,
                                            vec![CharClassType::Literal('a'), CharClassType::Literal('-'), CharClassType::Literal('z')]));
    assert_eq!(char_set_token, expected_token);

    char_set_str = String::from("\\d"); //
    char_set_token = parse_character_set(char_set_str);
    expected_token = Ok(Token::CharacterSet(CharSetType::NonNegated,
                                            vec![CharClassType::Digit]));
    assert_eq!(char_set_token, expected_token);

    char_set_str = String::from("^\\d"); //
    char_set_token = parse_character_set(char_set_str);
    expected_token = Ok(Token::CharacterSet(CharSetType::Negated,
                                            vec![CharClassType::Digit]));
    assert_eq!(char_set_token, expected_token);

    char_set_str = String::from("a-z\\W"); //
    char_set_token = parse_character_set(char_set_str);
    expected_token = Ok(Token::CharacterSet(CharSetType::NonNegated,
                                            vec![CharClassType::Range('a', 'z'), CharClassType::NonWord]));
    assert_eq!(char_set_token, expected_token);

    char_set_str = String::from("\\sa-z"); //
    char_set_token = parse_character_set(char_set_str);
    expected_token = Ok(Token::CharacterSet(CharSetType::NonNegated,
                                            vec![CharClassType::Range('a', 'z'), CharClassType::Whitespace]));
    assert_eq!(char_set_token, expected_token);

    char_set_str = String::from("\\s-\\w"); //
    char_set_token = parse_character_set(char_set_str);
    expected_token = Err(String::from("Error: malformed character set! Cannot range with escaped character!"));
    assert_eq!(char_set_token, expected_token);

    char_set_str = String::from("a-\\w"); //
    char_set_token = parse_character_set(char_set_str);
    expected_token = Err(String::from("Error: malformed character set! Cannot range with escaped character!"));
    assert_eq!(char_set_token, expected_token);

    char_set_str = String::from("\\s-a"); //
    char_set_token = parse_character_set(char_set_str);
    expected_token = Err(String::from("Error: malformed character set! Cannot range with escaped character!"));
    assert_eq!(char_set_token, expected_token);
}
#[test]
fn test_random_things() {
    let mut input_string = "abc\\"; //trailing backslash
    let mut token = tokenize(input_string);
    let mut expected_token: Result<Vec<Token>, String> = Err(String::from("Error: Dangling backslash!"));
    assert_eq!(token, expected_token);

    input_string = "\\\\"; //trailing backslash
    token = tokenize(input_string);
    expected_token = Ok(vec![Token::Literal('\\')]);
    assert_eq!(token, expected_token);

    input_string = ".*"; //VALID
    token = tokenize(input_string);
    expected_token = Ok(vec![Token::WildCard, Token::ZeroOrMore]);
    assert_eq!(token, expected_token);

    input_string = "\\."; //trailing backslash
    token = tokenize(input_string);
    expected_token = Ok(vec![Token::Literal('.')]);
    assert_eq!(token, expected_token);

    input_string = ""; //trailing backslash
    token = tokenize(input_string);
    expected_token = Ok(vec![Token::Epsilon]);
    assert_eq!(token, expected_token);

    input_string = "^a$"; //anchors
    token = tokenize(input_string);
    expected_token = Ok(vec![Token::StartAnchor, Token::Literal('a'), Token::EndAnchor]);
    assert_eq!(token, expected_token);

    input_string = "^a|^b"; //trailing backslash
    token = tokenize(input_string);
    expected_token = Ok(vec![Token::StartAnchor, Token::Literal('a'), Token::Alternation, Token::StartAnchor, Token::Literal('b')]);
    assert_eq!(token, expected_token);
}
#[test]
fn test_quantifiers() {
    let mut input_string = "{2}";
    let mut tokens = tokenize(input_string).unwrap();
    let mut expected: Vec<Token> = vec![Token::Repetition(2, Some(2))];
    assert_eq!(tokens, expected);

    input_string = "{2, 10}";
    tokens = tokenize(input_string).unwrap();
    expected = vec![Token::Repetition(2, Some(10))];
    assert_eq!(tokens, expected);

    input_string = "{2,}";
    tokens = tokenize(input_string).unwrap();
    expected = vec![Token::Repetition(2, None)];
    assert_eq!(tokens, expected);

    input_string = "{4,3}";
    let tokens_res = tokenize(input_string);
    assert!(tokens_res.is_err());

    input_string = "{2"; //unclosed
    let tokens_res = tokenize(input_string);
    assert!(tokens_res.is_err());

    input_string = "{2}+";
    tokens = tokenize(input_string).unwrap();
    expected = vec![Token::Repetition(2, Some(2)), Token::OneOrMore];
    assert_eq!(tokens, expected);

    input_string = "a{2}b";
    tokens = tokenize(input_string).unwrap();
    expected = vec![Token::Literal('a'), Token::Repetition(2, Some(2)), Token::Literal('b')];
    assert_eq!(tokens, expected);

    input_string = "a{2}bc";
    tokens = tokenize(input_string).unwrap();
    expected = vec![Token::Literal('a'), Token::Repetition(2, Some(2)), Token::Literal('b'), Token::Literal('c')];
    assert_eq!(tokens, expected);
}
