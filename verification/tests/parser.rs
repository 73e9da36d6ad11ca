use regex_nfa::parse_ast::Parser;
use regex_nfa::tokenizer::tokenize;
use regex_nfa::types::ast_types::{NodeAST, QuantifierType};
use regex_nfa::types::token_types::{CharClassType, CharSetType};

#[test]
fn test_precedence() {
    let mut input = "ab*";
    let mut ast = Parser::new(tokenize(input).unwrap()).parse_regex().unwrap();
    let mut expected_ast = Box::new(NodeAST::Concatenation(
        Box::new(NodeAST::Literal('a')),
        Box::new(NodeAST::Quantifier(
            Box::new(NodeAST::Literal('b')),
            QuantifierType::ZeroOrMore
        ))
    ));
    assert_eq!(ast, expected_ast);

    input = "ab|cd";
    ast = Parser::new(tokenize(input).unwrap()).parse_regex().unwrap();
    expected_ast = Box::new(NodeAST::Alternation(
        Box::new(NodeAST::Concatenation(
            Box::new(NodeAST::Literal('a')),
            Box::new(NodeAST::Literal('b')),
        )),
        Box::new(NodeAST::Concatenation(
            Box::new(NodeAST::Literal('c')),
            Box::new(NodeAST::Literal('d')),
        ))
    ));
    assert_eq!(ast, expected_ast);

    input = "a|b*";
    ast = Parser::new(tokenize(input).unwrap()).parse_regex().unwrap();
    expected_ast = Box::new(NodeAST::Alternation(
        Box::new(NodeAST::Literal('a')),
        Box::new(NodeAST::Quantifier(
            Box::new(NodeAST::Literal('b')),
            QuantifierType::ZeroOrMore
        ))
    ));
    assert_eq!(ast, expected_ast);

    input = "^a|b$";
    ast = Parser::new(tokenize(input).unwrap()).parse_regex().unwrap();
    expected_ast = Box::new(NodeAST::Alternation(
        Box::new(NodeAST::AnchorStart(Box::new(NodeAST::Literal('a')))),
        Box::new(NodeAST::AnchorEnd(Box::new(NodeAST::Literal('b'))))
    ));
    assert_eq!(ast, expected_ast);

    input = "^a+";
    ast = Parser::new(tokenize(input).unwrap()).parse_regex().unwrap();
    expected_ast = Box::new(NodeAST::AnchorStart(Box::new(NodeAST::Quantifier(Box::new(NodeAST::Literal('a')), QuantifierType::OneOrMore))));
    assert_eq!(ast, expected_ast);

    input = "a|b|c";
    ast = Parser::new(tokenize(input).unwrap()).parse_regex().unwrap();
    expected_ast = Box::new(NodeAST::Alternation(Box::new(NodeAST::Literal('a')),
                         Box::new(NodeAST::Alternation(Box::new(NodeAST::Literal('b')), Box::new(NodeAST::Literal('c'))))));
    assert_eq!(ast, expected_ast);
}
#[test]
fn test_alternation_associativity() {
    let mut input = "a|b|c";
    let mut ast = Parser::new(tokenize(input).unwrap()).parse_regex();
    let mut expected_ast = Box::new(NodeAST::Alternation(Box::new(NodeAST::Literal('a')),
                                                         Box::new(NodeAST::Alternation(Box::new(NodeAST::Literal('b')),
                                                                                       Box::new(NodeAST::Literal('c'))))));
    assert_eq!(ast.unwrap(), expected_ast);

    input = "a|b|c|d";
    ast = Parser::new(tokenize(input).unwrap()).parse_regex();
    expected_ast = Box::new(NodeAST::Alternation(Box::new(NodeAST::Literal('a')), Box::new(NodeAST::Alternation(Box::new(NodeAST::Literal('b')),
                                  Box::new(NodeAST::Alternation(Box::new(NodeAST::Literal('c')),
                                                                Box::new(NodeAST::Literal('d'))))))));
    assert_eq!(ast.unwrap(), expected_ast);

    input = "(a|b)|c";
    ast = Parser::new(tokenize(input).unwrap()).parse_regex();
    expected_ast = Box::new(NodeAST::Alternation(Box::new(NodeAST::Group(
        Box::new(NodeAST::Alternation(Box::new(NodeAST::Literal('a')), Box::new(NodeAST::Literal('b'))))
    )), Box::new(NodeAST::Literal('c'))));
    assert_eq!(ast.unwrap(), expected_ast);

    input = "a|(b|c)";
    ast = Parser::new(tokenize(input).unwrap()).parse_regex();
    expected_ast = Box::new(NodeAST::Alternation(Box::new(NodeAST::Literal('a')), Box::new(NodeAST::Group(
        Box::new(NodeAST::Alternation(Box::new(NodeAST::Literal('b')), Box::new(NodeAST::Literal('c'))))
    ))));
    assert_eq!(ast.unwrap(), expected_ast);
}
#[test]
fn test_alternation_arms_full_concat() {
    let mut input = "ab|cd";
    let mut ast = Parser::new(tokenize(input).unwrap()).parse_regex();
    let mut expected_ast = Box::new(NodeAST::Alternation(
        Box::new(NodeAST::Concatenation(Box::new(NodeAST::Literal('a')), Box::new(NodeAST::Literal('b')))),
        Box::new(NodeAST::Concatenation(Box::new(NodeAST::Literal('c')), Box::new(NodeAST::Literal('d'))))
    ));
    assert_eq!(ast.unwrap(), expected_ast);

    input = "abc|def";
    ast = Parser::new(tokenize(input).unwrap()).parse_regex();
    expected_ast = Box::new(NodeAST::Alternation(
        Box::new(NodeAST::Concatenation(Box::new(NodeAST::Literal('a')), Box::new(NodeAST::Concatenation(Box::new(NodeAST::Literal('b')), Box::new(NodeAST::Literal('c')))))),
        Box::new(NodeAST::Concatenation(Box::new(NodeAST::Literal('d')), Box::new(NodeAST::Concatenation(Box::new(NodeAST::Literal('e')), Box::new(NodeAST::Literal('f'))))))));
    assert_eq!(ast.unwrap(), expected_ast);

    input = "ab|cd|ef";
    ast = Parser::new(tokenize(input).unwrap()).parse_regex();
    expected_ast = Box::new(NodeAST::Alternation(
        Box::new(NodeAST::Concatenation(Box::new(NodeAST::Literal('a')), Box::new(NodeAST::Literal('b')))),
        Box::new(NodeAST::Alternation(
            Box::new(NodeAST::Concatenation(Box::new(NodeAST::Literal('c')), Box::new(NodeAST::Literal('d')))),
            Box::new(NodeAST::Concatenation(Box::new(NodeAST::Literal('e')), Box::new(NodeAST::Literal('f')))))
        ))
    );
    assert_eq!(ast.unwrap(), expected_ast);
}
#[test]
fn test_alternation_empty_arms() {
    let mut input = "|a";
    let mut ast = Parser::new(tokenize(input).unwrap()).parse_regex();
    assert!(ast.is_err());

    input = "a|";
    ast = Parser::new(tokenize(input).unwrap()).parse_regex();
    assert!(ast.is_err());

    input = "|";
    ast = Parser::new(tokenize(input).unwrap()).parse_regex();
    assert!(ast.is_err());

    input = "a||b";
    ast = Parser::new(tokenize(input).unwrap()).parse_regex();
    assert!(ast.is_err());
}
#[test]
fn test_concat_with_quantifiers() {
    let mut input = "ab*";
    let mut ast = Parser::new(tokenize(input).unwrap()).parse_regex();
    let mut expected_ast = Box::new(NodeAST::Concatenation(
        Box::new(NodeAST::Literal('a')),
        Box::new(NodeAST::Quantifier(Box::new(NodeAST::Literal('b')), QuantifierType::ZeroOrMore)))
    );
    assert_eq!(ast.unwrap(), expected_ast);

    input = "ab+c";
    ast = Parser::new(tokenize(input).unwrap()).parse_regex();
    expected_ast = Box::new(NodeAST::Concatenation(
        Box::new(NodeAST::Literal('a')),
        Box::new(NodeAST::Concatenation(
            Box::new(NodeAST::Quantifier(Box::new(NodeAST::Literal('b')), QuantifierType::OneOrMore)),
            Box::new(NodeAST::Literal('c'))
        ))
    ));
    assert_eq!(ast.unwrap(), expected_ast);

    input = "a*b*";
    ast = Parser::new(tokenize(input).unwrap()).parse_regex();
    expected_ast = Box::new(NodeAST::Concatenation(
        Box::new(NodeAST::Quantifier(Box::new(NodeAST::Literal('a')), QuantifierType::ZeroOrMore)),
        Box::new(NodeAST::Quantifier(Box::new(NodeAST::Literal('b')), QuantifierType::ZeroOrMore))

    ));
    assert_eq!(ast.unwrap(), expected_ast);

    input = "ab?c";
    ast = Parser::new(tokenize(input).unwrap()).parse_regex();
    expected_ast = Box::new(NodeAST::Concatenation(
        Box::new(NodeAST::Literal('a')),
        Box::new(NodeAST::Concatenation(
            Box::new(NodeAST::Quantifier(
                Box::new(NodeAST::Literal('b')),
                QuantifierType::ZeroOrOne
            )),
            Box::new(NodeAST::Literal('c'))
        ))
    ));
    assert_eq!(ast.unwrap(), expected_ast);

    input = "a*b+c?d";
    ast = Parser::new(tokenize(input).unwrap()).parse_regex();
    expected_ast = Box::new(NodeAST::Concatenation(
        Box::new(NodeAST::Quantifier(Box::new(NodeAST::Literal('a')), QuantifierType::ZeroOrMore)),
        Box::new(NodeAST::Concatenation(
            Box::new(NodeAST::Quantifier(Box::new(NodeAST::Literal('b')), QuantifierType::OneOrMore)),
            Box::new(NodeAST::Concatenation(
                Box::new(NodeAST::Quantifier(Box::new(NodeAST::Literal('c')), QuantifierType::ZeroOrOne)),
                Box::new(NodeAST::Literal('d'))
            ))
        ))
    ));
    assert_eq!(ast.unwrap(), expected_ast);
}
#[test]
fn test_grouping_inside_concat() {
    let mut input = "a(bc)d";
    let mut ast = Parser::new(tokenize(input).unwrap()).parse_regex();
    let mut expected_ast = Box::new(NodeAST::Concatenation(
        Box::new(NodeAST::Literal('a')),
        Box::new(NodeAST::Concatenation(
            Box::new(NodeAST::Group(
                Box::new(NodeAST::Concatenation(
                    Box::new(NodeAST::Literal('b')),
                    Box::new(NodeAST::Literal('c'))
                )))),
            Box::new(NodeAST::Literal('d'))
        ))
    ));
    assert_eq!(ast.unwrap(), expected_ast);

    input = "(ab)(cd)";
    ast = Parser::new(tokenize(input).unwrap()).parse_regex();
    expected_ast = Box::new(NodeAST::Concatenation(
        Box::new(NodeAST::Group(
            Box::new(NodeAST::Concatenation(
                Box::new(NodeAST::Literal('a')),
                Box::new(NodeAST::Literal('b'))
            ))
        )),
        Box::new(NodeAST::Group(
            Box::new(NodeAST::Concatenation(
                Box::new(NodeAST::Literal('c')),
                Box::new(NodeAST::Literal('d'))
            ))
        ))
    ));
    assert_eq!(ast.unwrap(), expected_ast);

    input = "a(b|c)d";
    ast = Parser::new(tokenize(input).unwrap()).parse_regex();
    expected_ast = Box::new(NodeAST::Concatenation(
        Box::new(NodeAST::Literal('a')),
        Box::new(NodeAST::Concatenation(
            Box::new(NodeAST::Group(
                Box::new(NodeAST::Alternation(
                    Box::new(NodeAST::Literal('b')),
                    Box::new(NodeAST::Literal('c'))
                ))
            )),
            Box::new(NodeAST::Literal('d'))
        ))
    ));
    assert_eq!(ast.unwrap(), expected_ast);
}
#[test]
fn test_quantifier_single_atom() {
    let mut input = "ab*";
    let mut ast = Parser::new(tokenize(input).unwrap()).parse_regex();
    let mut expected_ast = Box::new(NodeAST::Concatenation(
        Box::new(NodeAST::Literal('a')),
        Box::new(NodeAST::Quantifier(
            Box::new(NodeAST::Literal('b')),
            QuantifierType::ZeroOrMore
        ))
    ));
    assert_eq!(ast.unwrap(), expected_ast);

    input = "a*b";
    ast = Parser::new(tokenize(input).unwrap()).parse_regex();
    expected_ast = Box::new(NodeAST::Concatenation(
        Box::new(NodeAST::Quantifier(
            Box::new(NodeAST::Literal('a')),
            QuantifierType::ZeroOrMore
        )),
        Box::new(NodeAST::Literal('b'))
    ));
    assert_eq!(ast.unwrap(), expected_ast);

    input = "abc*";
    ast = Parser::new(tokenize(input).unwrap()).parse_regex();
    expected_ast = Box::new(NodeAST::Concatenation(
        Box::new(NodeAST::Literal('a')),
        Box::new(NodeAST::Concatenation(
            Box::new(NodeAST::Literal('b')),
            Box::new(NodeAST::Quantifier(
                Box::new(NodeAST::Literal('c')),
                QuantifierType::ZeroOrMore
            ))
        ))
    ));
    assert_eq!(ast.unwrap(), expected_ast);

    input = ".+";
    ast = Parser::new(tokenize(input).unwrap()).parse_regex();
    expected_ast = Box::new(NodeAST::Quantifier(
        Box::new(NodeAST::Any),
        QuantifierType::OneOrMore
    ));
    assert_eq!(ast.unwrap(), expected_ast);

    input = "[a-z]?";
    ast = Parser::new(tokenize(input).unwrap()).parse_regex();
    expected_ast = Box::new(NodeAST::Quantifier(
        Box::new(NodeAST::CharacterSet(CharSetType::NonNegated, vec![CharClassType::Range('a', 'z')])),
        QuantifierType::ZeroOrOne
    ));
    assert_eq!(ast.unwrap(), expected_ast);
}
#[test]
fn test_group_is_single_atom() {
    let mut input = "(ab)?";
    let mut ast = Parser::new(tokenize(input).unwrap()).parse_regex();
    let mut expected_ast = Box::new(NodeAST::Quantifier(
        Box::new(NodeAST::Group(
            Box::new(NodeAST::Concatenation(
                Box::new(NodeAST::Literal('a')),
                Box::new(NodeAST::Literal('b'))
            ))
        )),
        QuantifierType::ZeroOrOne
    ));
    assert_eq!(ast.unwrap(), expected_ast);

    input = "(a|b)+";
    ast = Parser::new(tokenize(input).unwrap()).parse_regex();
    expected_ast = Box::new(NodeAST::Quantifier(
        Box::new(NodeAST::Group(
            Box::new(NodeAST::Alternation(
                Box::new(NodeAST::Literal('a')),
                Box::new(NodeAST::Literal('b'))
            ))
        )),
        QuantifierType::OneOrMore
    ));
    assert_eq!(ast.unwrap(), expected_ast);

    input = "(abc)*";
    ast = Parser::new(tokenize(input).unwrap()).parse_regex();
    expected_ast = Box::new(NodeAST::Quantifier(
        Box::new(NodeAST::Group(
            Box::new(NodeAST::Concatenation(
                Box::new(NodeAST::Literal('a')),
                Box::new(NodeAST::Concatenation(
                    Box::new(NodeAST::Literal('b')),
                    Box::new(NodeAST::Literal('c'))
                ))
            ))
        )),
        QuantifierType::ZeroOrMore
    ));
    assert_eq!(ast.unwrap(), expected_ast);

    input = "(ab)+(cd)?";
    ast = Parser::new(tokenize(input).unwrap()).parse_regex();
    expected_ast = Box::new(NodeAST::Concatenation(
        Box::new(NodeAST::Quantifier(
            Box::new(NodeAST::Group(
                Box::new(NodeAST::Concatenation(
                    Box::new(NodeAST::Literal('a')),
                    Box::new(NodeAST::Literal('b'))
                ))
            )),
            QuantifierType::OneOrMore
        )),
        Box::new(NodeAST::Quantifier(
            Box::new(NodeAST::Group(
                Box::new(NodeAST::Concatenation(
                    Box::new(NodeAST::Literal('c')),
                    Box::new(NodeAST::Literal('d'))
                ))
            )),
            QuantifierType::ZeroOrOne
        ))
    ));
    assert_eq!(ast.unwrap(), expected_ast);
}
#[test]
fn test_bounded_repetition() {
    let mut input = "a{3}";
    let mut ast = Parser::new(tokenize(input).unwrap()).parse_regex();
    let mut expected_ast = Box::new(NodeAST::Quantifier(
        Box::new(NodeAST::Literal('a')),
        QuantifierType::Repetition(3, Some(3))
    ));
    assert_eq!(ast.unwrap(), expected_ast);

    input = "a{3,}";
    ast = Parser::new(tokenize(input).unwrap()).parse_regex();
    expected_ast = Box::new(NodeAST::Quantifier(
        Box::new(NodeAST::Literal('a')),
        QuantifierType::Repetition(3, None)
    ));
    assert_eq!(ast.unwrap(), expected_ast);

    input = "a{3,7}";
    ast = Parser::new(tokenize(input).unwrap()).parse_regex();
    expected_ast = Box::new(NodeAST::Quantifier(
        Box::new(NodeAST::Literal('a')),
        QuantifierType::Repetition(3, Some(7))
    ));
    assert_eq!(ast.unwrap(), expected_ast);

    input = "a{0,1}";
    ast = Parser::new(tokenize(input).unwrap()).parse_regex();
    expected_ast = Box::new(NodeAST::Quantifier(
        Box::new(NodeAST::Literal('a')),
        QuantifierType::ZeroOrOne
    ));
    assert_eq!(ast.unwrap(), expected_ast);

    input = "a{1,}";
    ast = Parser::new(tokenize(input).unwrap()).parse_regex();
    expected_ast = Box::new(NodeAST::Quantifier(
        Box::new(NodeAST::Literal('a')),
        QuantifierType::OneOrMore
    ));
    assert_eq!(ast.unwrap(), expected_ast);

    input = "a{0,}";
    ast = Parser::new(tokenize(input).unwrap()).parse_regex();
    expected_ast = Box::new(NodeAST::Quantifier(
        Box::new(NodeAST::Literal('a')),
        QuantifierType::ZeroOrMore
    ));
    assert_eq!(ast.unwrap(), expected_ast);

    input = "a{0}";
    ast = Parser::new(tokenize(input).unwrap()).parse_regex();
    expected_ast = Box::new(NodeAST::Quantifier(
        Box::new(NodeAST::Literal('a')),
        QuantifierType::Repetition(0, Some(0))
    ));
    assert_eq!(ast.unwrap(), expected_ast);

    input = "a{2, 1}";
    assert!(tokenize(input).is_err());
}
#[test]
fn test_chained_quantifier() {
    let mut input = "a*?";
    let mut ast = Parser::new(tokenize(input).unwrap()).parse_regex();
    assert!(ast.is_err());

    input = "a**";
    ast = Parser::new(tokenize(input).unwrap()).parse_regex();
    assert!(ast.is_err());

    input = "a*+";
    ast = Parser::new(tokenize(input).unwrap()).parse_regex();
    assert!(ast.is_err());

    input = "a{2}+";
    ast = Parser::new(tokenize(input).unwrap()).parse_regex();
    assert!(ast.is_err());

    input = "a?{2}";
    ast = Parser::new(tokenize(input).unwrap()).parse_regex();
    assert!(ast.is_err());

    input = "a{2}{2,3}";
    ast = Parser::new(tokenize(input).unwrap()).parse_regex();
    assert!(ast.is_err());
}
#[test]
fn test_nested_grouping() {
    
}
#[test]
fn test_things_known_to_break() {}
