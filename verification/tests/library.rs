use regex_nfa::capture::Captures;
use regex_nfa::engine_nfa::nfa_builder::BuilderNFA;
use regex_nfa::engine_nfa::simulate::{SearchType, Simulator};
use regex_nfa::error::RegexError;
use regex_nfa::matcher::{match_character_class, matcher};
use regex_nfa::parse_ast::Parser;
use regex_nfa::tokenizer::{parse_character_set, parse_quantifier, tokenize};
use regex_nfa::types::ast_types::{NodeAST, QuantifierType};
use regex_nfa::types::nfa_types::{CharToMatch, EpsilonCondition, State, Transition, NFA};
use regex_nfa::types::token_types::{CharClassType, CharSetType, Token};
use regex_nfa::Regex;

fn build(pattern: &str) -> NFA {
    let ast = Parser::new(tokenize(pattern).unwrap()).parse_regex().unwrap();
    let mut builder = BuilderNFA::new();
    builder.compile(&ast).unwrap()
}

fn compile_err(pattern: &str) -> String {
    let mut regex = Regex::new();
    regex.compile(pattern).unwrap_err()
}

#[test]
fn negated_set_accepts_what_the_set_rejects() {
    let classes = vec![CharClassType::Range('a', 'z'), CharClassType::Digit, CharClassType::Literal('_')];
    let set = CharToMatch::CharacterSet(CharSetType::NonNegated, classes.clone());
    let negated = CharToMatch::CharacterSet(CharSetType::Negated, classes);
    for c in "az09_ !ZQ-\n".chars() {
        assert_ne!(matcher(c, &set), matcher(c, &negated));
    }
    assert!(matcher('m', &set));
    assert!(!matcher('M', &set));
    assert!(matcher('M', &negated));
}

#[test]
fn character_classes() {
    assert!(match_character_class('_', &CharClassType::Word));
    assert!(match_character_class('7', &CharClassType::Word));
    assert!(!match_character_class('-', &CharClassType::Word));
    assert!(match_character_class('-', &CharClassType::NonWord));
    assert!(match_character_class('5', &CharClassType::Digit));
    assert!(match_character_class('x', &CharClassType::NonDigit));
    assert!(match_character_class(' ', &CharClassType::Whitespace));
    assert!(match_character_class('\t', &CharClassType::Whitespace));
    assert!(!match_character_class('a', &CharClassType::Whitespace));
    assert!(match_character_class('a', &CharClassType::NonWhitespace));
    assert!(match_character_class('m', &CharClassType::Range('a', 'z')));
    assert!(!match_character_class('A', &CharClassType::Range('a', 'z')));
    assert!(match_character_class('!', &CharClassType::Any));
    assert!(matcher('q', &CharToMatch::Literal('q')));
    assert!(!matcher('p', &CharToMatch::Literal('q')));
    assert!(matcher('\n', &CharToMatch::Any));
    assert!(matcher('3', &CharToMatch::CharacterClass(CharClassType::Digit)));
    assert!(matcher('k', &CharToMatch::CharacterSet(CharSetType::NonNegated, vec![CharClassType::Any])));
}

#[test]
fn fullstring_match_is_a_substring_match() {
    let patterns = ["ab|c", "a*", "ab*c", "^abc$", "a{2,4}", "\\bcat\\b", "(ab)*", "a+b?", "[a-c]+x"];
    let texts = ["ab", "c", "abc", "xabbcy", "aaaa", "cat", "the cat", "abab", "aab", "bcax", "x"];
    let mut full_matches = 0;
    for p in patterns.iter() {
        let mut regex = Regex::new();
        regex.compile(p).unwrap();
        for t in texts.iter() {
            let full = regex.search(t, SearchType::Fullstring).unwrap();
            let sub = regex.search(t, SearchType::Substring).unwrap();
            if full {
                full_matches += 1;
                assert!(sub, "pattern {} text {}", p, t);
            }
        }
    }
    assert!(full_matches > 10);
}

#[test]
fn failed_compile_keeps_the_previous_pattern() {
    let mut regex = Regex::new();
    regex.compile("ab").unwrap();
    assert_eq!(regex.compile("a**"), Err(String::from("Parse Error: Quantifiers cannot be chained!")));
    assert_eq!(regex.search("ab", SearchType::Fullstring), Ok(true));
    assert_eq!(regex.search("b", SearchType::Fullstring), Ok(false));
    assert_eq!(regex.compile("b"), Ok(()));
    assert_eq!(regex.search("b", SearchType::Fullstring), Ok(true));
    assert_eq!(regex.search("ab", SearchType::Fullstring), Ok(false));
}

#[test]
fn tokenizer_errors_through_compile() {
    assert_eq!(compile_err("abc\\"), "Error: Dangling backslash!");
    assert_eq!(compile_err("[abc"), "Error at Character Class at Position 0, no closing ']'");
    assert_eq!(compile_err("a{2"), "Error at Quantifier! Position 1: No closing }!");
    assert_eq!(
        compile_err("a{3,2}"),
        "Error at Quantifier position 1, Error: invalid quantifier value! First value must be less than the second value!"
    );
    assert_eq!(compile_err("x[z-a]"), "Error at Character Class at Position 1, Invalid range! z - a");
    assert_eq!(compile_err("{}"), "Error at Quantifier position 0, Error: empty quantifier!");
}

#[test]
fn parser_errors_through_compile() {
    assert_eq!(compile_err(")"), "Error: Unexpected token RightParen");
    assert_eq!(compile_err("|a"), "Error: Unexpected token Alternation");
    assert_eq!(compile_err("a|"), "Error: Unexpected EOF");
    assert_eq!(compile_err("(a"), "Unexpected EOF");
    assert_eq!(compile_err("(a^"), "Unexpected token StartAnchor, expected )");
    assert_eq!(compile_err("a*?"), "Parse Error: Lazy Quantifiers not supported!");
    assert_eq!(compile_err("a+*"), "Parse Error: Quantifiers cannot be chained!");
    assert_eq!(compile_err(""), "Error: Unexpected token Epsilon");
    assert_eq!(compile_err("*a"), "Error: Unexpected token ZeroOrMore");
}

#[test]
fn repetitions_with_a_short_form_are_written_short() {
    let parse = |p: &str| Parser::new(tokenize(p).unwrap()).parse_regex().unwrap();
    assert_eq!(
        parse("(ab){1,}"),
        Box::new(NodeAST::Quantifier(
            Box::new(NodeAST::Group(Box::new(NodeAST::Concatenation(
                Box::new(NodeAST::Literal('a')),
                Box::new(NodeAST::Literal('b'))
            )))),
            QuantifierType::OneOrMore
        ))
    );
    assert_eq!(
        parse("x{0, }"),
        Box::new(NodeAST::Quantifier(Box::new(NodeAST::Literal('x')), QuantifierType::ZeroOrMore))
    );
    assert_eq!(
        parse("x{1}"),
        Box::new(NodeAST::Quantifier(Box::new(NodeAST::Literal('x')), QuantifierType::Repetition(1, Some(1))))
    );
    assert_eq!(
        parse("x{0,2}"),
        Box::new(NodeAST::Quantifier(Box::new(NodeAST::Literal('x')), QuantifierType::Repetition(0, Some(2))))
    );
}

#[test]
fn quantifier_bounds() {
    assert_eq!(
        parse_quantifier(String::from("3,3")),
        Err(String::from("Error: invalid quantifier value! First value must be less than the second value!"))
    );
    assert_eq!(parse_quantifier(String::from(" 2 , 5 ")), Ok(Token::Repetition(2, Some(5))));
    assert_eq!(parse_quantifier(String::from("+3")), Ok(Token::Repetition(3, Some(3))));
    assert_eq!(
        parse_quantifier(String::from("2,x")),
        Err(String::from("Error: error parsing second quantifier value '2'"))
    );
    assert_eq!(
        parse_quantifier(String::from("1,2,3")),
        Err(String::from("Error: error parsing second quantifier value '1'"))
    );
    assert_eq!(
        parse_quantifier(String::from("18446744073709551616")),
        Err(String::from("Error: invalid quantifier value! '18446744073709551616'"))
    );
}

#[test]
fn character_set_ranges_run_forwards() {
    assert_eq!(parse_character_set(String::from("z-a")), Err(String::from("Invalid range! z - a")));
    assert_eq!(
        parse_character_set(String::from("0-9a-f")),
        Ok(Token::CharacterSet(CharSetType::NonNegated, vec![CharClassType::Range('0', '9'), CharClassType::Range('a', 'f')]))
    );
    assert_eq!(parse_character_set(String::from("")), Err(String::from("Error: empty character set!")));
    assert_eq!(
        parse_character_set(String::from("^")),
        Ok(Token::CharacterSet(CharSetType::NonNegated, vec![CharClassType::Any]))
    );
    assert_eq!(
        parse_character_set(String::from("a-a")),
        Ok(Token::CharacterSet(CharSetType::NonNegated, vec![CharClassType::Range('a', 'a')]))
    );
}

#[test]
fn escapes() {
    assert_eq!(tokenize("\\u0041"), Ok(vec![Token::Literal('A')]));
    assert_eq!(tokenize("\\777"), Ok(vec![Token::Literal('\u{ff}')]));
    assert_eq!(tokenize("\\v\\f\\t\\n\\r"), Ok(vec![
        Token::Literal(11 as char),
        Token::Literal(12 as char),
        Token::Literal('\t'),
        Token::Literal('\n'),
        Token::Literal('\r'),
    ]));
    assert_eq!(tokenize("\\xzzab"), Ok(vec![Token::Literal('a'), Token::Literal('b')]));
    assert_eq!(
        tokenize("\\w\\W\\d\\D\\s\\S\\b\\B"),
        Ok(vec![
            Token::CharacterClass(CharClassType::Word),
            Token::CharacterClass(CharClassType::NonWord),
            Token::CharacterClass(CharClassType::Digit),
            Token::CharacterClass(CharClassType::NonDigit),
            Token::CharacterClass(CharClassType::Whitespace),
            Token::CharacterClass(CharClassType::NonWhitespace),
            Token::WordBoundary,
            Token::NonWordBoundary,
        ])
    );
    assert_eq!(tokenize("a-b"), Ok(vec![Token::Literal('a'), Token::Literal('-'), Token::Literal('b')]));
}

#[test]
fn compiled_nfa_is_closed() {
    for p in ["ab|c", "a*", "(ab)+c?", "a{2,4}", "a{0}", "(a|b){3,}", "^a$", "\\bx\\B", "[^a-c].\\d"].iter() {
        let nfa = build(p);
        let n = nfa.states.len();
        assert!(nfa.start_state < n);
        assert!(nfa.end_state < n);
        assert_eq!(nfa.states[nfa.end_state], State::Match);
        for s in nfa.states.iter() {
            match s {
                State::Single(t) => {
                    if let Some(x) = t.next_state() {
                        assert!(x < n);
                    }
                }
                State::Split(a, b) => {
                    assert!(a.next_state().unwrap() < n);
                    assert!(b.next_state().unwrap() < n);
                }
                State::Match => {}
            }
        }
    }
}

#[test]
fn simulator_runs_a_built_nfa() {
    let mut sim = Simulator::new(build("ab"));
    assert!(sim.simulate(String::from("ab"), SearchType::Fullstring));
    let mut sim = Simulator::new(build("ab"));
    assert!(!sim.simulate(String::from("abc"), SearchType::Fullstring));
    let mut sim = Simulator::new(build("ab"));
    assert!(sim.simulate(String::from("cabc"), SearchType::Substring));
    let mut sim = Simulator::new(build("a.c"));
    assert!(sim.simulate(String::from("a-c"), SearchType::Fullstring));
    let mut sim = Simulator::new(build("[^0-9]+"));
    assert!(sim.simulate(String::from("abc"), SearchType::Fullstring));
    let mut sim = Simulator::new(build("[^0-9]+"));
    assert!(!sim.simulate(String::from("ab1"), SearchType::Fullstring));
}

#[test]
fn state_and_transition_accessors() {
    let literal = State::Single(Transition::Literal(3, CharToMatch::Literal('a')));
    let split = State::Split(
        Transition::Epsilon(1, EpsilonCondition::Unconditional),
        Transition::Literal(2, CharToMatch::Any),
    );
    assert_eq!(literal.state_type(), "literal");
    assert_eq!(split.state_type(), "split");
    assert_eq!(State::Match.state_type(), "match");

    assert_eq!(literal.transition_next(), Some((3, None)));
    assert_eq!(split.transition_next(), Some((1, Some(2))));
    assert_eq!(State::Match.transition_next(), None);

    let mut s = split;
    s.update_first_transition_next(7);
    s.update_second_transition_next(8);
    assert_eq!(s.transition_next(), Some((7, Some(8))));
    let mut l = literal;
    l.update_first_transition_next(5);
    l.update_second_transition_next(9);
    assert_eq!(l, State::Single(Transition::Literal(5, CharToMatch::Literal('a'))));

    let t = Transition::Literal(4, CharToMatch::CharacterClass(CharClassType::Digit));
    assert_eq!(t.next_state(), Some(4));
    assert_eq!(t.next_char(), Some(CharToMatch::CharacterClass(CharClassType::Digit)));
    assert_eq!(t.next_condition(), None);
    let e = Transition::Epsilon(6, EpsilonCondition::WordBoundary);
    assert_eq!(e.next_char(), None);
    assert_eq!(e.next_condition(), Some(EpsilonCondition::WordBoundary));
    let mut d = Transition::DanglingTransition;
    assert_eq!(d.next_state(), None);
    d.update_next_state(3);
    assert_eq!(d, Transition::DanglingTransition);
    let mut e2 = e;
    e2.update_next_state(0);
    assert_eq!(e2, Transition::Epsilon(0, EpsilonCondition::WordBoundary));
}

#[test]
fn captures_of_a_search_are_not_collected_yet() {
    let mut captures = Captures::new(vec![(0, 2), (3, 5)]);
    assert!(captures.next().is_none());
    assert!(captures.next().is_none());
}

#[test]
fn regex_error_values() {
    let e = RegexError::Parse { pos: 3 };
    assert_eq!(e, RegexError::Parse { pos: 3 });
    assert_ne!(e, RegexError::Parse { pos: 4 });
    assert!(matches!(e, RegexError::Parse { pos: 3 }));
}

#[test]
fn anchors_and_repetitions() {
    let mut regex = Regex::new();
    // `{0,n}` keeps the operand once and adds `n` optional copies
    regex.compile("a{0,2}b").unwrap();
    assert_eq!(regex.search("b", SearchType::Fullstring), Ok(false));
    assert_eq!(regex.search("ab", SearchType::Fullstring), Ok(true));
    assert_eq!(regex.search("aab", SearchType::Fullstring), Ok(true));
    assert_eq!(regex.search("aaab", SearchType::Fullstring), Ok(true));
    assert_eq!(regex.search("aaaab", SearchType::Fullstring), Ok(false));
    regex.compile("(a|b){2}").unwrap();
    assert_eq!(regex.search("ab", SearchType::Fullstring), Ok(true));
    assert_eq!(regex.search("ba", SearchType::Fullstring), Ok(true));
    assert_eq!(regex.search("a", SearchType::Fullstring), Ok(false));
    regex.compile("\\d+").unwrap();
    assert_eq!(regex.search("2024", SearchType::Fullstring), Ok(true));
    assert_eq!(regex.search("20x4", SearchType::Fullstring), Ok(false));
    assert_eq!(regex.search("x4", SearchType::Substring), Ok(true));
}

#[test]
fn nested_repetitions_compile() {
    let mut regex = Regex::new();
    regex.compile("(a{2}){2}").unwrap();
    assert_eq!(regex.search("aaaa", SearchType::Fullstring), Ok(true));
    assert_eq!(regex.search("aaa", SearchType::Fullstring), Ok(false));
    assert_eq!(regex.search("aaaaa", SearchType::Fullstring), Ok(false));
    regex.compile("(ab{1,2}){2}").unwrap();
    assert_eq!(regex.search("abab", SearchType::Fullstring), Ok(true));
    assert_eq!(regex.search("ababb", SearchType::Fullstring), Ok(true));
    assert_eq!(regex.search("abbabb", SearchType::Fullstring), Ok(true));
    assert_eq!(regex.search("abbb", SearchType::Fullstring), Ok(false));
    regex.compile("(a|b*){2,}c").unwrap();
    assert_eq!(regex.search("abbac", SearchType::Fullstring), Ok(true));
    assert_eq!(regex.search("c", SearchType::Fullstring), Ok(true));
    assert_eq!(regex.search("abd", SearchType::Substring), Ok(false));
}
