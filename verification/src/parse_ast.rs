//! A recursive-descent parser from tokens to a syntax tree, by this grammar:
//!
//! ```text
//! <regex>   ::= <anchor> '|' <regex> | <anchor>
//! <anchor>  ::= '^' <term> | <term> '$' | <term>
//! <term>    ::= <factor> <term> | <factor>
//! <factor>  ::= <primary> '*' | <primary> '+' | <primary> '?'
//!             | <primary> {m, n} | <primary>
//! <primary> ::= <literal> | <any> | <class> | <set> | <word-boundary> | '(' <regex> ')'
//! ```
use vstd::prelude::*;
use crate::types::ast_types::{NodeAST, NodeView, QuantifierType};
use crate::types::token_types::{Token, TokenView};

verus! {

/// The text that `{:?}` gives for a token.
pub uninterp spec fn token_debug_text(t: TokenView) -> Seq<char>;

/// The name of a token variant that holds no value, which is all that the
/// derived `Debug` writes for such a variant.
pub open spec fn unit_token_name(t: TokenView) -> Option<Seq<char>> {
    match t {
        TokenView::Epsilon => Some("Epsilon"@),
        TokenView::WildCard => Some("WildCard"@),
        TokenView::ZeroOrMore => Some("ZeroOrMore"@),
        TokenView::OneOrMore => Some("OneOrMore"@),
        TokenView::ZeroOrOne => Some("ZeroOrOne"@),
        TokenView::Alternation => Some("Alternation"@),
        TokenView::LeftParen => Some("LeftParen"@),
        TokenView::RightParen => Some("RightParen"@),
        TokenView::StartAnchor => Some("StartAnchor"@),
        TokenView::EndAnchor => Some("EndAnchor"@),
        TokenView::WordBoundary => Some("WordBoundary"@),
        TokenView::NonWordBoundary => Some("NonWordBoundary"@),
        _ => None,
    }
}

/// The text of a token in a message: its variant's name when it holds no
/// value, else its `Debug` text.
#[verifier::opaque]
pub open spec fn token_text(t: TokenView) -> Seq<char> {
    match unit_token_name(t) {
        Some(n) => n,
        None => token_debug_text(t),
    }
}

/// `format!("{:?}", t)`: the derived `Debug` rendering of a token. For a
/// variant without fields this is the variant's name; of the others nothing
/// is stated but that the text depends on the token's value alone.
#[verifier::external_body]
fn token_debug(t: &Token) -> (s: String)
    ensures
        s@ == token_debug_text(t@),
        unit_token_name(t@) matches Some(n) ==> s@ == n,
{
    format!("{:?}", t)
}

/// A parse result: the node and the tokens left, or a message and the tokens left.
pub type Parsed = Result<(NodeView, Seq<TokenView>), (Seq<char>, Seq<TokenView>)>;

/// Whether a token can start a primary expression.
pub open spec fn starts_primary(t: TokenView) -> bool {
    match t {
        TokenView::Literal(_) | TokenView::WildCard | TokenView::LeftParen | TokenView::CharacterSet(_, _)
        | TokenView::CharacterClass(_) | TokenView::WordBoundary | TokenView::NonWordBoundary => true,
        _ => false,
    }
}

/// The message for a quantifier that follows another one, if `ts` starts with one.
pub open spec fn chained_quantifier(ts: Seq<TokenView>) -> Option<Seq<char>> {
    if ts.len() == 0 {
        None
    } else {
        match ts[0] {
            TokenView::ZeroOrOne => Some("Parse Error: Lazy Quantifiers not supported!"@),
            TokenView::ZeroOrMore | TokenView::OneOrMore | TokenView::Repetition(_, _) => Some(
                "Parse Error: Quantifiers cannot be chained!"@,
            ),
            _ => None,
        }
    }
}

/// The quantifier that `{m,n}` stands for: `{0,1}` is `?`, `{1,}` is `+`, `{0,}` is `*`.
pub open spec fn normalized(m: usize, n: Option<usize>) -> QuantifierType {
    if m == 0 && n == Some(1usize) {
        QuantifierType::ZeroOrOne
    } else if m == 1 && n is None {
        QuantifierType::OneOrMore
    } else if m == 0 && n is None {
        QuantifierType::ZeroOrMore
    } else {
        QuantifierType::Repetition(m, n)
    }
}

/// `<regex>` at the start of `ts`.
pub open spec fn p_regex(ts: Seq<TokenView>) -> Parsed
    decreases ts.len(), 5nat,
{
    match p_start(ts) {
        Err(e) => Err(e),
        Ok((node, rest)) => if rest.len() > 0 && rest[0] is Alternation {
            if rest.len() <= ts.len() {
                match p_regex(rest.drop_first()) {
                    Ok((next, r)) => Ok((NodeView::Alternation(Box::new(node), Box::new(next)), r)),
                    Err(e) => Err(e),
                }
            } else {
                Err((seq![], rest))
            }
        } else {
            Ok((node, rest))
        },
    }
}

/// `<anchor>` with a leading `^`, at the start of `ts`.
pub open spec fn p_start(ts: Seq<TokenView>) -> Parsed
    decreases ts.len(), 4nat,
{
    if ts.len() == 0 {
        Err(("Error: Unexpected EOF"@, ts))
    } else if ts[0] is StartAnchor {
        match p_end(ts.drop_first()) {
            Ok((node, r)) => Ok((NodeView::AnchorStart(Box::new(node)), r)),
            Err(e) => Err(e),
        }
    } else {
        p_end(ts)
    }
}

/// `<anchor>` with a trailing `$`, at the start of `ts`.
pub open spec fn p_end(ts: Seq<TokenView>) -> Parsed
    decreases ts.len(), 3nat,
{
    match p_term(ts) {
        Err(e) => Err(e),
        Ok((node, r)) => if r.len() > 0 && r[0] is EndAnchor {
            Ok((NodeView::AnchorEnd(Box::new(node)), r.drop_first()))
        } else {
            Ok((node, r))
        },
    }
}

/// `<term>` at the start of `ts`.
pub open spec fn p_term(ts: Seq<TokenView>) -> Parsed
    decreases ts.len(), 2nat,
{
    match p_factor(ts) {
        Err(e) => Err(e),
        Ok((node, r)) => if r.len() > 0 && starts_primary(r[0]) {
            if r.len() < ts.len() {
                match p_term(r) {
                    Ok((next, r2)) => Ok((NodeView::Concatenation(Box::new(node), Box::new(next)), r2)),
                    Err(e) => Err(e),
                }
            } else {
                Err((seq![], r))
            }
        } else {
            Ok((node, r))
        },
    }
}

/// `<factor>` at the start of `ts`.
pub open spec fn p_factor(ts: Seq<TokenView>) -> Parsed
    decreases ts.len(), 1nat,
{
    match p_primary(ts) {
        Err(e) => Err(e),
        Ok((node, r)) => if r.len() == 0 {
            Ok((node, r))
        } else {
            let q = match r[0] {
                TokenView::ZeroOrMore => Some(QuantifierType::ZeroOrMore),
                TokenView::OneOrMore => Some(QuantifierType::OneOrMore),
                TokenView::ZeroOrOne => Some(QuantifierType::ZeroOrOne),
                TokenView::Repetition(m, n) => Some(normalized(m, n)),
                _ => None,
            };
            match q {
                None => Ok((node, r)),
                Some(q) => match chained_quantifier(r.drop_first()) {
                    Some(e) => Err((e, r.drop_first())),
                    None => Ok((NodeView::Quantifier(Box::new(node), q), r.drop_first())),
                },
            }
        },
    }
}

/// `<primary>` at the start of `ts`.
pub open spec fn p_primary(ts: Seq<TokenView>) -> Parsed
    decreases ts.len(), 0nat,
{
    if ts.len() == 0 {
        Err(("Error(Primary, Next Token): Unexpected EOF"@, ts))
    } else {
        let rest = ts.drop_first();
        match ts[0] {
            TokenView::Literal(value) => Ok((NodeView::Literal(value), rest)),
            TokenView::CharacterClass(value) => Ok((NodeView::CharacterClass(value), rest)),
            TokenView::CharacterSet(negated, sets) => Ok((NodeView::CharacterSet(negated, sets), rest)),
            TokenView::WildCard => Ok((NodeView::Any, rest)),
            TokenView::WordBoundary => Ok((NodeView::WordBoundary, rest)),
            TokenView::NonWordBoundary => Ok((NodeView::NonWordBoundary, rest)),
            TokenView::LeftParen => match p_regex(rest) {
                Err(e) => Err(e),
                Ok((node, r)) => if r.len() == 0 {
                    Err(("Unexpected EOF"@, r))
                } else if r[0] is RightParen {
                    Ok((NodeView::Group(Box::new(node)), r.drop_first()))
                } else {
                    Err(
                        (
                            "Unexpected token "@ + token_text(r[0]) + ", expected )"@,
                            r.drop_first(),
                        ),
                    )
                },
            },
            other => Err(("Error: Unexpected token "@ + token_text(other), rest)),
        }
    }
}

/// Parsing never adds tokens, and a factor or primary consumes at least one.
pub proof fn lemma_parse_consumes(ts: Seq<TokenView>)
    ensures
        p_primary(ts) matches Ok((_, r)) ==> r.len() < ts.len(),
        p_factor(ts) matches Ok((_, r)) ==> r.len() < ts.len(),
        p_term(ts) matches Ok((_, r)) ==> r.len() < ts.len(),
        p_end(ts) matches Ok((_, r)) ==> r.len() < ts.len(),
        p_start(ts) matches Ok((_, r)) ==> r.len() < ts.len(),
        p_regex(ts) matches Ok((_, r)) ==> r.len() < ts.len(),
    decreases ts.len(),
{
    if ts.len() > 0 {
        lemma_parse_consumes(ts.drop_first());
        if let Ok((_, r)) = p_factor(ts) {
            if r.len() > 0 && starts_primary(r[0]) {
                lemma_parse_consumes(r);
            }
        }
        if let Ok((_, rest)) = p_start(ts) {
            if rest.len() > 0 && rest[0] is Alternation {
                lemma_parse_consumes(rest.drop_first());
            }
        }
    }
}

/// Whether `n` is a single atom: a character matcher, a boundary or a group.
pub open spec fn is_atom(n: NodeView) -> bool {
    match n {
        NodeView::Quantifier(_, _) | NodeView::Concatenation(_, _) | NodeView::Alternation(_, _)
        | NodeView::AnchorStart(_) | NodeView::AnchorEnd(_) => false,
        _ => true,
    }
}

/// Whether a repetition `{m,n}` has one of the short forms `?`, `+` or `*`.
pub open spec fn has_short_form(q: QuantifierType) -> bool {
    match q {
        QuantifierType::Repetition(m, n) => (m == 0 && n == Some(1usize)) || (m <= 1 && n is None),
        _ => false,
    }
}

/// Whether every quantifier in `n` applies to a single atom and is written in
/// its shortest form.
pub open spec fn well_quantified(n: NodeView) -> bool
    decreases n,
{
    match n {
        NodeView::Quantifier(b, q) => is_atom(*b) && !has_short_form(q) && well_quantified(*b),
        NodeView::AnchorStart(b) => well_quantified(*b),
        NodeView::AnchorEnd(b) => well_quantified(*b),
        NodeView::Group(b) => well_quantified(*b),
        NodeView::Concatenation(a, b) => well_quantified(*a) && well_quantified(*b),
        NodeView::Alternation(a, b) => well_quantified(*a) && well_quantified(*b),
        _ => true,
    }
}

proof fn lemma_parse_well_quantified(ts: Seq<TokenView>)
    ensures
        p_primary(ts) matches Ok((n, _)) ==> well_quantified(n) && is_atom(n),
        p_factor(ts) matches Ok((n, _)) ==> well_quantified(n),
        p_term(ts) matches Ok((n, _)) ==> well_quantified(n),
        p_end(ts) matches Ok((n, _)) ==> well_quantified(n),
        p_start(ts) matches Ok((n, _)) ==> well_quantified(n),
        p_regex(ts) matches Ok((n, _)) ==> well_quantified(n),
    decreases ts.len(),
{
    lemma_parse_consumes(ts);
    if ts.len() > 0 {
        lemma_parse_well_quantified(ts.drop_first());
    }
    assert(p_primary(ts) matches Ok((n, _)) ==> well_quantified(n) && is_atom(n)) by {
        if let Ok((n, _)) = p_primary(ts) {
            if ts[0] is LeftParen {
                if let Ok((g, _)) = p_regex(ts.drop_first()) {
                    assert(n == NodeView::Group(Box::new(g)));
                }
            }
        }
    }
    assert(p_factor(ts) matches Ok((n, _)) ==> well_quantified(n)) by {
        if let Ok((a, r)) = p_primary(ts) {
            if r.len() > 0 {
                if let TokenView::Repetition(m, nn) = r[0] {
                    assert(!has_short_form(normalized(m, nn)));
                }
            }
        }
    }
    if let Ok((_, r)) = p_factor(ts) {
        if r.len() > 0 && starts_primary(r[0]) {
            lemma_parse_well_quantified(r);
        }
    }
    assert(p_term(ts) matches Ok((n, _)) ==> well_quantified(n));
    assert(p_end(ts) matches Ok((n, _)) ==> well_quantified(n));
    assert(p_start(ts) matches Ok((n, _)) ==> well_quantified(n));
    if let Ok((_, rest)) = p_start(ts) {
        if rest.len() > 0 && rest[0] is Alternation {
            lemma_parse_well_quantified(rest.drop_first());
        }
    }
}

/// In every tree the parser builds, a quantifier applies to a single atom
/// (never to another quantifier), and a repetition that has a short form is
/// written in it: `{0,1}` as `?`, `{1,}` as `+` and `{0,}` as `*`.
pub proof fn lemma_parsed_tree_well_quantified(ts: Seq<TokenView>)
    ensures
        p_regex(ts) matches Ok((n, _)) ==> well_quantified(n),
{
    lemma_parse_well_quantified(ts);
}

proof fn lemma_drop_ordered(ts: Seq<TokenView>)
    requires
        crate::tokenizer::tokens_ordered(ts),
        ts.len() > 0,
    ensures
        crate::tokenizer::tokens_ordered(ts.drop_first()),
{
    assert forall|k: int| 0 <= k < ts.drop_first().len() implies crate::tokenizer::token_ordered(
        #[trigger] ts.drop_first()[k],
    ) by {
        assert(ts.drop_first()[k] == ts[k + 1]);
    }
}

proof fn lemma_parse_ordered(ts: Seq<TokenView>)
    requires
        crate::tokenizer::tokens_ordered(ts),
    ensures
        p_primary(ts) matches Ok((n, r)) ==> crate::engine_nfa::nfa_builder::repetitions_ordered(n)
            && crate::tokenizer::tokens_ordered(r),
        p_factor(ts) matches Ok((n, r)) ==> crate::engine_nfa::nfa_builder::repetitions_ordered(n)
            && crate::tokenizer::tokens_ordered(r),
        p_term(ts) matches Ok((n, r)) ==> crate::engine_nfa::nfa_builder::repetitions_ordered(n)
            && crate::tokenizer::tokens_ordered(r),
        p_end(ts) matches Ok((n, r)) ==> crate::engine_nfa::nfa_builder::repetitions_ordered(n)
            && crate::tokenizer::tokens_ordered(r),
        p_start(ts) matches Ok((n, r)) ==> crate::engine_nfa::nfa_builder::repetitions_ordered(n)
            && crate::tokenizer::tokens_ordered(r),
        p_regex(ts) matches Ok((n, r)) ==> crate::engine_nfa::nfa_builder::repetitions_ordered(n)
            && crate::tokenizer::tokens_ordered(r),
    decreases ts.len(),
{
    lemma_parse_consumes(ts);
    if ts.len() > 0 {
        lemma_drop_ordered(ts);
        lemma_parse_ordered(ts.drop_first());
    }
    assert(p_primary(ts) matches Ok((n, r)) ==> crate::engine_nfa::nfa_builder::repetitions_ordered(n)
        && crate::tokenizer::tokens_ordered(r)) by {
        if let Ok((n, r)) = p_primary(ts) {
            if ts[0] is LeftParen {
                if let Ok((g, r1)) = p_regex(ts.drop_first()) {
                    assert(n == NodeView::Group(Box::new(g)));
                    lemma_drop_ordered(r1);
                }
            }
        }
    }
    assert(p_factor(ts) matches Ok((n, r)) ==> crate::engine_nfa::nfa_builder::repetitions_ordered(n)
        && crate::tokenizer::tokens_ordered(r)) by {
        if let Ok((a, r)) = p_primary(ts) {
            if r.len() > 0 {
                assert(crate::tokenizer::token_ordered(r[0]));
                lemma_drop_ordered(r);
            }
        }
    }
    if let Ok((_, r)) = p_factor(ts) {
        if r.len() > 0 && starts_primary(r[0]) {
            lemma_parse_ordered(r);
        }
    }
    assert(p_term(ts) matches Ok((n, r)) ==> crate::engine_nfa::nfa_builder::repetitions_ordered(n)
        && crate::tokenizer::tokens_ordered(r));
    assert(p_end(ts) matches Ok((n, r)) ==> crate::engine_nfa::nfa_builder::repetitions_ordered(n)
        && crate::tokenizer::tokens_ordered(r)) by {
        if let Ok((n, r)) = p_term(ts) {
            if r.len() > 0 {
                lemma_drop_ordered(r);
            }
        }
    }
    assert(p_start(ts) matches Ok((n, r)) ==> crate::engine_nfa::nfa_builder::repetitions_ordered(n)
        && crate::tokenizer::tokens_ordered(r));
    if let Ok((_, rest)) = p_start(ts) {
        if rest.len() > 0 && rest[0] is Alternation {
            lemma_drop_ordered(rest);
            lemma_parse_ordered(rest.drop_first());
        }
    }
}

/// Every repetition `{m,n}` in the tree parsed from tokens whose repetitions
/// have `m <= n` has `m <= n` too.
pub proof fn lemma_parsed_tree_ordered(ts: Seq<TokenView>)
    requires
        crate::tokenizer::tokens_ordered(ts),
    ensures
        p_regex(ts) matches Ok((n, _)) ==> crate::engine_nfa::nfa_builder::repetitions_ordered(n),
{
    lemma_parse_ordered(ts);
}

/// A parser over a sequence of tokens, consumed from the front.
pub struct Parser {
    /// the tokens not yet consumed, the next one last
    tokens: Vec<Token>,
}

impl View for Parser {
    type V = Seq<TokenView>;

    /// The tokens not yet consumed, in order.
    closed spec fn view(&self) -> Seq<TokenView> {
        crate::types::token_types::tokens_view(self.tokens@.reverse())
    }
}

/// The result of a parse method against the specification `p`.
pub open spec fn parse_agrees(res: Result<Box<NodeAST>, String>, rest: Seq<TokenView>, p: Parsed) -> bool {
    match (res, p) {
        (Ok(node), Ok((n, r))) => (*node)@ == n && rest == r,
        (Err(e), Err((m, r))) => e@ == m && rest == r,
        _ => false,
    }
}

impl Parser {
    /// A parser over `tokens`.
    pub fn new(tokens: Vec<Token>) -> (parser: Parser)
        ensures
            parser@ == crate::types::token_types::tokens_view(tokens@),
    {
        let mut tokens = tokens;
        let ghost all = tokens@;
        let mut stack: Vec<Token> = Vec::new();
        while tokens.len() > 0
            invariant
                all == tokens@ + stack@.reverse(),
            decreases tokens@.len(),
        {
            let ghost before = tokens@;
            let ghost before_stack = stack@;
            let t = tokens.pop().unwrap();
            stack.push(t);
            assert(stack@.reverse() =~= seq![t] + before_stack.reverse());
            assert(before =~= tokens@ + seq![t]);
        }
        assert(all =~= stack@.reverse());
        let parser = Parser { tokens: stack };
        assert(parser@ =~= crate::types::token_types::tokens_view(all));
        parser
    }

    /// The next token, not consumed.
    fn peek(&self) -> (res: Option<&Token>)
        ensures
            res is Some <==> self@.len() > 0,
            res matches Some(t) ==> t@ == self@[0],
    {
        let n = self.tokens.len();
        if n == 0 {
            None
        } else {
            assert(self.tokens@.reverse()[0] == self.tokens@[n - 1]);
            Some(&self.tokens[n - 1])
        }
    }

    /// Consumes the next token.
    fn next(&mut self) -> (res: Option<Token>)
        ensures
            old(self)@.len() > 0 ==> (res matches Some(t) && t@ == old(self)@[0] && final(self)@ == old(self)@.drop_first()),
            old(self)@.len() == 0 ==> res is None && final(self)@ == old(self)@,
    {
        let ghost before = self.tokens@;
        let res = self.tokens.pop();
        proof {
            if before.len() > 0 {
                assert(self.tokens@.reverse() =~= before.reverse().drop_first());
                assert(self@ =~= old(self)@.drop_first());
            }
        }
        res
    }

    /// Parses a whole alternation `a|b|...` from the tokens.
    pub fn parse_regex(&mut self) -> (res: Result<Box<NodeAST>, String>)
        ensures
            parse_agrees(res, final(self)@, p_regex(old(self)@)),
        decreases old(self)@.len(), 5nat,
    {
        let node = self.parse_start_anchor()?;
        let next_token = self.peek();
        match next_token {
            Some(token) => match token {
                Token::Alternation => {
                    proof {
                        lemma_parse_consumes(old(self)@);
                    }
                    self.next();
                    let next_node = self.parse_regex()?;
                    Ok(Box::new(NodeAST::Alternation(node, next_node)))
                },
                _ => Ok(node),
            },
            None => Ok(node),
        }
    }

    fn parse_start_anchor(&mut self) -> (res: Result<Box<NodeAST>, String>)
        ensures
            parse_agrees(res, final(self)@, p_start(old(self)@)),
        decreases old(self)@.len(), 4nat,
    {
        let current_token = self.peek();
        let is_start = match current_token {
            None => {
                return Err(String::from_str("Error: Unexpected EOF"));
            },
            Some(Token::StartAnchor) => true,
            Some(_) => false,
        };
        if is_start {
            self.next();
            let node = self.parse_end_anchor()?;
            return Ok(Box::new(NodeAST::AnchorStart(node)));
        }
        let node = self.parse_end_anchor()?;
        Ok(node)
    }

    fn parse_end_anchor(&mut self) -> (res: Result<Box<NodeAST>, String>)
        ensures
            parse_agrees(res, final(self)@, p_end(old(self)@)),
        decreases old(self)@.len(), 3nat,
    {
        let node = self.parse_term()?;
        let next_token = self.peek();
        if let Some(Token::EndAnchor) = next_token {
            self.next();
            return Ok(Box::new(NodeAST::AnchorEnd(node)));
        }
        Ok(node)
    }

    fn parse_term(&mut self) -> (res: Result<Box<NodeAST>, String>)
        ensures
            parse_agrees(res, final(self)@, p_term(old(self)@)),
        decreases old(self)@.len(), 2nat,
    {
        let node = self.parse_factor()?;
        let next_token = self.peek();
        match next_token {
            Some(token) => match token {
                Token::Literal(_) | Token::WildCard | Token::LeftParen | Token::CharacterSet(_, _)
                | Token::CharacterClass(_) | Token::WordBoundary | Token::NonWordBoundary => {
                    proof {
                        lemma_parse_consumes(old(self)@);
                    }
                    let next_node = self.parse_term()?;
                    Ok(Box::new(NodeAST::Concatenation(node, next_node)))
                },
                _ => Ok(node),
            },
            None => Ok(node),
        }
    }

    fn parse_factor(&mut self) -> (res: Result<Box<NodeAST>, String>)
        ensures
            parse_agrees(res, final(self)@, p_factor(old(self)@)),
        decreases old(self)@.len(), 1nat,
    {
        let node = self.parse_primary()?;
        let next_token = self.peek();
        let quantifier = match next_token {
            Some(Token::ZeroOrMore) => QuantifierType::ZeroOrMore,
            Some(Token::OneOrMore) => QuantifierType::OneOrMore,
            Some(Token::ZeroOrOne) => QuantifierType::ZeroOrOne,
            Some(Token::Repetition(m, n)) => {
                let m = *m;
                let n = *n;
                // equivalent quantifiers are normalized
                match (m, n) {
                    (0, Some(1)) => QuantifierType::ZeroOrOne,
                    (1, None) => QuantifierType::OneOrMore,
                    (0, None) => QuantifierType::ZeroOrMore,
                    _ => QuantifierType::Repetition(m, n),
                }
            },
            _ => {
                return Ok(node);
            },
        };
        self.next();
        self.validate_next_not_quantifier()?;
        Ok(Box::new(NodeAST::Quantifier(node, quantifier)))
    }

    fn parse_primary(&mut self) -> (res: Result<Box<NodeAST>, String>)
        ensures
            parse_agrees(res, final(self)@, p_primary(old(self)@)),
        decreases old(self)@.len(), 0nat,
    {
        let token = match self.next() {
            Some(token) => token,
            None => {
                return Err(String::from_str("Error(Primary, Next Token): Unexpected EOF"));
            },
        };
        match token {
            Token::Literal(value) => Ok(Box::new(NodeAST::Literal(value))),
            Token::CharacterClass(value) => Ok(Box::new(NodeAST::CharacterClass(value))),
            Token::CharacterSet(negated, character_sets) => Ok(
                Box::new(NodeAST::CharacterSet(negated, character_sets)),
            ),
            Token::WildCard => Ok(Box::new(NodeAST::Any)),
            Token::WordBoundary => Ok(Box::new(NodeAST::WordBoundary)),
            Token::NonWordBoundary => Ok(Box::new(NodeAST::NonWordBoundary)),
            Token::LeftParen => {
                let node = self.parse_regex()?;
                match self.next() {
                    Some(Token::RightParen) => Ok(Box::new(NodeAST::Group(node))),
                    Some(unexpected_token) => {
                        let mut msg = String::from_str("Unexpected token ");
                        let text = token_debug(&unexpected_token);
                        proof {
                            reveal(token_text);
                        }
                        msg.append(text.as_str());
                        msg.append(", expected )");
                        Err(msg)
                    },
                    None => Err(String::from_str("Unexpected EOF")),
                }
            },
            _ => {
                let mut msg = String::from_str("Error: Unexpected token ");
                let text = token_debug(&token);
                proof {
                    reveal(token_text);
                }
                msg.append(text.as_str());
                Err(msg)
            },
        }
    }

    fn validate_next_not_quantifier(&mut self) -> (res: Result<(), String>)
        ensures
            final(self)@ == old(self)@,
            match chained_quantifier(old(self)@) {
                Some(e) => res matches Err(m) && m@ == e,
                None => res is Ok,
            },
    {
        match self.peek() {
            Some(token) => match token {
                Token::ZeroOrOne => Err(String::from_str("Parse Error: Lazy Quantifiers not supported!")),
                Token::ZeroOrMore | Token::OneOrMore | Token::Repetition(_, _) => Err(
                    String::from_str("Parse Error: Quantifiers cannot be chained!"),
                ),
                _ => Ok(()),
            },
            None => Ok(()),
        }
    }
}

} // verus!
