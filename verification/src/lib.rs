//! A regular expression engine: a pattern is split into tokens, parsed into a
//! syntax tree, compiled into a nondeterministic finite automaton, and the
//! automaton is run over a text.
pub mod types;
pub mod matcher;
pub mod text;
pub mod tokenizer;
pub mod parse_ast;
pub mod engine_nfa;
pub mod capture;
pub mod error;

use vstd::prelude::*;
use vstd::string::StringSliceAdditionalSpecFns;
use crate::engine_nfa::nfa_builder::BuilderNFA;
use crate::engine_nfa::simulate::{SearchType, Simulator};
use crate::parse_ast::Parser;
use crate::tokenizer::Outcome;
use crate::types::nfa_types::{nfa_wf, NFAView, NFA};

verus! {

/// What compiling the pattern `s`, of `byte_len` bytes in UTF-8, gives: the
/// automaton, the message of the error that refuses the pattern, or a panic.
pub open spec fn spec_compile_pattern(s: Seq<char>, byte_len: int) -> Outcome<NFAView> {
    match crate::tokenizer::spec_tokenize(s, byte_len) {
        Outcome::Panic => Outcome::Panic,
        Outcome::Fail(m) => Outcome::Fail(m),
        Outcome::Value(ts) => match crate::parse_ast::p_regex(ts) {
            Err((m, _)) => Outcome::Fail(m),
            Ok((ast, _)) => match crate::engine_nfa::nfa_builder::sp_compile(Seq::empty(), ast) {
                Some(nfa) => Outcome::Value(nfa),
                None => Outcome::Panic,
            },
        },
    }
}

/// Whether the automaton of the pattern `s`, where it parses, has room: the
/// number of states that building it may take fits in a `usize`.
pub open spec fn pattern_fits(s: Seq<char>, byte_len: int) -> bool {
    match crate::tokenizer::spec_tokenize(s, byte_len) {
        Outcome::Value(ts) => match crate::parse_ast::p_regex(ts) {
            Ok((ast, _)) => crate::engine_nfa::nfa_builder::walk_bound(ast) <= usize::MAX,
            Err(_) => true,
        },
        _ => true,
    }
}

/// Compiling a pattern panics only where splitting it into tokens does, or
/// where its automaton would not fit in memory.
pub proof fn lemma_compile_panics_only_in_tokenizer(s: Seq<char>, byte_len: int)
    requires
        !(crate::tokenizer::spec_tokenize(s, byte_len) is Panic),
        pattern_fits(s, byte_len),
    ensures
        !(spec_compile_pattern(s, byte_len) is Panic),
{
    crate::tokenizer::lemma_tokens_ordered(s, byte_len);
    if let Outcome::Value(ts) = crate::tokenizer::spec_tokenize(s, byte_len) {
        crate::parse_ast::lemma_parsed_tree_ordered(ts);
        if let Ok((ast, _)) = crate::parse_ast::p_regex(ts) {
            crate::engine_nfa::nfa_builder::lemma_compile_succeeds(ast);
        }
    }
}

/// A compiled regular expression, or none before the first successful compile.
pub struct Regex {
    nfa: Option<NFA>,
}

impl View for Regex {
    type V = Option<NFAView>;

    closed spec fn view(&self) -> Option<NFAView> {
        match self.nfa {
            Some(n) => Some(n@),
            None => None,
        }
    }
}

impl Regex {
    /// The automaton held is closed: its start and every target of a
    /// transition are among its states.
    #[verifier::type_invariant]
    closed spec fn inv(self) -> bool {
        self.nfa matches Some(n) ==> nfa_wf(n@)
    }

    /// A regular expression with nothing compiled yet.
    pub fn new() -> (r: Self)
        ensures
            r@ is None,
    {
        Regex { nfa: None }
    }

    /// Compiles `input`; on success it replaces what was compiled before,
    /// on an error it leaves it as it was.
    pub fn compile(&mut self, input: &str) -> (res: Result<(), String>)
        requires
            input.spec_bytes().len() <= isize::MAX,
            !(crate::tokenizer::spec_tokenize(input@, input.spec_bytes().len() as int) is Panic),
            pattern_fits(input@, input.spec_bytes().len() as int),
        ensures
            match spec_compile_pattern(input@, input.spec_bytes().len() as int) {
                Outcome::Value(nfa) => res is Ok && final(self)@ == Some(nfa),
                Outcome::Fail(m) => res matches Err(e) && e@ == m && final(self)@ == old(self)@,
                Outcome::Panic => false,
            },
            res is Ok ==> nfa_wf(final(self)@->0),
    {
        proof {
            lemma_compile_panics_only_in_tokenizer(input@, input.spec_bytes().len() as int);
            crate::tokenizer::lemma_tokens_ordered(input@, input.spec_bytes().len() as int);
        }
        let tokens = crate::tokenizer::tokenize(input)?;
        let ghost tokens_seq = tokens@;
        let mut parser = Parser::new(tokens);
        let ast = parser.parse_regex()?;
        proof {
            crate::parse_ast::lemma_parsed_tree_ordered(crate::types::token_types::tokens_view(tokens_seq));
        }
        let mut nfa_builder = BuilderNFA::new();
        let nfa = nfa_builder.compile(&ast)?;
        self.nfa = Some(nfa);
        Ok(())
    }

    /// Whether the compiled automaton accepts `input` as a whole
    /// (`Fullstring`) or some part of it (`Substring`).
    pub fn search(&self, input: &str, search_type: SearchType) -> (res: Result<bool, String>)
        requires
            self@ is Some,
            crate::engine_nfa::simulate::start_decidable(self@->0, input@, 0),
        ensures
            res == Ok::<bool, String>(crate::engine_nfa::simulate::spec_simulate(self@->0, input@, search_type, 0)),
    {
        proof {
            use_type_invariant(self);
        }
        let nfa = match &self.nfa {
            Some(n) => n.clone(),
            None => {
                return Ok(false);
            },
        };
        let mut regex_sim = Simulator::new(nfa);
        let sim_result = regex_sim.simulate(String::from_str(input), search_type);
        if !sim_result {
            return Ok(false);
        }
        Ok(sim_result)
    }
}

} // verus!
