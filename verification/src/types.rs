//! Data types shared by the tokenizer, the parser, the NFA builder and the simulator.
pub mod token_types;
pub mod ast_types;
pub mod nfa_types;
