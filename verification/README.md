# regex_nfa

A small regular expression engine, verified with Verus. A pattern goes
through four stages:

1. `tokenizer` splits it into tokens (escapes, bracket expressions such as
   `[a-z]`, bounded repetitions such as `{2,4}`);
2. `parse_ast` parses the tokens into a syntax tree by recursive descent;
3. `engine_nfa::nfa_builder` compiles the tree into a nondeterministic finite
   automaton (Thompson's construction; a bounded repetition copies its operand);
4. `engine_nfa::simulate` runs the automaton over a text, keeping the set of
   states it can be in, for a match of the whole text or of some part of it.

`Regex` (in `lib.rs`) ties the stages together. Each stage is specified by a
spec function over mathematical values (`Seq`, `Set`, `Map`), and every
executable function is proved to compute it. Beside the function contracts,
the library proves properties that span several functions: compiled automata
are closed, compiling panics only where the tokenizer does, a match of the
whole text is also a match of a part of it, parsed trees put quantifiers on
single atoms in their shortest form, and accepted bracket ranges and
repetition bounds are in order.

`app/` holds what Verus does not check: the error type with its message,
for callers that use `std::error::Error`.
