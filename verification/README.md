# compiler

A small compiler from arithmetic expressions to RISC-V assembly, verified with Verus.

The pipeline is `tokenizer::try_tokenize` (text to tokens), `parser::Parser::try_parse`
(tokens to syntax trees, one per statement) and `generator::Generator::try_generate`
(trees to instructions); `generator::Instr::text` gives the assembler line of an
instruction. Each stage has an exact contract over a specification function of its own
(`spec_tokenize`, `parse_program`, `gen_program`, `instr_text`), and the functions without
the `try_` prefix are the same stages for inputs that are known to succeed.

Properties proved beside the contracts:

- `tokenizer::lemma_whitespace_separates`: white space between two texts separates their
  tokens.
- `tokenizer::lemma_tokenize_scannable`, `parser::lemma_tokenized_text_is_no_program`:
  scanning never produces a name, a lone `=` or a `;`, so the tokens of a text that is not
  blank never form a program.
- `parser::lemma_expr_longest`: an expression takes at least one token and stops only
  where no operator and no `=` follows (`Parser::expr` states the same).
- `parser::lemma_paren_round_trip`, `parser::lemma_program_round_trip`: fully
  parenthesized expressions and programs read back as the trees they were written from.
- `generator::lemma_lookup_after_bind`: a variable reads back the slot it was bound to,
  and other names keep theirs (`Generator::declare` states the same).
- `Generator::lemma_wf_slots`: the frame offset is a multiple of 8 at or below 0, and each
  variable has a slot of its own, a multiple of 8 between the offset and -8; the offset
  never rises, so each declaration lies below every earlier one.
- `generator::lemma_gen_tree_stack`, `generator::lemma_gen_program_stack`,
  `generator::lemma_gen_tree_push_pop_counts`: the generated code keeps the stack
  balanced: the code of a tree pushes one slot more than it pops, and never pops more than
  it has pushed.
- `generator::lemma_gen_program_declarations`: compiling a program closes the scope it
  opened, and the frame offset drops by 8 for each name it assigns that no scope bound
  (`Generator::generate` states the same; `Generator::try_generate` closes the scope on
  an error too).
- `machine::lemma_push_then_pop`: popping undoes pushing, for any registers other than
  `sp` (a pushed `fp` holding a 64-bit value); the value moves to the popped register,
  the other registers and the stack pointer are as before, and only the word below the
  stack pointer is written.
- `machine::lemma_gen_tree_correct`, `machine::lemma_gen_program_correct`: on a model of
  the machine, the code of a program without variables leaves the value of its last
  statement in `t0` and touches no memory above the stack.
- `machine::lemma_gen_program_correct_with_variables`, `machine::lemma_fresh_program_correct`:
  the same for programs with variables, as long as the variables' frame slots lie at or
  above the stack pointer.

`app/main.rs` is the command-line driver: it takes the program as its only argument and
prints the assembly.
