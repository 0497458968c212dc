# whilex

A tree-walk interpreter for a small language made only of while loops,
assignments of unnested `+`/`-` expressions over arbitrarily large natural
numbers, blocks, and parameterless procedures in one global scope.

The library under `src/` carries its specifications and proofs:

- `natural`: natural numbers of any size; the arithmetic is done by
  `num_bigint`, and each call states what it computes.
- `lexer`: source text to tokens; `lex` states the tokens of a source,
  `lex_errors` the errors recorded lexing it, and `lex_items` the stream of
  both, in the order of the source, that the parser reads.
- `grammar`: the syntax tree and what each node stands for.
- `parser`: recursive descent with error recovery; `parse_declarations`
  states the declarations read and the errors recorded.
- `environment`: variables and procedures of the global scope.
- `interpreter`: `exec_stmt` states what a statement does within a number of
  steps; the interpreter follows it.
- `error`: the errors of every stage and their messages.
- `lib.rs`: the command line (`Config::build`) and the whole pipeline
  (`execute`, stated by `read_program` and `run_program`).

`app/main.rs` reads the file named on the command line, runs it, and prints
the errors and the final value of `x0`.
