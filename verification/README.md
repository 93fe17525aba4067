# gshell

A small interactive shell. It supports commands with arguments and the
operators `;`, `&`, `&&`, `||`, `|`, `<` and `>`, quoted strings and
parenthesised groups, and the built-ins `cd` and `exit`.

- `src/` is the verified library:
  - `enums.rs`: operators and tokens, and their models;
  - `lexer.rs`: a line to tokens (`tokenize`), with the spec `lex` and the
    proof that tokenizing loses nothing but whitespace;
  - `parser.rs`: tokens to a command tree (`make_ast`), with the spec `parse`
    and the precedence laws;
  - `ast.rs`: the command tree, and the evaluator as a machine that asks for
    one outside action at a time (run a command, fork, wait...), with the
    proof that it follows the recursive evaluation of the tree `eval_tree`;
  - `text.rs`: the Unicode whitespace test, `String::push`, and string comparison.
- `app/` is the program: the prompt (rustyline), and `eval_ast`, which carries
  out the actions the evaluator asks for with `std::process` and nix.
- `tests/` run the library on concrete lines.
