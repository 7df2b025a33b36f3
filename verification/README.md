# propositional_logic_calculator

A propositional logic calculator, verified with Verus. Formulas over named
variables are parsed (`!`, `&`, `^`, `|`, `>`, `<`, `<>`, parentheses;
`_`, space and newline are skipped; names are case-insensitive), turned
into conjunctive normal form, collected into a knowledge base of clauses and
simplified (tautologies, repeated clauses and supersets removed, unit
clauses propagated).

Layout:

- `src/variable.rs` – variables.
- `src/expression.rs` – formula trees, their meaning, the rewriting to
  conjunctive normal form and its laws.
- `src/names.rs` – the table of variable names.
- `src/parser.rs` – tokenizer and operator-precedence parser, with the
  grammar as spec functions.
- `src/knowledge_base.rs` – literals, clauses, knowledge bases, the reading
  of clauses off a formula, simplification and display.
- `src/simplify.rs` – the specification of simplification and its laws.
- `src/workspace.rs` – a session of formulas and their knowledge base.
- `app/main.rs` – the command-line program: reads formulas line by line
  until one fails to parse, then prints the simplified knowledge base.
