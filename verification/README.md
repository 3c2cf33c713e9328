# tinylisp

A small Lisp interpreter — tokenizer, parser, eval–apply evaluator and a
mark-and-sweep garbage collector — verified with Verus.

- `src/` is the verified library:
  - `store.rs`: the arena of cells (a `slotmap::SlotMap`) and the small
    trusted wrappers around its methods;
  - `data.rs`: cells, the interpreter context, the evaluator, garbage
    collection and printing;
  - `prims.rs`: the primitives (`+`, `define`, `lambda`, `if`, ...);
  - `semantics.rs`: the mathematical model: heap snapshots and the
    evaluation relations that the code meets;
  - `tokenizer.rs`, `parser.rs`: reading text into cells;
  - `env.rs`: a name table; `line_editor.rs`: the console's line editor;
  - `text.rs`: building strings; `laws.rs`: properties that relate several
    operations.
- `app/` is a console that reads keystrokes from standard input, runs them
  through the line editor and evaluates each line.
- `tests/` exercises the library on concrete programs.
