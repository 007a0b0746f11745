# rompiler

A compiler for a small C-like language (functions, `var`/`const` declarations,
integer and floating-point arithmetic, pointers, fixed-size arrays, calls and a
`syscall` builtin) to textual LLVM IR.

The library is verified with Verus:

- `src/lexer.rs` turns source text into tokens; its model `spec_next` gives the
  next token and position of a text, and `lex_all` the whole token stream.
- `src/parser.rs` is a recursive-descent parser whose behaviour on a token
  stream is stated by the spec functions `p_expr`, `p_stmt`, `p_function` and
  `p_program`, including the inputs on which parsing gives up.
- `src/ast.rs` holds the syntax tree and its mathematical model.
- `src/codegen.rs` lowers a program to a plan of LLVM instructions to build
  (`compile_program`, specified by `l_program`), and decides every error
  that stops compilation: undeclared names, writes to constants, a literal of
  the wrong kind, and an operand that is not an integer, a floating-point
  value or a pointer where one is needed. Pointers are opaque (`ptr`).

`app/main.rs` is the command-line program: `rompiler -i <input> -o <output>`
(the output defaults to `output.ll`). It reads the file, runs the library, and
builds each planned instruction with `inkwell`. LLVM 14 has typed pointers, so
the program holds every pointer as `i8*` and casts it to the type a load,
store or element pointer needs just before that instruction.
