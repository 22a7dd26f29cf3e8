# grotsky

Grotsky is a small dynamically typed scripting language. A script is read by
a lexer and a recursive-descent parser into statements, compiled into
register-machine bytecode, and run by a virtual machine. The command line tool
can also save the bytecode of a script, and embed bytecode into a copy of its
own binary.

## Layout

- `src/` is the library, verified with Verus:
  - `token`, `state`, `expr`, `stmt`: tokens, the interpreter's error list
    and state, and the syntax tree;
  - `lexer`: the lexer, specified against a mathematical model of the bytes
    it reads;
  - `syntax`: what a well-formed syntax tree is;
  - `parser`: the parser, which consumes tokens and builds well-formed trees;
  - `instruction`: opcodes and the 16-bit operands of instructions;
  - `compiler`: the bytecode compiler, whose chunks send control only inside
    themselves and whose functions jump only onto their own instructions;
  - `pipeline`: from source text to statements and to the instructions the
    virtual machine starts with;
  - `embed`: the marker pattern, and embedding bytecode into a binary and
    finding it again;
  - `value`, `strings`, `operators`: slicing of texts and bytes, the
    `strings` module's text operations, and what the machine does with
    operands by their kinds;
  - `machine`: the control state of the virtual machine (position, frames of
    calls, handlers of `try` blocks) and its decisions on jumps, tests,
    calls, returns and thrown errors.
- `tests/` runs the library on concrete programs and values.
- `app/` is the command line tool: reading files, the serialized bytecode,
  the virtual machine's values and its native modules (numbers are floating
  point there; control goes through `machine`), and embedding into the
  running binary.
