# bfopt

A small optimizing compiler from brainfuck to C, written in Verus.

The library (`src/`) holds the compiler's logic, each function with a
contract that Verus proves:

- `parse` lexes a program into tokens, merging runs of a command into one
  counted token, and refuses unbalanced brackets;
  `remove_frontmatter_tokens` drops the loops that come before the first
  cell write (they can never run on the blank tape).
- `opt` builds the tree-shaped intermediate representation (`construct_ir`),
  drops its leading loops (`opt_remove_frontmatter`), replaces
  multiplication loops (`opt_mul_loops`) and prints the body of the C
  program (`write_ir_body_to_c`).
- `lower` is the first backend: tokens straight to C, one at a time.
- `anal` converts tokens into a simpler tree for cell analysis.
- `patch_iter` is a cursor over a vector that can replace the element it
  just handed out.
- `fits` checks, before each pass, that it stays within the `i32` range
  (exactly the inputs on which the pass's arithmetic would overflow are
  refused).
- `pipeline` runs the passes one after the other, and gives a simple size
  bound under which every pass stays in range.
- `c_text` models the emitted C statements and their text.
- `semantics` models what the representation and the tokens do on an
  unbounded tape, and proves that building the representation keeps the
  behaviour of the tokens, that dropping the leading loops (of the tokens
  or of the representation) keeps the behaviour from a blank tape, and
  when a multiplication loop and its replacement agree.

`app/` is the program around it: it reads `snippets/hello_world.bf`, writes
`out.c` from `boilerplate.c`, and formats, compiles and runs it with
clang-format and clang.
