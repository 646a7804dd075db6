# liakos

A tree-walking interpreter for a small Monkey-style language (`let`, `fn`,
closures, `if`/`else`, `return`, integers, booleans, strings, arrays, hashes and
the built-ins `len`, `first`, `last`, `rest`, `push`, `print`), written in Verus
and verified.

## Layout

| Path | What it holds |
|---|---|
| `src/token.rs` | token kinds, keyword lookup, the names used in messages |
| `src/text.rs` | decimal text of integers and its parsing |
| `src/lexer.rs` | source bytes to tokens; `next_token_spec` says what each call gives |
| `src/ast.rs` | syntax tree, its mathematical view (`SExpr`, `SStmt`) and its source text |
| `src/parser.rs` | Pratt parser; one spec function per parsing method, and a measure that proves termination |
| `src/object.rs` | runtime values, hash keys, `inspect` |
| `src/environment.rs` | scopes as a list of frames indexed by `EnvRef`, plus the output of `print` |
| `src/builtins.rs` | the built-in functions |
| `src/evaluator.rs` | the evaluator, specified by fuel-indexed spec functions |
| `src/repl.rs` | what the REPL answers to one line |
| `src/runner.rs` | what running a whole file prints |
| `app/main.rs` | the command: terminal and file I/O around `repl` and `runner` |

## What is proved

Every public function states its result exactly in terms of the spec
functions above. Beyond that, the library proves:

- the lexer never moves backwards, and at the end of input keeps giving `Eof`;
- the parser terminates on every input and never drops an error it has reported;
- in an environment, a lookup after a binding gives the bound value, other names
  keep their meaning, and a new scope sees its enclosing one;
- evaluation is deterministic (more fuel never changes a finished evaluation)
  and never removes a scope or an output line; `let n = e; n` gives the
  value of `e`;
- every value the evaluator produces is well-formed (`value_wf`: no hash in it
  holds a key twice), and indexing a hash gives the value last stored;
- operands and list elements are evaluated left to right and the first error
  is the result; a condition other than `false` and `null` picks the
  consequence; `let` binds in the current scope and gives `null`; `return`
  wraps its value; a block stops at a `return` (kept wrapped) or an error, a
  program at its first `return` (unwrapped) or error;
- a call runs in a new scope enclosed by the scope the function was made in:
  parameters are bound to arguments (the shorter list decides), every other
  name means what it means there, and no existing scope changes;
- a hash literal stores its entries in order, and a later duplicate key wins;
- the REPL shows the value of each line, `null` included, except that a line
  ending in a `let` that gives `null` shows nothing;
- `print` is the only built-in that touches the environment, and `push`
  agrees with `len`, `first`, `last` and `rest`.

Evaluation that does not finish (unbounded recursion) or that overflows
an `i64` is outside the contracts of the evaluating functions.

## Representation choices

Hashes (`Object::Hash`) and the bindings of a scope are kept as lists of
entries in insertion order, not as `HashMap`s. The `HashMap` forms were not
tried: their keys would be a library enum with derived `Eq`/`Hash`, or a
`String`, and for such keys Verus can prove next to nothing about a `HashMap`.
A list makes lookup and replacement provable; `value_wf` states as an invariant
what a map would guarantee, that no key occurs twice. One visible consequence: a
hash is shown with its entries in insertion order. Scopes live in one list
indexed by `EnvRef` because Verus does not support `Rc<RefCell<…>>`.
