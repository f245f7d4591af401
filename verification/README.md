# dtr — a verified template renderer

Renders template text with function calls (`~fn:name(args)`), file includes
(`~include:path`) and variables (`$name`, inside function arguments); the
prefixes and name patterns are configurable through `CompilerSyntax`.

The library in `src/` is verified with Verus. Rendering itself does no I/O
and calls no user code: `TextCompiler::compile` and `compile_with_file` take
the answers given so far and end with the rendered text, an error (in debug
mode), a fault, or a request: resolve an include path, read a file, or call
a registered function. The caller does that work, adds the answer (a
failed call is answered as such) and runs again. `laws.rs` proves, among other things, that answers added after a run
that asked for nothing more change nothing.

Layout of `src/`:

- `text.rs`, `value.rs`, `number.rs`: characters, decimal text, and the
  values that arguments and function results take, with how they print
  (numbers by the value their text stands for).
- `syntax.rs`, `pattern.rs`: the syntax and its regular expressions (built
  and run with the `regex` crate).
- `splitter.rs`, `literal.rs`, `arguments.rs`: reading call arguments.
- `compiler.rs`: the renderer's state and its errors.
- `render.rs`: the model of rendering; `engine.rs`: the code that follows it.
- `names.rs`: names of functions registered from a module.
- `laws.rs`: properties of rendering and of the state across calls.

`app/` holds the Python module (PyO3): it registers Python callables, reads
files, resolves paths and runs the request loop.
