# replique

A dialogue system whose parser, compiler and virtual machine are verified
with Verus. Dialogues are plain text:

```
:= start
Alice: Hi! How are you?
-> Good, thanks!
    Alice: Glad to hear it.
-> Not great.
    Alice: Oh no, what happened?
=> END
---
```

## Layout

- `src/parser/`: lines, expressions (lexer and Pratt parser), statements and
  nodes, and the diagnostics reported on the way, with their renderings
  (`styled.rs`: colors add escape sequences and nothing else).
- `src/dialogue.rs`: the compiled form of a file, the node builder and the
  compiler.
- `src/accepted.rs`: a file the parser reads without an error compiles.
- `src/vm.rs`: the walk of a dialogue, one step its caller carries out at a
  time.
- `src/runtime.rs`: names, ids and the errors of a run.
- `src/host.rs`: what the engine hosting a dialogue hands in.
- `src/file.rs`: a source parsed and compiled in one step.
- `src/completion.rs` and `src/document.rs`: completion items, and
  diagnostics placed the way an editor counts positions.
- `src/cli.rs`: what the command line tool decides.
- `app/`: the `replique` command line tool, and the evaluation of
  expressions (whose values may be floats) around the verified walk.
