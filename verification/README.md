# textfold

A terminal text editor, with its logic in a verified library.

`src/` is the library. Everything the editor decides stands there, apart from
the terminal, the disk and the programs it talks to: each function says in its
contract what it returns and what it changes, and Verus proves it.

`app/` is the program around the library: arguments, files, processes, the
screen. It hands the library plain values and does what the library answers.

`tests/` runs the library on examples.

## The library

| What | Where |
| --- | --- |
| Text: ropes, lines, columns, selections, changes and what takes them back | `rope`, `text`, `change`, `chars`, `strings`, `split`, `numbers`, `order`, `rank` |
| Documents: history, breakpoints, colours, the file on disk | `doc`, `indent`, `files`, `path` |
| Editing: what a command does at every cursor | `pane`, `edit`, `lines`, `blocks`, `restore`, `shuffle`, `select` |
| Comparing: aligning texts, marks against a commit, two panes | `align`, `git`, `diff` |
| Keys, commands, menus and lists to choose from | `keys`, `scheme`, `bindings`, `cmd`, `menu`, `picker`, `cli` |
| Languages and the placeholders in what is run for them | `lang`, `vars`, `jdk`, `source` |
| Language servers | `json`, `rpc`, `uri`, `lsp`, `client`, `servers`, `telling`, `diagnose`, `actions` |
| Debuggers | `launch`, `attach`, `dap` |
| Plugins' own programs | `host` |
| Packages: what there is, what would be done, doing it | `pack`, `offers`, `plan`, `course` |
| The log | `log` |

A law that relates several functions is a proof function whose name begins with
`law_`. Calls into `ropey`, `nucleo-matcher`, `serde_json` and the parts of the
standard library that have no specification stand behind small functions that
say what is taken on trust.

Paths are Unix paths, held as text. Where Java is looked for, and where the
editor installs programs, Windows ones are written and read as well. Times are
numbers that the program hands in. What is to be sent to another process is a
list that the program empties.
