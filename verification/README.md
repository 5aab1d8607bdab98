# nizm

Git hooks that live in the manifests a project already has. `nizm` reads hook
definitions from `pyproject.toml`, `package.json`, `Cargo.toml` and `.nizm.toml`,
writes scripts under `.git/hooks` that call it, and runs the hooks at their stage
on the files that are staged.

The rules are in `src/`, written in Verus: every function there states what it
returns, and the statement is proved. What touches git, the terminal or the file
system is in `app/`, which asks the library what to do and does it.

| Module | What it is about |
| :--- | :--- |
| `text`, `path`, `shell` | the vocabulary: lines, words, numbers, paths, command lines |
| `document`, `toml`, `json` | manifests as trees, and the edits made to them |
| `pattern` | globs with brace alternation and exclusion |
| `config` | hooks, and how a manifest is read, strictly and leniently |
| `runner`, `run` | the command of a hook, and a run of hooks |
| `git`, `stash` | what git says, and how unstaged changes are kept safe |
| `installer`, `uninstaller` | the block in a hook script, and taking it out again |
| `knowledge`, `init`, `splice` | which hooks to suggest, and putting them into manifests |
| `doctor` | diagnosing a set-up |
| `style` | styled terminal text |

Functions whose names begin with `law_` state what holds of the library as a
whole, such as that installing twice changes nothing the second time.

Calls into other crates stand behind a few functions marked
`#[verifier::external_body]`. What is said there of `toml_edit`, `serde_json`,
`serde`, `indexmap`, `glob` and `anstyle` is taken on trust, and the comments above
them say what it is.
