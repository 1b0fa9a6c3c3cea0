# git-vector-grep

Semantic code search over a git repository. Tracked text files are cut into
chunks, the chunks are embedded locally, and the vectors are kept in git itself, as
notes on the blobs they belong to. A search ranks chunks by the meaning of the
query, and reports the paths that hold them now.

## Layout

- `src/` is the library, verified with Verus: the chunker, the payload format, the
  notes layout and the stream that commits it, what is to be embedded and in which
  groups, the ranking of chunks, and the rules that choose models, backends and
  the number of sessions. It does no I/O. What git, the file system or a model
  answered is handed in, and what they are to be asked is handed back.
- `app/` is the program around it: arguments, git, files, and the models
  themselves. Vectors cross into the library as the bits of their numbers, since
  arithmetic on floating-point numbers is not verified.
- `tests/` runs the library on given values.

## What is proved

The contract of a function says what it returns. Beyond that, functions whose
names begin with `law_` state what holds of several functions together, for
instance that a payload reads back as it was packed (`payload.rs`), that a commit
keeps and writes the notes that it should (`store.rs`), that a run leaves the notes
that it finds as they are and that a second one over an unchanged work tree embeds
nothing (`run.rs`), that no group is larger than its bound (`groups.rs`), and that
no row that a search leaves out beats one that it selects (`search.rs`).

Calls into other crates stand in small functions whose contracts are believed; each
says which function it calls and what it claims of it.
