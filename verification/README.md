# helix_ext

The logic of a text editor's access to git repositories and to ignore rules, verified with Verus.

- `src/globset`: globs, what they match, and sets of globs that are matched at once.
- `src/ignore`: ignore rules, file types, and the decisions of a walk through directories.
- `src/git`: object ids, loose and packed objects, references, trees and commits, configuration files,
  attributes, the conversion of contents for the worktree, and where a repository is.
- `src/ascii.rs`, `bytes.rs`, `components.rs`, `path.rs`, `text.rs`: bytes, text and paths.

The library reads no files. What is to be read is asked for, and what was read is handed in.
`app/` is the part that reads: it opens repositories and walks through directories with the decisions
that the library makes.

Calls into other crates stand behind functions with a trusted contract; each of them says what is
claimed of the crate. Proof functions whose names begin with `law_` state what holds of several
functions together.

Paths are byte strings as on Unix.
