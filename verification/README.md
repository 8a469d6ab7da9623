# shelv

The logic of the Shelv note-taking app, written in Verus and proved against
its contracts.

- `src/` is the verified library. Each module states what its functions
  return in `ensures` clauses over spec functions and views; the public
  `law_*` proof functions state properties that span several calls (for
  example that an in-order batch of edits lands each edit at its own span,
  that note file names read back as the notes they name, or that word-jump
  labels are distinct).
- `tests/` runs the library on concrete values.
- `app/` is a small command-line program around the library: it reads and
  writes note folders, reads the YAML front matter of update notes with
  `serde_yaml_ng`, and hands the library plain values.

Verify with Verus on `src/lib.rs`; build and test with Cargo as usual.
