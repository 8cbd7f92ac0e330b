# acd

An expression language whose programs live in files (`<name>.acd.json`) and
call each other, with an evaluator whose semantics is stated and proved in
Verus.

- `src/ast.rs`: the programs: operators, expressions, files.
- `src/common.rs`: identifiers, errors, and the `Share` and `HasId` traits.
- `src/file.rs`: file texts, the in-memory file system `MockFs` (each file can
  be read once), the `Fs` trait and the disk file system's name.
- `src/cache.rs`: a grow-only cache (`scc::HashMap` for lookup,
  `AppendOnlyVec` for the values).
- `src/engine.rs`: `Core`, a file system behind caches, so that every file is
  read at most once, and every text is parsed at most once for each name it
  was read under.
- `src/exec.rs`: the semantics (`eval_expr`, `run`, `outcome`, `reads`), the
  evaluator that meets it, with cycle detection, `file_to_read` for reading
  files on demand, and the laws of evaluation.
- `src/finish.rs`: why evaluation always finishes on a file system from which
  nothing has been read yet (`law_unread_finishes`).
- `app/`: the command line, the JSON form of programs (serde), reading from
  disk (tokio) and the asynchronous lazy cell.
