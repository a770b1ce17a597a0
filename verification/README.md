# aether

The text-editing core of the Aether editor, written in Verus.

- `src/simd_utils.rs`: newline counting, byte search, blank skipping, prefix
  tests and byte classification on 64-bit words, proved equal to their
  byte-by-byte meaning.
- `src/lexer.rs`: the line lexer; its tokens tile each line.
- `src/incremental_lexer.rs`: the per-line token cache and its update after an
  edit, proved to agree with lexing the whole buffer again; the per-file
  manager.
- `src/render_prep.rs`: chunking of lines for worker threads and assembly of
  their results, proved to agree with lexing on one thread; the render cache.
- `src/git.rs`: `HEAD` and `git status --porcelain` parsing.
- `src/remote_fs.rs`, `src/ssh.rs`: the remote file-system interface and the
  SSH backend.
- `app/`: threads, file system, `git` process and Direct2D/DirectWrite caches.
