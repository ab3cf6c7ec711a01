# docserver_core

The core of a local document server: it indexes HTML, Markdown and Mermaid
files under configured roots, finds them from a pasted path or part of a
name, and serves them over HTTP without letting a request leave its root.

- `src/` is the library, written in Verus and verified:
  - `search/query.rs`: query parsing (prefixes, quotes, `\`, URL decoding,
    pasted server URLs, NFKC + lowercase, mode choice, segments and tokens);
  - `search/path_guess.rs`: path guessing and its scoring rules;
  - `search/name_search.rs`: file-name search (exact, prefix, substring,
    AND, path, fuzzy through `fuzzy-matcher`);
  - `search/mod.rs`: the combined search: fallback, stable ranking, limit,
    and the confident single hit;
  - `index/`: index entries, the index (kept in root/path order, with a
    generation counter), which walked files are indexed, safe resolution of
    a relative path under a root (a segment that is not a plain name by the
    platform's rules is refused: `..` on Unix; on Windows also a root, a
    drive prefix or a leading `.` component), and which file events call for
    a rescan;
  - `config.rs`: settings, their defaults, validation and path resolution
    (joining by the platform's path rules, stated exactly for Unix);
  - `web.rs`: request-path and content-type rules of the HTTP front (MIME
    types through `mime_guess`);
  - `os_path.rs`: file paths as the OS gives them (`PathBuf`, possibly not
    UTF-8), read as bytes; the platform's path style (Unix or Windows),
    which `app/` chooses for the build target; joining paths, and the Unix
    rules for a path's components, its part under a root and its file name;
  - `sort.rs`, `text.rs`, `unicode.rs`: stable ordering, character-sequence
    helpers, and Unicode normalization through `unicode-normalization`.
- `app/` is the program around it: command line, settings file I/O (serde),
  directory walking (`ignore`), file watching (`notify`), and the HTTP server
  (`axum`).
- `tests/` runs the library on concrete inputs.
