# plainmark

The verified core of plainmark, a desktop notes app over a folder of plain
Markdown files (a "vault"). The library in `src/` is written in Verus: each
public function carries a `requires`/`ensures` contract that Verus proves.

- `text`: character-level helpers (trimming, searching, replacing, ordering).
- `markdown`: the Markdown structure of a note (headings, code ranges, task
  markers), folded from pulldown-cmark's event stream.
- `parse`: links, tasks, tags, due dates and frontmatter classification.
- `index`: the in-memory link index, link resolution, backlinks, the rewrite
  of inbound links on rename, and task toggling.
- `query`: the task-query language (parsing and running queries).
- `vault`: building the index (with the mtime/size cache) and keeping it in
  step with watcher events.
- `watcher`: normalizing and coalescing raw filesystem events.
- `fs_ops`, `tree`, `paths`: note bytes and line endings, attachments, images,
  the file tree, and vault scoping.
- `daily`: daily-note paths and bodies.
- `config`, `error`: the app config and the error type.

`app/` is the Tauri application around the library: the commands, the
filesystem and SQLite I/O, and the live watcher. `tests/` exercises the
library.
