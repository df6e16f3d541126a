# mbx_cache

What a compiler cache has to know about the files a compilation read: which they were, what they
held, and whether they still hold it.

The library under `src/` is verified with Verus. It makes every decision and touches no disk: where
a decision rests on what a file, a directory, or an agent says, the library says what it needs and
takes in what was found. The crate under `app/` does the looking.

| Modules | What they decide |
| --- | --- |
| `depfile`, `depfile_laws`, `json` | reading and writing dependency lists |
| `path`, `path_map`, `order` | paths by their components, and maps, sets and sorting over them |
| `digest`, `scan`, `content`, `directives` | digesting and searching what arrives in pieces |
| `identity`, `observation`, `ledger` | what identifies a file, and what it held when it was observed |
| `capture`, `capture_laws` | observing files without accepting one that changes meanwhile |
| `coverage`, `manifest`, `manifest_walk`, `manifest_memo`, `manifest_run`, `manifest_laws`, `snapshot_laws` | manifests of the names in include directories |
| `inputs`, `input_laws` | the inputs of a compilation, and checking them again before publication |
| `diagnostics` | diagnostics of a process whose stderr belongs to a compiler |
| `error`, `text`, `views` | failures, text, and how values are viewed in contracts |

The modules whose names end in `_laws` hold what is true of several functions together.
