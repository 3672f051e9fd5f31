# mq-mount

Mounts Markdown files as a file system. Headings become directories, the body of each section
becomes a `content.md`, and front matter becomes `_frontmatter.yaml` or `_frontmatter.toml`. What is
written there is put back into the Markdown file.

```
a.md, b.md             ->  /a/...  and  /b/...
docs/guide/a.md        ->  /docs/guide/a/...
# Title (in a.md)      ->  /a/Title/content.md
## Sub A               ->  /a/Title/Sub A/content.md
## Sub A               ->  /a/Title/Sub A-2/content.md
```

The library under `src/` is written in [Verus](https://github.com/verus-lang/verus): every function
carries a contract, and the contracts are proved. The program under `app/` does the input and output
around it: it reads and writes files, watches directories, and serves the mount over NFSv3 or WinFSP.

## The library

| Modules | What they hold |
| --- | --- |
| `block`, `document`, `section`, `reflow` | Blocks of a document, the directory tree, and edits |
| `names`, `text`, `bytes`, `paths` | Directory names, texts, file contents, names on disk |
| `inode`, `supers`, `mount`, `tables` | Inode numbers, the directories above the files, mounted files |
| `vfs`, `state`, `fs` | Requests to a mount: as mathematics in `state`, as code in `fs` |
| `query_filter`, `cli`, `watch`, `daemon`, `nfs`, `winfsp` | What the program decides and reports |
| `outline`, `shifting`, `grafting`, `editing`, `writing`, `naming` | Laws of documents |
| `numbering`, `uniqueness`, `visibility`, `listing`, `places`, `parents` | Laws of mounts |
| `making`, `renaming`, `reading`, `guarantees`, `histories` | Laws of requests |

A request that changes a document does not write to disk itself. It returns a `Step`: either the
answer, or the file that has to be saved before the request goes on. `MqFs::plan_save` decides whether
to write, and refuses where the file on disk is newer than what was read; `MqFs::record_saved` and
`MqFs::resume` take it from there.

Markdown is parsed and rendered by `mq-markdown`, queries are run by `mq-lang`, and patterns are
matched by `glob`. What these return has a name in the contracts (`parsed`, `rendered`,
`glob_matches`, `query_error`, `query_values`) where it depends on the arguments alone. A filter is a
query about a heading: selectors, texts, numbers, comparisons, logical operators and functions that go
by their arguments alone and always come to an end. `query_filter::may_run` says which those are;
other queries are refused when the mount is made.
