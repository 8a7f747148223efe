# worktree

The model behind a directory tree that an editor scans in the background and keeps up to date from
file system events. The library under `src/` is written in Verus: its functions carry contracts
that are proved, and it does no I/O. `app/` holds the threads, channels and file access around it.

| Module | What it holds |
| --- | --- |
| `path`, `path_laws` | Unix paths as byte strings: components, prefixes, joining, order |
| `entry`, `entry_tree` | what is known of a file or directory, and the entries by inode |
| `snapshot`, `lineage`, `tree_laws` | a picture of the tree; from paths to inodes and back |
| `scan`, `scan_laws` | what is made of directory listings, and what a scan keeps |
| `events`, `orphans` | how batches of events change a snapshot |
| `forest_laws`, `event_laws` | what a single event keeps |
| `batch`, `change`, `batch_steps`, `batch_laws` | what a whole batch comes to |
| `update_laws` | what the events, the listing of what is new and the taking out of orphans come to |
| `render` | the tree as indented text |
| `worktree`, `worktree_laws` | the worktree that the rest of an editor talks to |
| `scanner` | what the background scanner does next |

Paths are Unix paths, and names need not be text. The one thing taken on trust is what
`String::from_utf8_lossy` returns, in `render`.
