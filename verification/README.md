# contextor

A long-term memory store. Text is stored together with a pre-computed embedding
vector, and found again by similarity, by theme or by session. A parent process
drives it with one JSON command per line on stdin and reads one JSON answer per
line from stdout.

## Layout

- `src/` is the library, verified with Verus. It holds the rows of the three
  tables (entries, sessions, mementos) and the vector index, and all the rules:
  which entries are recalled, found, listed, pruned or replaced, and what is
  answered.
- `src/laws/` states what holds of the commands taken together: that what was
  stored is recalled, that the index holds what the entries hold once a command is
  carried out, that pruning twice is pruning once, and more.
- `app/` is the program around it: the JSON lines, the SQLite database, and the
  floating-point arithmetic.
- `tests/` runs the library.

## How a command is carried out

A command that changes something is planned first. The plan says which rows leave
and which come, and what happens to the index. The program writes the plan to the
database and reports how that went; then the plan is settled, and as much of it
takes effect in memory as was written.

Most plans are written as a whole or not at all. Pruning and the deletion of a
session are written part by part: if a part fails, the parts before it stay, the
index keeps what it held until it is rebuilt, and the command fails. And the
message that a session counts for a stored entry may stay unwritten without the
entry being refused.

A replacement concerns the entries of one theme in one session, or the global ones
of the theme; in other sessions the theme is recalled and found as before.

Numbers with a fraction are held by their bit patterns: components of vectors and
scores in single precision, times in double precision. The library compares them
as numbers and takes their whole parts; similarity itself is computed in `app/`.

## Commands

| Command | Description |
|---------|-------------|
| `store` | Store an entry with theme, content, vector and optional metadata |
| `recall` | Recall the most recent entries of a theme, oldest first |
| `search` | Find entries by similarity, with an optional theme and session |
| `list` | List the themes |
| `delete` | Delete all entries of a theme |
| `prune` | Remove entries beyond a maximal age or a maximal number |
| `replace_active` | Replace the active entry of a theme and archive the old one |
| `peek_memento` | Show what was archived, newest first |
| `reindex` | Rebuild the vector index |
| `create_session` | Create a chat session |
| `list_sessions` | List the sessions |
| `get_session` | Get a session |
| `update_session` | Change the title of a session, its rolling summary, or both |
| `delete_session` | Delete a session and its entries |
| `status` | Count entries, themes and vectors by dimension, and tell where the store lies |

`store` keeps the vectors to one dimension: it refuses an empty vector, and one
whose dimension is not that of the index, with an error that starts with
`dimension mismatch: `. `replace_active` takes any vector.

A search whose window holds more hits than SQLite takes in one query is refused.

Entries without a session are global. A search or a list for a session includes
them. Only global entries are pruned for their age; the maximal number holds for
each theme within each session, and among the global entries.
