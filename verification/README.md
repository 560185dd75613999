# bl

A Kanban backlog for agents: cards, typed notes, links between cards, projects that share
one store, and an audit trail. The rules live in a library whose every function is verified
with Verus; the program around it reads and writes a SQLite file, the terminal and a page.

## Layout

- `src/`: the library. A store is a `Backlog` (`backlog.rs`): projects, cards, links and
  events as plain values. Each command is a method that says in its contract what the store
  is afterwards, or why the command is refused and what it is then.
  - `card`, `status`, `notes`, `events`, `links`, `project`: the parts of a store.
  - `lifecycle`, `edit`, `filing`, `jot`, `relate`, `registry`, `sweep`, `import`: what
    commands do to it.
  - `select`, `condition`, `tags`, `fold`, `order`, `tally`: which cards, in which order.
  - `store`, `path`, `schema`, `duration`, `commits`: where a command works and what it was given.
  - `print`, `paint`, `layout`, `board`, `fit`, `tint`, `view`, `serve`, `prompt`, `refusal`:
    what is shown.
  - `text`, `number`: text as a sequence of characters.
- `tests/`: the library from outside.
- `app/`: the program `bl`: arguments, the database file, git, the terminal, the local
  server.

## What is proved

Every executable function of `src/` has a contract. What holds across functions stands as a
`law_…` proof function beside them, for example:

- a claim excludes every other claim, and a release undoes it;
- blocking links never form a cycle, and a card is offered again once the last thing it
  waits on is done;
- the history only grows, and outlives the card;
- the notes' mirror agrees with their rows, however many lines a note takes, and lines
  appended to it are adopted;
- a second import of the same file adds nothing, and a dry run counts what the import does;
- a second `bl init` changes nothing;
- old labels are split into tags once, and never again;
- without its escape sequences the painted board is the plain one;
- a request to the server can pick only a database it was started with.

Three outside functions are taken on trust, each with its contract beside it:
`String::push`, `str::to_lowercase` and `serde_json::to_string` on a text.
