# ccusage_adapters

Adapters that read the usage of coding agents.

- `timeline` and `quota` estimate what a week of Codex quota costs: they pick the
  rate limit samples that count, divide them into episodes between two resets, and
  decide which episodes tell enough to be published.
- `paths`, `files` and `identity` find the Hermes session databases: which homes are
  searched, what may be opened, and which paths lead to the same file.
- `connection` and `loader` open the databases, read their sessions and put them in
  order, each session once.
- `order`, `double`, `text` and `location` are what these need: stable sorting,
  comparing floating point numbers by their bits, small texts, and joining,
  comparing and taking apart paths.

The code under `src/` is verified with Verus. It rests on a few functions whose contracts
are taken on trust: five in `connection` that give constants of SQLite, and one in `loader`
that turns bytes into text. Arithmetic on floating point numbers, the file system and
SQLite are under `app/`, which is not verified: it hands plain values to the library and
acts on what the library decides.
