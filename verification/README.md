# pager

A terminal pager that splits text into pages, with its logic verified by Verus.

The library under `src/` holds everything that decides or computes:

| Module | What it holds |
| --- | --- |
| `text` | slices, substring search, lines and white space |
| `content` | which lines of a text are not blank |
| `ansi` | stripping escape sequences, carrying text attributes over lines |
| `pattern` | regular expressions and the key they capture from a chunk |
| `pages` | cutting text at a delimiter, grouping chunks into pages |
| `screen` | the bytes that draw a page and its status bar |
| `viewer` | what the keys do |
| `keys`, `binds`, `config` | key names, commands bound to keys, the configuration |
| `pty` | reading a command's output from a pseudo-terminal |
| `options` | what the command line asks for |

Each public function states in its contract what it returns or changes. What holds
across functions is stated and proved as a proof function whose name starts with
`law_`: nothing is ever dropped, colors survive scrolling, binds go before built-in
keys, and so on.

What is believed without proof stands behind a few small functions, each with a
comment that says what is claimed: compiling and matching a regular expression
(`regex`), the control sequences that clear the screen and move the cursor
(`crossterm`), and decoding bytes as UTF-8 (`String::from_utf8_lossy`).

The program under `app/` reads the command line and the configuration file, runs
commands, and talks to the terminal.
