# krappebot

A bot that counts **krappe** (hangovers) for a friend group across IRC and
Telegram, with yearly and all-time leaderboards, written in Verus: the
library under `src/` is verified, `app/` is the program around it.

## Layout

```
src/
  lib.rs           module list
  text.rs          characters of strings: whitespace, words, case, order, numbers as text
  num.rs           decimal numbers read as `str::parse` reads them
  clock.rs         the current UTC time (chrono)
  tally.rs         counting keys and ranking them
  db.rs            the event store: krappe events, Telegram links, nick merges, queries
  shared.rs        nick canonicalization, phrase lists, argument parsing, reply texts
  irc_bot.rs       what an IRC channel message does to the store and the channel
  telegram_bot.rs  what a Telegram command does to the store and the chat
  config.rs        configuration from environment variables
  import.rs        rebuilding IRC history from the yearly archive and a channel log
  laws.rs          properties that span several operations
app/
  main.rs          runtime: load config, open the database, run both bots
  persist.rs       the SQLite copy of the store
  irc.rs           IRC client loop (irc crate)
  telegram.rs      Telegram dispatcher (teloxide)
  import_cmd.rs    `krappebot import [log] [history]`
tests/             tests of the library
```

Each function in `src/` states what it does in `requires`/`ensures` over
mathematical models (`Seq`, `Map`, `Set`), and Verus checks the code against
those statements. Calls into chrono, rand and two std string functions go
through small trusted wrappers whose contracts say only what their sources
promise.
