# train_tickets

A Telegram bot that watches the Minsk–Orsha timetable of the Belarusian
railway for free seats.

- `src/` is the verified library:
  - `text` — trimming, joining, splitting, decimal `u8` parsing and string order;
  - `train` — tickets, trains and the map of trains keyed by number;
  - `html` — documents, selectors and elements of `scraper`, each element
    reached by a path of steps from its document;
  - `timetable` — the train table of the timetable page, read with `scraper`,
    and the map of trains its rows describe;
  - `user` — users, their dialogue page and the rows they are stored as;
  - `bot` — the keyboard of trains, answers to messages, the offset through
    the update stream and the alerts to waiting users.
- `app/` is the program: HTTP, SQLite, Telegram and the update loop.
- `tests/` runs the library on concrete values.
