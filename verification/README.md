# trod

A persistent directory history with an interactive picker, written in Verus.

- `src/` is the verified library: the history model, its rows and visit
  records, and its queries (`history`, ordered by `ranking`), the picker state machine (`picker`),
  the text the tool prints (`render`, `text`, `time`), the command-line
  model (`cli`), and laws relating the operations (`laws` on the rows,
  `ledger` on the visit records).
- `app/` is the program around it: argument parsing with clap, the SQLite
  store, and the terminal user interface.
- `tests/` exercises the library.
