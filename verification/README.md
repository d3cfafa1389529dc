# sesame

A gate in front of a family computer: a child earns time by passing a short
quiz; a budget per day, hours of play and a pause after a failed quiz bound
what can be earned; a kiosk shows the quiz before the desktop exists, and a
clock closes the session when the time is spent.

## Layout

- `src/` — the library, verified with Verus: the decision engine
  (`policy`), the quiz and its grading (`quiz`), the copying exercises on
  grids — reading, writing, drawing (`grid`, `preview`, `editor`) — the
  duplicates of the bank (`dedup`), the forms of the admin panel and of the
  child's pages (`admin`, `web`), the import rules (`importer`), passwords and
  sessions (`auth`), command lines (`cli`), the kiosk and the clock's
  decisions (`kiosk`, `timer`), and the text helpers they share (`text`,
  `sorted`).
- `tests/` — tests of the library on concrete values.
- `app/` — the program around it: the HTTP server (axum, askama, SQLite
  through sqlx), the kiosk and the clock, one binary under three names
  (`sesame`, `sesame-kiosk`, `sesame-timer`). It reads, stores, renders and
  sends, and hands the library's decisions plain values. What stays there
  besides the I/O: the quiz score and pass mark and the weighting of subjects,
  which are floating point; reading a typed answer as a number, for the same
  reason; and the few lines that sequence the database queries around the
  library's answers.
