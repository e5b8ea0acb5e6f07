# mkt_blanket

Course coverage for Mario Kart Tour: which drivers, karts and gliders are
favored on which courses, what the player owns, and which courses that
covers.

- `src/` is the verified library: item and course ids, the database and
  inventory with their merge rules, the readers of the wiki pages (the
  HTML node list in `html`, the summary, Mii, item list and coverage pages
  in `wiki`, the wiki markup of the coverage in `wikitext`), the coverage
  sheet read from its CSV text, coverage statistics, the item editor's
  requests, the list views, the MKTHub export, and the decisions of the
  screenshot importer (item grid search, point digits, hash distances,
  recognition results, deduction of unrecognized items, bootstrap of item
  hashes). The properties that hold across functions are proof functions:
  most in `src/laws.rs`, those of the deduction and the import beside
  them.
- `app/` is the command line around it: fetching the wiki pages, reading
  the sheet file, JSON files and screenshots, and the pixel work (colour
  masks, template scores, perceptual hashes).
- `tests/` runs the library on concrete values.
