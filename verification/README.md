# LinkCutter

A command-line tool that shortens URLs while scanning them for signs of
phishing, with its logic written and proved in Verus.

- `src/` is the verified library. `scanner` holds the seven heuristics and the
  risk verdict, `shortener` the short codes, the store of mappings and the
  timestamps, `report` the texts shown to the user and the menu's decisions,
  `text` the character-level helpers. Every public function states what it
  returns in its contract; the laws (risk from score, normalization being
  idempotent, a saved mapping resolving to itself, a timestamp naming one
  instant and sorting as the instants do, ...) are proof functions beside the
  code they speak of.
- `app/` is the command-line front end: argument parsing, the interactive
  menu, reading the blocklist file and reading and writing the JSON store.
- `tests/` runs the library on concrete inputs.

The URL parser (`url`), the Levenshtein distance (`strsim`), the random
number generator (`rand`), lowercasing and the system clock are called
through small trusted functions whose contracts say what their documentation
states.
