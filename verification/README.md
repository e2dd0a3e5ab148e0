# home127

The core of a menu-bar dashboard for local development servers, written in
Verus and verified.

- `src/` is the verified library:
  - `text`: whitespace, trimming, lines, words, substring tests, decimal
    numbers, character-exact against their specifications;
  - `ports`: the development ports named by an `lsof` listing;
  - `process`: process ids, working directories, parents and command lines
    from the output of `lsof` and `ps`, and the choice of the command line to
    show for a renamed child process;
  - `procargs`: the command line in a process's kernel argument area;
  - `page`: the entry for a local web server from its HTML page (the page is
    parsed with `scraper`);
  - `server`: the server entry, the merge of a scan into the saved list, and
    renaming;
  - `commands`: greeting, `kill` arguments and outcome, menu actions;
  - `laws`: properties across calls (a rescan is stable, labels survive scans,
    numbers read back, ...).
- `app/` runs the tools, talks HTTP, stores the list as JSON and starts and
  stops servers; it hands plain values to the library.
- `tests/` runs the library on concrete inputs.
