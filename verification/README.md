# terrier

Navigation through the call graph of a Rust project, with the help of a language
server: choose a function, see who calls it and whom it calls, and go there by
typing a short chord.

The library under `src/` holds the rules, each with its contract proved by Verus:

- `chords`: chords cut out of de Bruijn cycles. They run through all words of their
  length, and as long as there are no more chords than such words, no two are alike.
- `indexing`: the functions of a project as a language server reports them, who
  calls whom as far as it is known, and the progress of the server.
- `ui`: the call graph and its exploration, the navigation stack, the overview of a
  function, and the menu whose entries are chosen by their chords.
- `paint`, `cells`, `table`, `compact`, `text`: colored text, the text that fits into
  tables, tables, short strings and plain text.

What the library takes from other crates without proof stands in `paint`, `table`,
`compact` and `indexing::uri`, each with what is claimed of it.

The program under `app/` talks to the language server and to the terminal.
