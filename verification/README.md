# kipclip

Logic of `kip`, a command-line client for AT Protocol bookmarks (the
`community.lexicon.bookmarks.bookmark` collection with `com.kipclip.annotation`
sidecars), written in Verus with its behaviour stated in contracts and proved.

Layout:

- `src/` — the verified library:
  - `text` — character-level string helpers, white space and control classes, code point order;
  - `refs` — record keys of AT URIs and resolution of short key prefixes;
  - `types` — bookmark, annotation and session record types;
  - `urls` — parsed URLs (parsing and joining by the `url` crate) and HTTP(S) validation;
  - `callback` — the OAuth loopback callback URL of the headless login;
  - `enrich` — page metadata from HTML (regular expressions from `regex-lite`), text sanitizing, link resolution;
  - `bookmarks` — listing filters, tag merging and removal, tag counts;
  - `records` — joining bookmarks with annotations, new records, paging;
  - `display` — column widths and cells cut to display width (`unicode-width`), detail lines;
  - `config` — file locations in the configuration directory.
- `tests/` — tests of the library.
- `app/` — the `kip` program: argument parsing, OAuth and PDS calls, HTTP fetches, terminal output.
