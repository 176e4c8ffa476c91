# backpack_wiki

Tools for the Backpack Hero wiki, as a verified library and a thin program.

- `src/text.rs`: character-sequence text operations (trim, search,
  replace, join, decimal numerals, UTF-8 byte offsets) with their
  specifications, and the std calls they rest on.
- `src/backpack_db.rs`: the item database: display names, description
  links between items, and the infobox fields of an item page.
- `src/wikiparse.rs`: writing infoboxes and new pages, and updating the
  infobox of an existing page from its parse by `parse_wiki_text`.
- `src/botto.rs`: the decisions of the editing bot (fields of a page, when
  to ask, what an answer or a wiki reply means).
- `src/version.rs`: comparing data versions ("v0.13.1") with
  `version_compare`.
- `src/navbox.rs`: the item navigation box: categories, rarities, rows of
  sorted item links.
- `app/`: the command line, file and network I/O (data dump loading,
  MediaWiki API, prompts, writing `out/navbox.txt`).
