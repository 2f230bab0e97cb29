# minx

Searchable bookmarks. Typing words finds the bookmark (locator) stored under
keywords that begin with them; typing a URL followed by words stores the URL
under those words.

The library in `src/` is verified with Verus:

- `text`: character classes, lexicographic order, splitting and joining.
- `keywords`: the sorted, duplicate-free keyword sets of search terms.
- `command`: what a line of terms asks for (nothing, a search, an update).
- `ranking`: the rank of a stored locator for a search, and the stable sort by rank.
- `query`: the SQL that finds the locators matching every keyword.
- `dispatch`: a command carried out one database call at a time, with the
  laws of complete runs.
- `matches`: the list of matches shown while terms are typed.
- `web`: HTTP replies, credential checks, and live-channel messages.

`app/main.rs` is the web service around it (actix-web, SQLite through sqlx,
HTML through maud): it makes the database calls the library asks for and
renders what the library decides.
