# desktop_portal

A dock at the bottom of the Windows screen that shows what is on the desktop,
sorted into categories, without ever moving, renaming, copying or changing a
file: only the mapping from paths to categories is stored.

The library (`src/`) is verified with Verus:

- `config` — the configuration model: categories, items, recent entries,
  settings, the ignore list; path identity keys and derived ids; adding,
  renaming and removing user categories; the kind and display name of a path.
- `normalize` — the structural invariant (built-in categories present and
  first, ignore list deduplicated, recent list capped) and its laws.
- `sync` / `sync_laws` — merging a desktop snapshot into the configuration,
  and what every sync keeps (idempotence, no renames, manual items untouched,
  one item per path).
- `desktop` — which listed entries are desktop items, in which order; which
  desktop folders to scan.
- `commands` — the operations behind the user's actions, the desktop-icon
  ownership protocol, the edge wake-up.
- `desktop_icons`, `dock`, `hotkey` — the decisions behind the window calls.
- `icons` — native icon pixels to PNG data URLs.
- `order`, `text` — sort keys and character-level helpers.

`app/` is the program around it: the window, the file system, the Windows
API calls, and the serialized form of the configuration.
