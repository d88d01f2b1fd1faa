# noctalia global-menu bridge library

The logic of a bridge that reads the menu bar of the focused application (from AT-SPI or
from a `com.canonical.dbusmenu` exporter), turns it into one menu model with depth-first
ids and child-index paths, and routes clicks and submenu requests back to the right node.
Every function in `src/` is verified with Verus against the contract in its header.

- `src/protocol.rs`: the unified menu model and its mathematical view.
- `src/text.rs`: character-level helpers (trim, parse, ASCII case) stated over `Seq<char>`.
- `src/dbusmenu.rs`: dbusmenu property lookup, mnemonic stripping, conversion, path lookup.
- `src/atspi.rs`: AT-SPI conversion (with popup flattening), path lookup, frame choice,
  menu-bar search order, the action count and the step-by-step click-action choice.
- `src/proxy.rs`: focus information, menu events, top-level pruning, "open" replies.
- `src/registrar.rs`: AppMenu registrar bookkeeping (two indexes kept consistent by a type
  invariant) and the focus-matching steps.
- `src/niri.rs`: parsing of niri event-stream lines (JSON text through `serde_json`) and
  their decoding into events.
- `src/http.rs`: routing of the local command endpoint.

`app/` holds the program around the library: D-Bus, HTTP, process and file I/O, and the
serde forms of the library's types. `tests/` exercises the library on concrete values.
