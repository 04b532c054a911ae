# agent_illustrator

The verified core of Agent Illustrator, a declarative illustration language:
the document model, reference validation with suggestions, constraint
collection and its split into per-template and global parts, positional
conflict and cycle detection, keyframe visibility and transform states, the
lint rules that read the document, connection-routing options, parse-error
wording and the label markup parser. Every function in `src/` carries a
contract that Verus proves, except two small trusted wrappers whose contracts
are taken on trust: `push_char` (std's `String::push`) and `render_report`
(ariadne's report writer). Laws that relate several functions are public
proof functions beside them.

- `src/` — the library, verified with Verus. Numbers in the document are
  fixed-point (`Num`, thousandths).
- `tests/` — unit tests of the library.
- `app/` — unverified code around the library: the Cassowary solver adapter
  (kasuari, floating point), chumsky error conversion, error types with
  `std::error::Error` (thiserror), and colour luminance.
