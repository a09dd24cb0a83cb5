# OpenSDTS

The Open Software Defined Target System: a scenario of moving targets is
defined once, a core runs it, renderers draw the targets, impact adapters
report where shots land, the core scores them, and every SDTP envelope is
recorded so that a session can be replayed.

- `src/` — the library, verified with Verus: scenario validation, the engine
  (live sessions, scoring, durability, replay), SDTP envelopes, recordings,
  session ids, file-name rules, and the LightElf laser's frames and BLE
  transport rules. Binary64 values are carried by their bit pattern
  (`double::Double`) and only stored and compared there.
- `app/` — the program around it: the HTTP/WebSocket server, recording files,
  the JSON forms of the library's types, the browser build's wrapper, the
  LightElf command line and Bluetooth transport, and the binary64 arithmetic
  (where targets are, distances, shrinking) that the engine asks of its host.
- `tests/` — tests of the library.
