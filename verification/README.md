# dom2figma

Captures the rendered DOM of a web prototype with headless Chrome and turns it
into editable Figma layers.

- `src/` is the verified library (Verus): configuration rules (`config`),
  route slugs, screen hashes and capture counts (`output`), the decisions of a
  capture — group and route selection, de-duplication of screens, the scripts
  run in the page (`capture`), the in-page serializer and the Figma plugin with
  its Scripter variant (`assets`), the environment report (`doctor`) and the
  request rules of the local JSON server (`serve`).
- `app/` is the command-line program around it: argument parsing, TOML and JSON
  files, Chrome, the HTTP server, font and Chrome probes.
- `tests/` exercises the library on concrete values.
