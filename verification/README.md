# lunar

The LunarAST command line: it extracts the interface contracts of a
workspace, compares scans, merges AI-proposed contract patches into the
intent overlay (`interfaces.yml`), compiles the ecosystem topology map and
keeps the CI-144 bridge in step with its inputs.

## Layout

- `src/` is the library, verified with Verus: the route model and the
  comparison of scans (`route`, `changes`), the overlay merges
  (`interfaces`), the topology map (`topology`, `mapping`), patch framing,
  application and review (`patch`, `review`), pulling patches (`pull`), the
  consistency hashes of the bridge (`ci144`), the menus and prompts (`menu`,
  `prompt`), sharing (`share`), the health check's tally (`doctor`), the
  repository registry (`repos`), TOTP and key material (`totp`, `keygen`),
  archive retention (`cleanup`), and of the extraction adapter the choice
  of adapter, the framing of its output, the reading of its end markers and
  the acceptance of what it reports (`adapter`). Calls into outside crates
  stand behind small trusted functions whose contracts say what the crates
  document. Public `law_*` proof functions state the properties that hold
  across calls.
- `app/` is the executable around it: argument parsing, files, processes,
  network, terminal input, and the serde forms of the library's types, so
  the decoding of YAML and JSON documents (overlays, patches, route lines)
  into the library's types happens there.
- `tests/` runs the library on concrete values.
