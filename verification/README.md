# csrd

Reads the sections of the Cypher System Reference Document, copied into plain
text files, into one database of types, flavors, descriptors, foci, abilities,
cyphers and their tables, artifacts, creatures, equipment and random tables,
and prints it as JSON.

- `src/` is the library, verified with Verus. Each reader takes the text of a
  file and returns its records; its contract states them exactly, over the
  matches of the regular expressions (`regex`) and the transliteration of the
  text (`unidecode`), whose results are named in `pattern.rs` and
  `translit.rs`. Laws of the library (records in order of name, the abilities
  kept as a map by upper-case name with references as ordered sets, readings
  that only add references or tags, the equipment codex kept one entry per
  name) are proof functions beside the readers.
- `app/` reads the files, runs the readers, and writes the JSON with `serde`.
- `tests/` runs the readers on small texts.
