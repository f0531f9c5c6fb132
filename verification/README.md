# arrow-kanban

A kanban board kept in Arrow tables, with a library whose behaviour is stated in
contracts and proved by Verus.

## The library (`src/`)

- Vocabulary and rules: `ontology`, `turtle`, `relation_vocab`, `item_type`, `config`,
  `state_machine`, `state_model`, `edges`, `moves`, `validate`, `ratification`. What is
  read from declarations of a known shape is proved in `reading` and `declarations`.
- Order of work: `graph`, `critical_path`, `roadmap`, `worklist`, `blocked`,
  `traversal`, `materialize`.
- Flow of work and search: `flow`, `flow_render`, `embedding`, `semantic`.
- Tables and files: `columns`, `items`, `relations`, `persist`, `parquet_store`.
- Commands: `request`, `response`, `dispatch`, `export_pages`, `listing`, `reports`,
  `render`, `setup`.
- Shared parts: `text`, `keyed`, `sorting`, `tally`.

What holds of the library as a whole is stated by the public proof functions whose
names start with `law_`; those on the order of work stand in `critical_path_laws` and
`roadmap_laws`, those on the ontology's text in `ontology_laws`, the others beside the
functions they speak of. A change to the ontology's text changes the text that
`ontology_laws` quotes.

Calls into other crates stand behind small functions marked
`#[verifier::external_body]`. Above each stands what is taken for granted of the call.
Most are in `columns`, which reads and builds Arrow tables.

## The program (`app/`)

The command line, the files of a board, the connection to a server and the models that
compute embeddings. It reads and writes; what it decides, it asks the library.

## Tests (`tests/`)

The tests use the library from outside, with the other crates linked.
