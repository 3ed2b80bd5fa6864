# bodysnatcher

Resume any coding harness' session in any other harness.

Five harnesses keep their sessions as JSON lines, each with a schema of its own. The library reads
a session into one canonical model, converts it into the format of another harness, and compacts
it where it would not fit the context window of the model behind it. The program around it finds
sessions, shows them in a terminal, writes the converted copy, and starts the harness on it.

- `src/` is the library. Every function in it is verified with Verus; what it takes from
  `serde_json` and from std without a specification stands behind a small number of trusted items,
  each with a comment that says what is believed of it.
- `tests/` runs the library on concrete sessions.
- `app/` is the program: arguments, files, the clock, the terminal.

What is proved beyond the contracts of the functions:

- A written session, read again, gives back the messages that its format can carry
  (`roundtrip::lemma_roundtrip`), and those already in its format unchanged
  (`roundtrip::lemma_native_kept`).
- A written file splits into its records line by line, and its records form the chain that the
  harness rebuilds the conversation from (`roundtrip::lemma_whole_lines`,
  `chain::lemma_parent_chain`, `chain::lemma_ordinals`).
- A session is compacted only where it does not fit (`compact::lemma_compacted`), and then lands
  within its budget, for every budget from `landing::LEAST_BUDGET` tokens up
  (`landing::lemma_lands`); below it, wherever the shortest checkpoints fit
  (`compact::lemma_compacted`).
- A file that is passed over by its size holds a session that fits, as long as no fraction reaches
  its messages: none in the arguments of a call or in content that is rendered as JSON
  (`weight::lemma_passed_over`, the contract of `history::parse_lines`).
- The sessions found for a directory are those of the full listing that were held there, in the same
  order (`discover::find_sessions`, `discover::lemma_found`, `discover::lemma_found_add`).
- Later moments have later timestamps (`iso::lemma_iso_order`).
- A session that its harness compacted is read from its last compaction on
  (`history::lemma_forgotten`); one that was never compacted is read whole
  (`history::lemma_uncompacted`).
