# jrl

A terminal journal: questions asked at the prompt, answers appended to one
text file per day, and a pager and analytics over those files.

The library under `src/` holds the logic, verified with Verus:

- `question` — question lines (`t: text`) and chunks (information line,
  question line, answers) and what they tell about themselves.
- `text` — the string operations the rest is built on (`lines`, `trim`,
  splitting and joining), with their specifications.
- `file_parsing` — the text of an entry as it is appended to a day file,
  and the proof that it reads back; the shuffled list of daily questions.
- `pager` — reading a day file chunk by chunk, the summary the pager
  shows, quotes, and wrapping text to the terminal width.
- `entries_information` — what the analytics read from a day file and the
  most common word of each length.
- `loops` — the decisions of the prompt loop and of the pager, as
  functions from state and event to next state and action.
- `cli` — what the command-line flags decide.
- `utility` — the names of day files and how they are recognised.

Two maps keyed by text are kept as vectors sorted by key: the answers
grouped by question (`pager::group_insert_chars`) and the words counted by
the analytics (`entries_information::most_common_words`). Verus proves
nothing of a `BTreeMap` keyed by `String`, so the sorted vectors carry the
contracts, and `lemma_group_entries_is_sorted_map` shows that they group as
such a map does.

`app/` is the program around it: the command line, files, the terminal and
the line editor.
