# conf_lang

A small indentation-based configuration language: a definition of what
records may appear (`def`), a parser that reads a source against it into a
tree of records (`parser`, `conf`), a walker that visits that tree in an order
the caller can steer (`walk`), and a writer that produces source text
(`writer`).

The library under `src/` is written in Verus. Its functions carry contracts
that Verus proves, among them:

- the lexer and grammar read a source as items (record lines with their
  indent and values, and body lines), and the parser's values are exactly
  those items' tokens, in order;
- each record line becomes one record, nested under the last line before it
  that is one level less indented;
- each record is a record of a node tried for it in the branch its parent's
  node names, with that node's tag, label and parameter groups; every node
  tried before it does not fit its values (for a node of one group, its
  count or parses; for a node of several groups that share no values, the
  greedy reading of its groups, which the matcher follows exactly); each
  group of a node of several groups takes a run of values that fits it (its
  parameters whole, once or repeated, then any from its optional point on),
  unless it shares a pattern with the groups beside it; a tag that may stand once
  stands once under a parent; parsed values are what the definition's
  parsers give for the values' texts;
- a parse that fails does so at the first line that does not read, with the
  error of the language there, or at a record line that reads, at its first
  value, with a cause that the definition shows: a tag already used under
  the same parent where the first node that may fit lets it stand once, a
  parent node that takes no children, a branch that is not there, no node
  that fits, or a node that cannot be matched at all;
- a walk step fails where a record asked for has the path and index of one
  taken in on the way to the record visited, and only where one has its
  index and a path just where it has one; the error carries the path of the
  visited record's source; each visit
  carries a clone of the note its record waited with, a record asked for
  after or below the one visited waits with a clone of the note it was asked
  with,
  and each ancestor keeps a clone of the note its visit was left with.
- a document of plain records that the writer writes reads back, line by
  line, as those records.

The lexer counts its read-ahead in characters throughout. Where a collection
keyed by strings or paths would be a hash map or set (branches and tags of a
definition, the tags used under a parent, the parses tried for a value, the
records taken in on a walk), the library keeps a vector searched in order, with
its keys kept distinct where that matters.

`app/` holds the command-line program around the library (reading files,
printing, and the loop that hands records to a caller's function), and
`tests/` its tests.
