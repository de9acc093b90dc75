# hydra

A store of decision trees for design interviews, in verified Rust.

A tree holds the questions of an interview. A question that is open is a *head*;
to answer it is to *cut* it. Heads form a tree by their parents, with edges
across it by the heads that block them. To change an answer reopens whatever
stood on it, so a tree never looks settled on a premise that moved.

## Layout

- `src/` is the library. Its functions have contracts over a model made of
  sequences, sets and maps, and Verus proves them, but for the few calls into other
  crates and the standard library that are listed below as trusted.
- `app/` is the program around it: the command line, the files with their lock,
  and the shapes of the JSON that is read and written.
- `tests/` runs the library.

## What is proved

- Each operation states which requests it refuses, with which error, and what the
  tree is after all others. A refused request leaves the tree as it was.
- `sound`: what the operations keep. No head dangles and nothing stands on itself,
  unless an edge was forced. While a sound tree has an open head there is one to
  ask, and to revise an answer never takes back what it rests on.
- `cascade`: a revision reopens exactly the answered heads that stand on it, by any
  chain of parents and blockers.
- `walk`: the path in an error is the first route that closes the cycle.
- `preorder`: every head is read once, whatever a hand edit did to the file, and a
  new head moves no other.
- `nesting`: where the parents do not run in a circle, a head is read right before
  what lies below it, which is read without a gap, and siblings are read by their
  number.
- `store`: the nearest store from a directory upwards is the one that is found. A
  change that fails leaves nothing to write, and a tree that was changed and saved
  is loaded as it was left.
- `render`: summaries share a column, and colour moves nothing.
- `hook`: only the session that holds the lease is ever held or reloaded, and what
  it is told is of the tree that the lease names.

## What is trusted

The clock and the identifiers (`jiff`, `ulid`), the parsing of JSON and the
escaping of its strings (`serde_json`), and three things of the standard library:
appending a character to a string, telling letters from other characters, and
the escaping of a string for debugging. Each of these is a function or a
specification of its own, with a comment that says what is claimed of it.
