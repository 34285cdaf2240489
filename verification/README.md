# retree

The traversal core of a directory listing tool, verified with Verus: which entries of a
directory are listed, how ignore rules and limits apply, how cycles are cut, and the order in
which everything happens.

The library does no I/O. A traversal is a state machine: it asks for what only the file
system or the output can do (`protocol`), and goes on with the answer. Three machines share
the same decisions:

- `walk`: the ordered engine, one directory after the other, builds the whole tree;
- `task`: the same for worker threads, one task for each directory, which reads it only with a
  permit;
- `streaming`: writes entries as they are visited.

What a machine does with an answer is stated exactly in its contracts. Beside each machine
stands a recursive description of what the traversal finds, and the proof that the machine
arrives at it: `ordered_model`, `parallel_model`, `streaming_model`. `laws` holds what follows
for the library as a whole.

- `config`, `error`, `entry`, `path`, `visited`: the data;
- `filter`, `descend`, `node`, `listing`, `ignoring`, `limiter`: the decisions;
- `engine`: the choice between sequential and parallel traversal.

`app/` drives the machines with the file system, the thread pool and an output.
