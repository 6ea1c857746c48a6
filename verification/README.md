# database

A query engine over a block device, written in Verus: what it computes is stated in contracts
and proved.

- `src/` is the verified library. It holds the row and block formats, the block cache and the
  protocol of the disk, the operators of a query plan, and the optimizer.
- `app/` is the program around it: the command line, the pipes to the disk and the monitor, and
  the loops that carry out what the operators ask for.
- `tests/` runs the library on concrete values.

## The library

- `value`, `float`, `bytes`, `text`: values and their order, binary64 arithmetic on bit patterns,
  numbers in bytes and in text.
- `query`, `schema`, `error`: query plans, the catalog, the columns of a plan, what can go wrong.
- `row`, `block`: rows in bytes, rows in blocks, predicates.
- `cache`, `disk`: cached ranges of blocks, the buffered writes, the blocks of operators.
- `ops`: the operators. Each is a state machine. It takes rows and blocks, and says which rows it
  gives and which blocks it needs next.
- `optimizer`: the steps that improve a plan.
- `answer`: the meaning of a plan, on which the laws of the optimizer rest.

The modules whose names end in `laws` hold what is promised of several functions together, and
on what conditions:

- A sort gives its rows in order, a join gives all its pairs, and a filter gives exactly the rows
  that pass. Rows that go to blocks have to fit into one and must not be empty, their texts hold
  no U+0000, and no more of them fit into one block than the 65535 that it can count. There have
  to be as many block numbers left as rows; where a sort merges in rounds, one for each row and
  run. The order of a sort is promised where no key is a NaN.
- A scan gives exactly the rows that pass, provided that what the table claims of the columns of
  the tests is true of its rows.
- An optimized plan gives the same answer, provided that equal values are the same in the columns
  that a filter compares for equality: a hash join tells zero from negative zero, a test does not.
- A plan that is carried out operator by operator gives rows of its columns, and the rows that it
  means in some order. For the latter its tests have to be such that they can be made, and those
  over a cross join have literals of the types of their columns. While an operator holds rows in
  blocks, others may take blocks of their own. They may not where a cross join has put right rows
  into blocks and waits for more, as it keeps these in one range. A sort that ends gives all
  blocks of operators free again, so no operator above it may hold rows in blocks by then.
- A merge of runs takes as many blocks as the runs have. Rows without texts need no more. Where
  rows of different lengths need more, these are taken when the merged run ends.
