# ShrestiDB

A database kernel: SQL statements over tables whose rows are kept in versions, with
learned indexes, a planner that uses what it knows of the columns, and a log from which
everything is rebuilt.

The library (`src/`) is written in [Verus](https://github.com/verus-lang/verus): what each
function returns is stated in its contract and proved.

| directory | what it holds |
| --- | --- |
| `src/sql` | statements: parsing, and binding to the catalog |
| `src/execution` | schemas and values, expressions, relational operators, versions, locks, transactions, the log, statements from text to effect |
| `src/optimizer` | what is known of columns, costs, the order of joins, plans |
| `src/index` | learned indexes and a B+ tree |
| `src/compute`, `src/ml`, `src/distributed` | vectors, regression, partitions and workers |
| `tests` | tests on concrete values |
| `app` | a prompt over the library, with the log on disk |

Floats are bit patterns in the library. Comparing two of them needs no more; arithmetic,
reading and printing are asked of a `FloatUnit` that the caller hands in.

A statement that changes something takes two steps. `start_sql` checks and buffers, and
names the record to log; `settle` makes the change once the record is logged, and `cancel`
gives it up where logging failed. `execute_sql` does both for a database in memory.

What holds of the database as a whole is stated in public proof functions: that a restart
loses nothing (`execution/durability.rs`), that rows are read as they were written
(`execution/visibility.rs`), that neither an index nor a lookup by the primary key changes
an answer (`execution/index_laws.rs`, `execution/key_lookup_laws.rs`), that a join by
hashing has the rows of one by comparing, but for float keys that are zero or not a number
(`execution/join_laws.rs`), that a query whose last step is a sort answers in that order
(`execution/query_laws.rs`), and that a prepared statement runs with the parameters that it
was counted to need (`execution/prepared_laws.rs`).

A lookup by the primary key goes through the index over row ids, whose keys are floats. It
rests on a `FloatUnit` that counts exactly up to 2^53; a table with a key outside that
range is read whole.
