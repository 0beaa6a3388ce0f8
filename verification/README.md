# partition_kit

Combinatorial building blocks, written in Verus and proved against their contracts:

- `union_find`: a union-find structure over hashed integer-like keys, with path splitting
  (a find points every key it passes at its former grandparent), group sizes and
  per-group metadata combined with `+` on union. Its view gives each key's
  representative, size and metadata; the proofs show that finding changes nothing visible,
  that union merges exactly the two groups involved, and that sizes and the group count
  track the groups.
- `iter`: a memo table of the counts behind Bell numbers, the enumeration of all
  partitions of a list (in the order of restricted growth strings, proved to list every
  partition of the positions exactly once), and combinations by size (through itertools).
- `num_partitions`: partitions of a number into a fixed count of parts, both as a sorted
  list and as a lending iterator that steps to the greatest partition below the last one;
  a whole run of the iterator is proved to give the sorted list backwards.
- `num`: numbers as lists of prime powers, with their value and their text forms.
- `owned_iterator`: the lending-iterator trait.

`app/` adapts the library to iterator inputs and outputs and gives factorizations
`Display` and `Debug`.
