# pybytes

Byte strings with the operations of Python's `bytes` and `bytearray`, verified with Verus.

`PyByteInner` (`src/inner.rs`) owns the bytes. Its methods stand by theme:

| module | methods |
| --- | --- |
| `construct`, `compare` | making a byte string of an object, comparing, hashing |
| `items`, `sequence` | items and slices: reading, setting, deleting |
| `find`, `search` | containment, counting, searching, partitions |
| `split`, `lines`, `strip` | pieces, words, lines, tabs, ends |
| `classify`, `casing`, `hexadecimal` | questions on bytes, case, text forms |
| `padding`, `transform` | widths, joining, replacing, translating, repeating |

`object` and `options` hold the objects and arguments that the methods take, `error` the exceptions
that they raise. `laws` states what holds across the methods.

Arbitrarily large integers are handled by `num_bigint` (`integer`), separators and white space by
`bstr` (`bstring`): these two modules hold the functions whose contracts are trusted, together with
`String::push` in `text`.

A method that does not accept every argument says so in its `requires`.
