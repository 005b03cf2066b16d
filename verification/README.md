# bplus_tree

Three B+ trees, and the pages and the buffer pool that one of them stands on, with contracts that
Verus proves.

- `btree` is an in-memory tree whose nodes lend freely to each other.
- `cbtre` is an in-memory tree with the textbook balance, made to be shared behind a lock.
- `normal_btree` is a tree of byte strings on pages of 8192 bytes.

`tree`, `entries`, `order` and `shape` say what the in-memory trees are and become; `node`,
`balance`, `cursor` and `outline` hold their nodes, their rebalancing, their walks and their
outlines. `bytes`, `key`, `store`, `page` and `codec` describe pages byte by byte; `clock`,
`medium`, `pool` and `file_medium` keep them; `bytetree`, `paged`, `window` and `lean` say what
the tree on pages is and becomes. `laws` states what holds of several operations together.

`app/` is a program around the library: locks, files, tasks and printing.
