# acorn_dfs

Reads disc images in Acorn's ADFS "E" format: the map of the disc, its directories and
its files. The library under `src/` is verified with Verus, but for what it takes from
elsewhere: see "What is taken on trust".

## Layout

- `src/new_map/` is the library proper.
  - `util`: streams of bytes and bits, positions, names.
  - `bits`, `chain`, `record`, `allocation`, `disc_structures`: the map of a disc, from
    single bits up.
  - `checksum`, `filesystem`: directories and their entries.
  - `path`, `tree`, `sys_structures`: paths, what has been read of a disc, and the disc
    as a whole.
  - `lookup`, `listing`: what a disc holds whatever has been read of it, and the list of
    all that it holds.
- `src/flat_map.rs` reads the map alone, as a plain list of fragments.
- `src/agreement.rs` proves that both readings of the map hold the same fragments.
- `src/free_space.rs` reads the free space map of older discs.
- `src/export.rs` turns paths and entries into what other systems use.
- `src/text.rs` writes numbers and names.
- `app/` is the command line tool.

## What the contracts say

A structure that is read is described by a specification function on the bytes of the
image (`record_at`, `map_at`, `directory_at`, `loaded`), and every function that reads
it returns exactly that, or exactly the failure that the bytes give.

Some images lead nowhere: a disc without zones, a directory whose number no
fragment has, a file outside the image. `FormatE::parse` and `get_file` ask not to be given
them; `FormatE::load` and `try_get_file` take everything and answer with a `Defect`.

`lookup` says what a path leads to on a disc. The laws in `lookup.rs` say that asking
for a file gives what `lookup` gives, whatever was asked for before, and that asking
again changes nothing.

## What is taken on trust

Verus believes the contracts of these without a proof; each says in its comment what is
claimed.

- Of the standard library: `String::push`, `String::from_utf8_lossy`,
  `core::str::from_utf8`, `str::escape_debug`, formatting a `str` with `{:?}` (all in
  `text.rs`), `Range::clone` (in `allocation.rs`), and `Hasher::write` (in `util.rs`), of
  which nothing is claimed. What `from_utf8_lossy` makes of
  invalid text, and what the two ways of escaping make of any text, has a name and no
  description.
- Of `arrayvec` (in `filesystem.rs`): the type `ArrayVec`, whose elements are known by the
  name `listed_entries`, and its `new`, `push`, `as_slice` and `clone`.
