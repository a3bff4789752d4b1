# divsufsort-rs

Suffix array and Burrows-Wheeler transform construction with the divsufsort
algorithm (B*-suffix sorting with multikey introsort and merging, then induced
sorting), written in Verus and verified.

## What is proved

- `divsufsort` fills `sa` with the suffix array of `t`: every suffix listed once,
  in strictly increasing lexicographic order (`suffix::is_suffix_array`). A
  text has only one suffix array (`suffix::lemma_suffix_array_unique`).
- `divbwt` returns the Burrows-Wheeler transform of `t` and its primary index
  (`suffix::is_bwt`); the transform is unique (`suffix::lemma_bwt_unique`) and
  invertible (`lfmap::lemma_bwt_invertible`). The optional scratch array is left
  as it was.
- `bw_transform` fails with `InvalidArgument` exactly when its arguments do not
  fit together; otherwise, handed a suffix array, it gives the transform
  (`utils::lemma_walk_is_bwt`), and the array is left as it was.
- `inverse_bw_transform` fails exactly on a bad primary index or a short scratch
  array, and otherwise gives back the text whose transform it is handed: the
  proof goes through the last-to-first mapping (`lfmap::lemma_lf`).
- `sufcheck` accepts exactly the suffix arrays of the text, and names the first
  inconsistency of length, range or first-byte order that it finds (or the scan
  step, for a suffix found out of place).
- `sa_search` reports exactly the suffixes that start with the pattern, and
  `sa_simplesearch` those that start with a byte, when given a suffix array.
- `sort_typebstar` counts the B*-suffixes; `tr_partition` and
  `ss_partition_around` are three-way partitions (a rearrangement of the window
  into keys below, equal to and above the pivot's); `ss_three_way_partition`
  returns `None` exactly when every key equals the pivot's, and otherwise keeps
  the window's entries (marks taken off) with the pivot's key between its bounds;
  `ss_partition` only moves and marks entries of its window; `push5_and_continue`
  hands on every part of a partitioned range that still needs sorting, the
  larger first.
- `FixedStack` holds as many items as were pushed, less the pops that returned
  one (`constants::lemma_stack_count`).
- The heapsorts and insertion sorts of both phases (`ss_heapsort`,
  `ss_insertionsort_impl`, `tr_heapsort`, `tr_insertionsort`) sort their window by
  the stated key, keep its contents, leave the rest of the array alone, and the
  insertion sorts mark exactly the entries that tie with a neighbour;
  `tr_insertionsort` keeps tied entries in their order.
- `ss_isqrt` returns the integer square root and `ss_ilg`/`tr_ilg` the floor of
  the base-2 logarithm.
- The certificate accepts exactly the suffix arrays of the text
  (`certify::certify_suffix_array`).

What is not proved: that the introsorts and merges of the two sorting phases
(`sssort`, `trsort`, `ss_mintrosort`, `tr_introsort` and the merges) sort; their
contracts state what is kept (the lengths of the arrays). These phases read and
write through accessors (`arr`) that ignore an index out of range, so their
freedom from out-of-bounds access is that of the accessors, not a proof about
the indices. Their joint result is certified in linear time
(`certify::certify_suffix_array`); should the certificate fail, a plain
verified suffix sort takes over, so the contract of `divsufsort` does not rest on
the sorting phases.

## Layout

- `src/suffix.rs`: suffixes, lexicographic order, suffix arrays, the transform.
- `src/divsufsort.rs`: the construction (bucket counts, B*-suffix sort, induced
  sorting), `divsufsort` and `divbwt`.
- `src/sssort.rs`, `src/trsort.rs`: the two sorting phases.
- `src/heap.rs`: heaps, and rearrangements of a window (partitions, swaps).
- `src/certify.rs`: the suffix array certificate and the plain sort.
- `src/lfmap.rs`: counting, the last-to-first mapping, inversion.
- `src/pattern.rs`: where a pattern falls among sorted suffixes.
- `src/utils.rs`: transform from a suffix array, inversion, search, checking.
- `src/constants.rs`, `src/arr.rs`: tables, a bounded stack, guarded accessors.
- `app/`: error types with `Display`, checked entry points, verbose checking.
