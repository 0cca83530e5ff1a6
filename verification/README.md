# go_profile_lsp

A language server that shows Go pprof profiles in the editor: costs at the end of each
line (inlay hints), hotspot functions (code lenses) and costly lines (diagnostics).

- `src/` is the library, written in [Verus](https://github.com/verus-lang/verus) and
  verified: reading profiles, summing costs, formatting, path resolution, change
  detection, and what the server answers.
- `app/` is the program around it: the protocol, the file system, and the editor's
  extension.
- `tests/` holds tests of the library.

## How a profile becomes hints

1. `profile` decompresses the file; `decode` reads the message on top of `wire`. What a
   well-formed message is, and what it holds, is stated over bytes; `encoding` states the
   inverse and proves that decoding undoes it.
2. `analysis` picks the column of values to use and sums it by line and by function.
   All sums are proved not to overflow, or the profile is refused.
3. `paths` finds each file of the profile in the workspace; `relocation` puts the paths
   of the workspace in place of those of the profile, and sums the costs of files that
   were found at one path.
4. `hints`, `lenses` and `diagnostics` produce what the editor shows. Percentages are
   those of IEEE 754 binary64 arithmetic, which `binary64` carries out on integers.

## What is not proved

The functions marked `external_body`, and the `assume_specification` items, state what
the crates `prost`, `flate2` and `url` and the standard library do. Each carries a comment
that says what is claimed.

Paths follow the rules of Unix or of Windows, as the caller says (`rules`).
