# gpu-gates

The host side of a set of GPU kernel gates, written in Verus. A gate runs a
kernel on a card, holds its output against a reference dump or a host rule, and
says whether the check passed. What a gate reads and decides is the library;
what it computes in floating point, and the card, are around it.

- `src/` is the library. Every item is verified. Readers of manifests, base
  files, tables, PTX and command lines are stated over the characters or bytes
  they are handed, floats are taken by their bits, and an error is returned
  exactly where its contract says. The functions named `law_*` state what holds
  of the library as a whole.
- `tests/` runs the library on concrete values.
- `app/` is the command line around it: files, environment, the float rules and
  the device tools. The device tools need a CUDA toolkit to build.

Two outside calls stand behind trusted items in `src/ptx.rs`: the readers of the
artifact container, from `oxide-artifacts`. `src/text.rs` and `src/decoder.rs`
each specify one function of the standard library.
