# patchouly

A copy-and-patch JIT toolkit with its core logic verified in Verus.

Stencils are small functions compiled ahead of time, one per placement of
their arguments and returns in registers or on the stack. At run time the
JIT copies their machine code one after another and patches holes, stack
slots and jump targets into it.

## Layout

- `src/` — the verified library.
  - `stencils.rs`: stencil descriptors and the numbering of placements.
  - `relocation.rs`: packed relocation entries and how they are written
    into code.
  - `patch.rs`: emitting stencils into blocks and linking blocks into one
    program image.
  - `regs.rs`, `managed.rs`: variable slots and a function builder with
    scoped variables.
  - `perm.rs`: enumerating the placements of a family.
  - `expand.rs`, `single.rs`: what the stencil attributes generate, as
    plain values (symbols, holes, calls, metadata).
  - `archive.rs`, `extract.rs`, `objects.rs`: reading stencil families
    back from a compiled stencils crate's `.rlib`: its object files, their
    symbols and relocations (read with `object` behind trusted wrappers).
  - `samples.rs`: a few hand-written stencils for tests.
- `app/` — the unverified edges: executable memory, `syn`/`quote` token
  handling for the attributes, and the build script's files and commands.
- `tests/` — tests of the library.

The laws that tie the two build steps together are proved in `expand.rs`:
every stencil symbol the attribute generates reads back, in extraction, as
its family and placement; every hole, stack-slot and target symbol resolves
to the patch it stands for; and the metadata bytes unpack to the family's
shape.
