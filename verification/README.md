# konnect_core

Text-level editing of KiCad schematics, verified with Verus.

A schematic is one S-expression. The tools here find the blocks that a request is about and rewrite
those bytes alone, so that uuids, formatting and everything else in the file stay as they were
written. `src/` is the verified library; its contracts speak of the bytes of a text and of the tree
that they denote.

- `text`, `scan`, `node`, `edit`, `alike`, `quote`: bytes, blocks, trees, edits, and what edits keep.
- `num`, `numeral`, `coord`: numbers, as bit patterns and as numerals. No sum is computed here.
- `args`, `cache`, `project`: arguments and refusals, cached queries, a sheet's place in its project.
- `page`, `graphics`, `reread`, `region`, `back`: the paper of a sheet, its native graphics and how
  they read after an edit, the regions that move and that move back.
- `symbols`, `properties`, `graft`, `rename`, `components`, `carried`, `placement`, `reset`, `pins`:
  placed symbols, their fields on every unit, and their pins.
- `library`, `refresh`, `again`, `update`, `replace`: the definitions that a schematic embeds.

What relates several calls, or holds of all of them, stands in proof functions named `law_…`; those
of fields and designators are in `carried` and `rename`. What one function does, its contract says.

Coordinates stay numerals in the library. What a numeral is worth, what a sum of numbers is and how
the result is written with six decimals, the caller computes and hands in; `app/` does so, reads and
writes files, and talks to KiCad.
