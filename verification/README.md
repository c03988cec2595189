# pkfs

A reader for the Nintendo DS Pokémon games (Generations 4 and 5): the
cartridge filesystem, NARC archives, BLZ-compressed binaries, 2D sprites
(NCLR palettes, NCGR character data with the pokégra cipher, NCER cell banks)
and the Gen 4 field-map formats. The library is written in Verus: its functions carry `requires`/`ensures`
contracts that Verus proves, stated over mathematical models of the formats.

## Layout

- `src/bytes.rs`, `src/text.rs` – little-endian reads, NUL-padded text.
- `src/rom.rs` – cartridge header, File Allocation Table, name-table walk.
- `src/narc.rs`, `src/extract.rs` – archives and the recursive walk of the
  filesystem.
- `src/blz.rs` – BLZ decompression.
- `src/signature.rs` – format detection from file stamps.
- `src/image.rs`, `src/cg.rs`, `src/ncer.rs`, `src/sheet.rs`, `src/cell.rs`,
  `src/sprites.rs` – palettes, character sets, tile sheets, cell assembly and
  the pairing of an archive's 2D resources into named sprites.
- `src/map.rs`, `src/overworld.rs` – map matrices, the arm9 map-header table,
  land-data chunks (terrain model, buildings), the per-chunk texture-set
  and building resolution of the overworld, and `plan_overworld`, which puts
  them together into what the model decoder is handed.
- `src/mapping.rs`, `src/listing.rs` – per-game file mappings and annotated
  listings.
- `src/dump.rs` – output naming, archive classification, sprite cipher choice
  and PNG encoding (through the `png` crate).
- `src/laws.rs` – properties that span several operations.
- `app/` – the `pkfs` command-line tool (`info`, `ls`, `dump`): file I/O,
  argument parsing and the TOML mapping tables (read from the directory given
  by `--mappings`, default `data/mappings`: `hgss.toml`, `bw.toml`,
  `b2w2.toml`, consulted in that order).

Conversion of Nitro 3D files (models, textures) to glTF is not part of this
tree; the tool reports such files and skips them.
