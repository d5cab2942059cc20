# mts — Minecraft worlds to Source engine maps

`mts` reads a Minecraft (Anvil) world and writes a Source engine VMF file,
one brush per block, or fewer brushes with greedy meshing. The library in
`src/` is verified with Verus; `app/` is a command-line front end that does the
file input and output.

## Layout

- `src/world.rs` — which region files and chunks are read, whether a chunk is
  empty (only air, barriers and one flat layer of bedrock), the blocks a chunk
  contributes, region file names `r.<x>.<z>.mca`, chunk counting.
- `src/anvil.rs` — decoding chunk data with `fastanvil`, reading its blocks in
  order (y, then x, then z), and the blocks each chunk and each region give. In
  static mode only the blocks inside the chosen rectangle are kept.
- `src/mesh.rs` — greedy meshing: blocks of one type merged into boxes, grown
  along x, then y, then z. The boxes of a type cover exactly its positions,
  without overlap, and never outnumber the blocks.
- `src/blockstate.rs` — block state names such as `minecraft:furnace[lit=true]`.
- `src/material.rs` — the texture configuration and the material of each face.
- `src/vmf.rs` — brushes, their ids and their text in a VMF file; batching.
- `src/text.rs` — decimal notation, whitespace, searching and trimming.
- `app/main.rs` — `mts <world> <out.vmf> [--optimize] [--dynamic] [--coords JSON] [--material-config PATH]`.

The texture configuration is a JSON object, parsed with `serde_json` in
`src/material.rs`; its text is read at run time
(`material_config.json` by default); without it every face is textured by the
block's own name under `mc_1.21.8/`.

Chunks are read in the current format (Minecraft 1.18 and later, as the
supported 1.21.8 writes them). A chunk of an older format, or one whose
sections do not cover its height range or hold too few block indices, is
reported as an error instead of being read; a chunk without sections holds no
blocks.
