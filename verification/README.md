# mc

A sandbox game of blocks. The rules of the game are a verified library; what draws,
listens and reads files is a thin program around it.

## The library, `src/`

- `world/`: blocks, terrain columns, trees, falling blocks, water that fills the place of a
  removed block, light, the texture atlas, recipes, and saved worlds.
- `player/`: inventory, game modes, collisions, and the block that is aimed at.
- `render/`: faces, chunk meshes at several levels of detail, the cache of a view's
  meshes, light probes, draw batches, and the bookkeeping of the mesh worker and of
  graphics memory.
- `game/`: screens, controls, the form for new worlds, the item browser, inventory
  gestures, the search for a place to begin, mining and placing, and what is read from
  the system about the process.

Numbers that the game has in floating point come in as their bits (`double.rs`) where a
rule only compares or rounds them.

Contracts say what each function returns. The public proof functions beside them say what
holds of several functions together: that saves survive being written and read, that
meshes of neighbouring chunks agree, that items are neither made nor lost, and so on.

## The program, `app/`

`main.rs` starts the game, or with `preview`, `continent`, `blocks` or `tiling` draws
pictures of the generator and the textures. Noise, motion and matrices are floating point
and live here. Textures are read from `assets/textures`, shaders from `extras/shaders`.
