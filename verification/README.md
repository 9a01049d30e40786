# rojo_sync

The logic of keeping a tree of instances and a file system in step, written in
Verus: the functions of `src/` carry contracts that are proved. What the outside
crates and the standard library do is stated, and taken on trust, in small
wrappers whose doc comments say so.

- `sync_rule`, `middleware`, `vfs_snapshot`: which middleware reads a path, and
  what the instance that it becomes is called.
- `json_model`, `txt`, `unresolved`: JSON models and text files, from bytes to
  instances and back.
- `instance`, `tree`, `dom`, `variant`, `name_map`: instances, their properties
  and the trees that hold them. `dom` keeps its tree in a
  `rbx_dom_weak::WeakDom`.
- `patch_compute`: the patch that turns a tree into what a snapshot describes.
  `patch_laws`, `patch_reach` and `patch_apply` prove what holds of every such
  patch.
- `syncback`, `syncback_snapshot`, `fs_snapshot`: writing a changed tree back to
  files, as decisions between one outside action and the next.
- `reflection`, `glob`, `paths`: what the reflection database, `globset` and
  `std::path` are asked.

Values of types that the logic does not look into, such as numbers and vectors,
stand in `variant` as numbers of their own. `app/` turns the values of a
`WeakDom` into those, reads and writes files, and carries out what `src/`
decides.
