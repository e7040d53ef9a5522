# wave

A JavaScript package manager. `src/` is the verified library (Verus):

- `order`: the byte order of texts, proved a strict total order.
- `str_map`: a map with text keys kept in ascending order.
- `semver`: versions and ranges (parsed and matched by `node_semver`),
  with version precedence proved a total preorder.
- `cli`: the commands and the reading of `name@version` requests.
- `definitions`, `package`, `packument`: the records of the registry, the
  lockfile and `package.json`.
- `utils`: choosing versions, flattening dependency trees into lockfile
  entries, install order and the layout of `node_modules`.
- `add`, `init`, `install`: what those commands compute.

`app/` is the program around it: command line, network, files and JSON.
