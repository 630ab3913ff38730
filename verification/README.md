# raur

A small helper for the Arch User Repository: search, install, update,
inspect and remove AUR packages, through the AUR RPC interface or the GitHub
mirror of the AUR.

The logic is a Verus library under `src/`, each function with a contract:

- `text`: characters, white space, trimming, lines and words of text.
- `pkgbuild`: reading the version a PKGBUILD declares, the GitHub mirror
  (addresses, answers, branch listings, search).
- `package`: AUR RPC packages, addresses, popularity order of search results.
- `installed`: the `pacman -Qm` listing and debug packages.
- `prompt`: yes/no answers and the root check.
- `commands`: the decisions of the commands (install, update, info, start).
- `order`: the lexicographic order and the merge sort of indices they use.

`app/` holds the program around it: the command line, HTTP requests, JSON
decoding, processes and the file system. `tests/` runs the library on
concrete inputs.
