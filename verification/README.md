# simpa_core

The verified core of a headless runner for I-Simpa's solvers: the readers of the geometry and
project files, the integer decisions of the geometry check (the side graph, cells, depths and
placement, from facts the caller decides on coordinates), the per-tetrahedron and per-face
checks of a tetrahedral mesh, parts of the repair, and some of the bookkeeping of meshing runs.
Of a project's import, the archive, element tree, scene mesh, face lists, surface groups, the
material database (numbers kept as text), the source walk and the project's name are here;
receivers, fitting zones, spectra, environment and solver settings, the assembled project, the
region volume check and the meshing runs themselves are not. The functions in `src/` carry
contracts that Verus proves, except a few small wrappers around std and the `uuid` and
`roxmltree` crates, whose contracts are trusted and say what those calls are documented to do;
`app/` holds what cannot be verified (file and process I/O, floating-point geometry, JSON
through outside crates) and hands the library plain values.

## Layout

- `src/` — the library, one module per concern:
  - readers: `zip` and `inflate` (project archives), `scene` (`sceneMesh.bin`), `proj` (project
    folder, face lists, group and zone assignment, element ids), `order` (the load order of an
    element's children), `xml` (the element tree, parsed by `roxmltree`, walked in load order),
    `project` (a project archive's element tree and scene mesh), `props` (element types, ids and
    properties, the project's name, the source walk), `material` (the material database), `ply`,
    `stl`, `obj`, `finish` (welding and assembly shared by the mesh readers), `words`, `chars`,
    `text`;
  - the geometry check and repair on indices: `census` (position ids, face status, the edge
    census), `cells` (the side graph's union-find, the joins at each edge, and the face and edge
    classes), `components` (numbering the face-connected components), `place` (placing them in
    one another from cast rays), `numbering` (cell numbers), `depth` (each cell's depth from the
    exterior, and the cells with their depths together), `check` (reason codes and reasons),
    `facts` (the cell facts of the check, from the joined side graph, the rays and seeds),
    `report` (the whole check, from the faces and what the caller decided on coordinates),
    `repair` (renumbering and face removals), `groups` (surface groups and their names);
  - meshing: `mesh` (mesh folder names), `basename` (TetGen output sets in a folder), `poly`,
    `diag` (TetGen's intersection reports), `preprocess` (the scene correction's output),
    `skipped` (skipped facets mapped back to the scene), `outcome` (reason codes and run
    status), `volumes` (volume ids), `tetra` (index, orientation, face-order, neighbour, marker
    and coverage checks of a tetrahedral mesh, the orientation sign given by the caller);
  - `ids` (deterministic UUIDs) and `import` (options and errors).
- `tests/` — tests run against the compiled library.
- `app/` — the unverified shell: file reading, floating-point conversions and predicates
  (among them each tetrahedron's orientation and the values of the materials' numbers), and
  JSON.
