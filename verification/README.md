# mekle

Finds coding projects below one or more directories — Git repositories and
directories holding marker files such as `Cargo.toml` or `package.json` — and
prints their roots ordered by how recently and how often they were visited.

## Layout

- `src/` is the library, verified with Verus. Every decision the program
  makes lives here, with a contract:
  - `path`, `text`, `order`, `sort`: paths as component sequences, character
    questions about text, path order, and a stable sort;
  - `content`, `marker`, `git`, `fs`: what a file's contents, a marker's name
    and a `.git` entry mean;
  - `root`: the project root a marker resolves to, and the project a
    directory belongs to;
  - `scan`, `finder`: what a walk keeps, gitignore-style exclusions, and how
    repositories and resolved markers become the project list;
  - `history`, `output`: recorded visits, frecency, aging, pinning, and the
    ranking of results;
  - `config`, `paths`, `shell`, `completions`, `dependencies`, `error`: the
    effective configuration, file locations and `~`, shell integrations, and
    errors.

  The library leaves the filesystem and the environment to its caller: it is
  handed probes (closures that answer one question about one path) and plain
  values, and its contracts say what follows from the answers. The same goes
  for the whole search (`ProjectFinder::find_projects`), which is handed the
  directory walk, and for `Dependencies::check`, which is handed the lookup on
  the program path. One outside crate is called from inside it: `ignore`, for
  gitignore-style matching.
- `app/` is the program around the library: the command line, reading and
  writing the configuration and history files, the parallel directory walk,
  and printing.
- `tests/` exercises the library on concrete values.

Scores are held in millionths of a point and frecency in quarters of that unit,
so every recency weight is a whole number; the program converts to and from
the decimal scores it stores and prints.
