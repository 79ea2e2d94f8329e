# disk-analyzer

An interactive terminal browser for finding what uses disk space: a
directory tree is scanned in parallel, held as a size tree (directories
sized by the sum of their children, children sorted largest first), and
browsed by zooming into folders, with deletion after confirmation.

## Layout

- `src/` — the verified library (Verus):
  - `model.rs` — the `Node` size tree, its mathematical view `NodeView`,
    construction, recompute, child removal and lookup;
  - `order.rs` — the stable largest-first order of siblings;
  - `path.rs` — the path operations the tree relies on;
  - `app.rs` — browsing state: zoom path, selection, tree changes after a
    delete or a refresh;
  - `events.rs` — key handling;
  - `scanner.rs` — the values a scan reports and what it does with each
    entry it reads (symlinks skipped, unreadable entries counted);
  - `laws.rs` — properties that span several calls.
- `app/` — the program around it: command line, filesystem scan, disk-space
  query, terminal drawing and the event loop.
- `tests/` — tests of the library.
