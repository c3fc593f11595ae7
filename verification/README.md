# DiskLoom

DiskLoom shows what fills a disk. It reads the master file table of an NTFS volume, or walks the
directories of any other one, and lists, searches, sums up, draws and exports what it finds.

The library under `src/` holds what DiskLoom decides and computes, written in Verus: each function
states what it returns, and Verus proves that it does. The programs under `app/` are ordinary Rust
around it. They read disks and directories, open windows and talk to the system. They also place the
tiles of a treemap, because those places are floating point.

## The library

| Modules | What they hold |
| --- | --- |
| `graph`, `intern`, `size`, `totals` | The entries of a scan as a compact graph, with the totals of every directory |
| `mft`, `scanned`, `scanner`, `mft_reader`, `mft_table`, `ntfs_graph` | The records of a file table, the order in which to read them, and the graph they make |
| `scan` | Scans by traversal: which directory is read next, and what is kept of what is found in it |
| `filter`, `ranking`, `candidates`, `stats`, `treemap` | Searches, orders, duplicates, file types and the items of a treemap |
| `csv_export`, `snapshot` | Export as CSV, and snapshots that are written and read back |
| `command`, `targets`, `report`, `format`, `bench` | The command line, and what it prints |
| `inputs`, `dates`, `dashboard`, `desktop` | The desktop window |
| `native_app`, `native_view`, `paint` | The native window |
| `tree`, `viewport`, `visibility`, `session`, `startup` | The window with the tree that is scrolled through, and the scans it keeps |
| `tree_window` | The window with one tree |
| `volume`, `elevation`, `shell`, `scan_broker`, `installer` | What is asked of Windows, and what its answers mean |
| `text`, `winpath`, `numbers` | Texts, Windows paths and numbers |

Paths are plain text. They are joined and taken apart behind the prefix that Windows sees in them: a
drive, a share such as `\\server\share`, a device such as `\\.\device`, or what follows `\\?\`. A name
that is joined to a path that begins with `\\?\` is resolved: lone dots in it fall away, two dots
lead back by one name, and the joined path is written anew with single backslashes.

What the library takes from other crates and from the standard library without proof stands in three
places: `text` (characters and letter case), `filter` (patterns of the `regex` crate) and
`csv_export` (records of the `csv` crate) each say in words what they rely on.

## The programs

One executable goes by several names: `dlm` is the command line, `diskloom-setup` the installer,
`diskloom-bench` the benchmark, and any other name opens a window.
