# kannolo

Approximate nearest-neighbour search on hierarchical navigable small-world (HNSW) graphs, with
contracts that Verus proves.

The library works on distances that are order-preserving integers, so it is independent of the
metric and of how vectors are stored: a dataset implements `dataset::Dataset`. `dense::DenseDataset`
is one such dataset; the programs under `app/` bring another one for sparse vectors.

| Module | What it holds |
| --- | --- |
| `scored` | scored items and the two ordered collections of a search |
| `beam` | the mathematical model of a search |
| `soundness`, `exhaustive`, `filtered_exhaustive`, `filtering`, `locality`, `renaming` | what follows for every search |
| `dataset`, `dense` | what is asked of a dataset, and dense integer vectors |
| `graph` | the graph interface with its searches, and three ways to store a graph |
| `levels`, `random` | the assignment of vectors to levels |
| `hnsw` | the index: building, searching, filtering, reordering, storing |
| `permutation`, `reorder`, `egb` | reordering by recursive graph bisection |
| `prune`, `report`, `sisap`, `float_order`, `text` | file formats and reports of the programs |
| `parallel` | the calls that spread work over threads, and sorting |

`app/` holds the command-line programs: reading and writing HDF5 files, drawing levels, and the
conversion of stored indexes.
