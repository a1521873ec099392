# rlx_eda

Electronic design automation with proofs: placement and routing of cells, standard cell
libraries, tiles, SPICE decks, simulation reports, optimization traces, vector fitting and
the checks that hold two results against each other.

- `src/` is the library. Every item is verified by Verus, and each public function says in
  its contract what it returns. Numbers are bit patterns of IEEE 754 with verified
  arithmetic (`double`, `single`), so that texts and tables that depend on them are exact.
- `tests/` runs the library on values, with the outside crates linked.
- `app/` holds the programs: files, processes, pictures, and what only the machine
  computes (logarithms, powers, cosines).

| Modules | What they hold |
| --- | --- |
| `text`, `numfmt`, `decimal`, `bignat`, `double`, `single`, `arith`, `convert`, `ordmap`, `paths` | texts, numbers, maps by name |
| `geom`, `layout`, `netlist`, `place`, `route`, `flow`, `demo` | shapes, designs, placement and wires |
| `graph`, `ad`, `ad_batch`, `ad_parallel`, `tensor`, `same_loss`, `matching`, `optim`, `place_report` | losses as graphs, what they come to, and descent on them |
| `liberty`, `liberty_laws`, `stdcells`, `mock`, `tile` | cell libraries and arrays of tiles |
| `spice`, `primitives` | decks and devices |
| `corner`, `measure`, `limits`, `verify`, `cache`, `harness` | running testbenches |
| `sim_report`, `sim_csv`, `sim_pdf`, `sim_plot`, `reporter` | reports on testbenches |
| `trace`, `charts`, `trace_report`, `manifest`, `runs` | optimization runs and reports on them |
| `validate`, `triangulate`, `complex`, `lstsq`, `vfit` | comparing results, and fitting |

What the library believes of other crates without proof stands in the wrappers and
declarations of `text`, `liberty`, `measure`, `cache`, `geom`, `layout`, `graph`, `optim`,
`sim_pdf` and `manifest`; the comment above each says what is claimed.
