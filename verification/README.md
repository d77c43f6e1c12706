# mikiwame (見極め)

Explainable materials structure diagnostics for 3D periodic crystal
structures: what is structurally unusual about a structure, where, and on what
evidence.

A structurally consistent verdict means only that the checks that ran found
no structural anomaly; it says nothing about stability or synthesizability.

## Layout

- `src/` is the library, verified with Verus. It holds every decision the
  diagnostics make: the input quality findings and which of them are fatal,
  duplicate sites, disorder groups, the coincidence grouping of sites (a
  verified union-find), the coordination decisions (which sites get a
  coordination number, the per-species tally, the radius bound of the search),
  the verdict, dominant findings, applicability, component statuses and
  provenance, the Cordero et al. 2008 covalent radius table, command-line
  parsing and messages, and the Markdown summary. Laws that span calls are
  public proof functions, e.g. `lemma_verdict_depends_only_on_severities_present`,
  `lemma_input_quality_ignores_site_order`, `lemma_duplicates_ignore_site_order`,
  `lemma_disorder_groups_ignore_site_order` and, for a whole report,
  `site_order::lemma_report_ignores_site_order`.
- `app/` is the command-line program (`analyze`, `batch`, `explain`,
  `doctor`) and everything that computes on floating-point coordinates: cell
  volume, minimum-image distances, the `chematic-crystal` neighbor search, the
  largest-relative-gap shell cut, numeric evidence, JSON (de)serialization and
  CIF input. It classifies the measured numbers into the plain facts the
  library decides on.
- `tests/` runs the library on the NaCl fixture and its broken variants, on
  the radius table, the command line, the coordination decisions and the
  Markdown summary.

## CLI

```bash
mikiwame analyze structure.json --format markdown
mikiwame analyze structure.json --format json   # default
mikiwame batch structures.jsonl --output reports.jsonl
mikiwame explain report.json --finding SITE_DUPLICATE
mikiwame doctor
```

`analyze` also reads a `.cif` file in P1 (a CIF declaring further symmetry
is refused). A structure file is `{"lattice": [[..],[..],[..]], "sites": [{"element": "Na",
"fractional": [0.0, 0.0, 0.0], "occupancy": 1.0}, ...]}`.
