# ockham

Ockham prunes creatures — small networks of neurons and synapses — without
losing score. It proposes cuts of hidden neurons, screens them on samples of a
corpus, scores what passes on the whole of it, alone and in combination, and
keeps a cut only if the score improves.

- `src/` is the library. Every decision of a run is made here and verified with
  Verus: what is proposed and in which order, what a screen lets through, which
  combinations are tried, what wins, what is filed and reported, and when a run
  stops.
- `app/` runs it: it starts the scorer, reads and writes files, and does the
  floating-point arithmetic.
- `tests/` exercises the library.

Numbers that are measured outside travel through the library as their bits
(`measure::Measure`); it compares them and never computes with them.

Where work outside and decisions alternate, the library holds a state machine
that is told what happened and says what to do next: `ockham_loop::OckhamLoop`
for a run, `screening::Screening` for a batch on its way up the samples,
`sensitivity::Solver` for the sway of neurons over the outputs,
`prune::GroupCut` for a group that is cut member by member, and
`judge::BundleWalk` for a combination of cuts.

The proof functions named `law_…` state what holds of the library as a whole.
