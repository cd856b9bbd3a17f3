# qdb

The computation kernel of a project-management database, written in Verus.

- `src/` is the verified library: working-time calendars (which days work, when
  work starts and ends, the working minutes counted per day between two
  instants, the lookup of a request's calendars by id),
  datetime reading, the activity network and its ordering (cycles are found
  exactly), the scheduling decisions of the critical-path engine (constraints,
  dependency kinds, float, criticality, deadline warnings, the critical path),
  earned-value period selection, resource report windows and periods, snapshot
  file names, the store's table schemas and the per-project session registry.
  Instants are nanoseconds since the Unix epoch and days are chrono day numbers,
  both plain integers; chrono is called through a few trusted wrappers whose
  results are named.
- `app/` is the command-line program around it: JSON input and output, the
  floating-point hour arithmetic, the Monte Carlo simulation, Arrow schemas and
  the DataFusion-backed store.
- `tests/` runs the library on concrete values.
