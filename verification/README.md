# laytext

Line and block layout detection on character boxes: characters are grouped
into lines, the page is cut into regions by a recursive X-Y cut, lines are
merged into blocks within each region, and blocks are numbered in reading
order.

## Layout

- `src/` is the verified library. It holds the grouping, ordering and
  selection rules of the pipeline, on integers, booleans and order keys,
  each with a contract:
  - `blocks`: the disjoint-set forest (`find`, `union`), which pairs of
    lines may merge (only lines of one direction, `neighbour_pairs`), the
    connected components of that relation (`block_groups`), and the
    tabular-block rule;
  - `lines`: which consecutive characters form a line, and its direction;
  - `geometry`: ordering intervals by start, merging them into runs and
    the gaps between runs (`interval_gaps`); for well-formed intervals
    these are exactly the maximal empty spans, and their coordinates do not
    depend on the input order unless a reversed interval shares its start
    with another interval;
  - `segmentation`: the full-width banding rule and its priority over a
    whitespace cut (`first_cut`), the choice of cut axis, and the region
    tree with its leaves in reading order;
  - `skew`: which character bands are large enough to fit an angle, and
    how many fitted bands a page estimate needs;
  - `ordering`: stable ordering by keys, rearranging by such an order,
    last-greatest selection, runs and counts.
- `app/` is the Python extension module (PyO3) and the floating-point
  geometry: rectangles, distances, overlaps, medians and fits compute on
  `f64` there, and are turned into booleans and order keys for the library.
  A float is turned into an order key that compares as `f64::total_cmp`
  does.
- `tests/` exercises the library.
