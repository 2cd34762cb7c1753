# pcb_kit

Verified logic for working with printed circuit boards.

- `src/pinmux` assigns the pins of a microcontroller to what a design asks of it: peripherals and
  pools are declared, requests are read, placed at least cost and reported, and pins are mapped to
  nets.
- `src/netlist` reads what a netlist declares: static currents through passive parts and checks of
  current budgets and signals.
- `src/score` judges a routed board: connectivity, design rules and eleven families of metrics,
  put together in one report.
- The other modules hold what these share: texts, orders, sorted maps, JSON trees, disjoint sets
  and numbers that are carried by their bits.

Everything in `src` is checked by Verus. Arithmetic on measured numbers is done in `app`, which
reads the files, measures the geometry and prints the report; the library gets the measured
numbers as bits and only compares them.

`tests` runs the library on concrete boards, netlists and pin tables.
