# woa

A whale optimisation algorithm for clustering under must-link and
cannot-link constraints.

`src/` is the verified library. Floats are held as their IEEE-754 bit
patterns and compared exactly (`ieee`); on top of that it holds the ranking
of whales (`ranking`), the assignment of points to clusters and the
constraint counts (`assignment`), the bounding box of the data (`bounds`),
the bookkeeping of a run (`search`), the shake of stagnant whales
(`mutation`), and the random generator calls (`random`).

`app/` is the command-line program: reading the data, the floating-point
moves of the whales, the scores, and writing the result as JSON.
