# Dangerous Deliveries

A skateboarding delivery game on a grid map: grind rails, keep your balance,
and bring packages to the skater wearing the right shirt colour.

`src/` is the verified library: the map (`obstacle_table`), its generation
(Voronoi passes, a cellular automaton, tunnels), the L-system reader, the
turn order heap, blocked cells, packages, look mode, the message log and
screen layout decisions, the game's screen flow, and the integer side of
skating (where a fall lands, what a step onto a cell means).  Every function there
carries a contract that Verus proves; the `lemma_*` proof functions state the
laws the pieces keep.

`app/` is the game itself on top of `rltk`: the window, drawing, reading the
settings files (from `raws/` beside the program), and the skating model,
whose speed and balance are floating-point vectors.

`tests/` runs the library on concrete maps and texts.
