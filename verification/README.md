# cloth_sim

A cloth simulator built on verlet integration: mass points joined by sticks,
cut with the mouse, snapped when stretched too far, dragged, pinned, and woven
into a cloth with one key.

`src/` is the verified library. It keeps the structure of the cloth (which
points exist, which sticks join them, how many stick ends rest on each point,
which tool is active, what is selected and what is being drawn) and proves,
for every operation, what it does to that structure. Positions and lengths are
type parameters: the geometry is handed in as closures, and the contracts say
how their answers are used.

- `cloth.rs`: the points, the sticks, the cloth and its invariant; adding and
  removing sticks, deleting the points that lost their last stick, snapping
  and cutting.
- `degree.rs`: the number of stick ends on a point, and how it changes.
- `grid.rs`, `weave.rs`: the woven cloth of the G key and the all-pairs
  joining of the T key.
- `tools.rs`: the input rules of a frame, the search for the point nearest
  the mouse, and the hand, place, force and stick-drawing tools.
- `physics.rs`: one frame of integration, relaxation and bouncing.
- `symbols.rs`: the symbol of the active tool and its frame.
- `audio.rs`: the tick pattern of the sound effect.
- `laws.rs`: properties that relate several operations.

`app/` holds the program around it: the window and its input, the clock, the
floating-point geometry, drawing and sound.
