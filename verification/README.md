# paredros

A small game's rules, proved: who a person is and who the player is being,
why a companion says yes, no, or not like that, where people live and why,
one sortie out and back, and the room probe's replay discipline.

The library is written in Verus. Every public function states what it
returns or changes, and the properties that span functions are public proof
functions named `law_*`.

## Layout

- `src/identity`: subjects, body revisions, facets and offices, and the
  control pointer whose log replays to the same state.
- `src/keyed.rs`: an ordered map keyed by integers, iteration order part of
  its contract.
- `src/social`: the deed log, standings folded out of it, confidence, the
  weighing that answers an offer, standing agreements through their whole
  life, settlements whose residence is derived from agreements, the
  epistemic log of observations, claims, reports and corrections, and the
  scenes that exercise them.
- `src/room`: the frame-health gate, the carved chamber and the hillside hunt
  for it, the probe's trace and its save discipline, the residency policy
  that pages bricks under a budget, the receipts the headed probes
  write, and the judgments a continuous-zoom trace draws from its frames.
- `src/sortie`: walking toward a goal one terrain step at a time, the parts
  negotiated at departure, and the sortie machine: each tick asks the
  terrain for steps and digs and hands the answers back.
- `tests/`: the scenes and laws on concrete values, with small terrains of
  their own standing in for the grown world.
- `app/`: the programs around the library: the printed scenes, the grown
  world's glue, the replay receipts, and the headed window.
