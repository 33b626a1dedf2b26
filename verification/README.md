# closure

A runtime for non-convergent social deliberation: contact graphs, closure
over considerations, agents whose record never resets, a forum whose posts
carry a direction and never a score, and a square of voices behind which a
character is reassembled rather than looked up.

## Layout

- `src/` is the library, verified with Verus. Every public function states
  what it returns in its contract; where the result comes from an outside
  crate (a seeded draw of `rand`, a SHA-256 digest), the contract states it
  over a named function of that call's inputs. The laws the runtime promises (closure is
  blind to provenance and truth, a terminus does not determine its walk, the
  fingerprint reads only node names, convergence is order-independent and
  idempotent, a blunted contact is sharp for a sibling instance, and others)
  stand as public proof functions beside the code they are about.
  Edge weights are generic: the library decides which positions and contacts
  are involved, and never does arithmetic on a weight.
- `app/` is the program around it: the `closure` command line, and
  `closure serve`, the HTTP host. It holds what the library cannot: file and
  network I/O, serialisation, and every computation on `f64` weights
  (separation costs, cut weights, gaps, attention shares).
- `tests/` exercises the library from outside.
