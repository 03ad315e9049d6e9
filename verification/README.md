# rxray

Deterministic regex worst-case complexity (ReDoS) analysis, verified with Verus.
Given a pattern and a target engine, `rxray` classifies the pattern's worst-case
match complexity under backtracking semantics as linear, polynomial or
exponential, and can synthesize an input that triggers the blowup.

## Layout

- `src/syntax.rs`: the parsed pattern (`Node`) and the call into `regex-syntax`.
- `src/nfa.rs`: the Thompson NFA built from a `Node`, its size estimate, epsilon
  closures, epsilon-free moves and reachability, each specified over
  `NfaModel`.
- `src/simulate.rs`: whole-string simulation of an NFA and its set semantics.
- `src/eda.rs`, `src/ida.rs`: exponential (product automaton) and polynomial
  (triple product) ambiguity detection, with the polynomial degree.
- `src/ambiguity.rs`: the empty-loop rule and severity ordering.
- `src/lang.rs`: the language of a pattern (which strings it matches).
- `src/accept.rs`: the automaton built from a pattern accepts every string the
  pattern matches.
- `src/graph.rs`, `src/prefix.rs`: reachability over adjacency lists, and the
  inputs that lead from the start to each state.
- `src/synth.rs`: attack synthesis and the backtracking step-count model.
- `src/cli.rs`: the command-line program's decisions (options, thresholds,
  exit codes, messages).
- `src/lib.rs`: `analyze` and `attack`, and the laws that tie the pieces
  together.
- `app/main.rs`: the command-line program (argument and stdin reading,
  printing).

## Example

```rust
use rxray::{analyze, ComplexityClass, Engine};

let report = analyze("(a+)+", Engine::Pcre2).unwrap();
assert_eq!(report.worst, ComplexityClass::Exponential);

// Linear-by-construction engines (Rust regex, Go RE2) are never flagged.
let report = analyze("(a+)+", Engine::RustRegex).unwrap();
assert_eq!(report.worst, ComplexityClass::Linear);
```
