# zk_optimization

Arithmetic circuits over the scalar field of Curve25519, as rank-one constraint systems; smaller
systems that compute the same function; and challenges whose solutions are smaller systems with
succinct proofs. The library is verified with Verus.

* `src/` is the verified library. `src/lib.rs` lists its modules.
* `tests/` runs it, with the outside crates linked.
* `app/` is ordinary Rust around it: exchanged forms with serde, generation from a seed, and the
  quality of a solution.

What is trusted: the field arithmetic of curve25519-dalek (`src/scalar.rs`), bincode's encoding
(`src/encoding.rs`), BLAKE3 (`src/crypto.rs`), and Spartan and merlin (`src/spartan.rs`). Each
trusted function says in its documentation what is claimed of it.

What is proved of the library as a whole:

* One forward pass over the rows of a circuit computes what evaluating the circuit computes
  (`dag_laws`).
* A system on which the pass succeeds is a function of its inputs: no two assignments with the same
  inputs satisfy it (`forward_laws`).
* A system with just as many rows as unknowns is satisfied by what the pass finds
  (`forward_laws`).
* Eliminating aliases or scales keeps the relation between inputs and outputs, and keeps the rows
  in evaluation order (`elimination_laws`, `elimination_order`, `circuit_elimination`).
* A solution that is built from such a system is accepted, and the system of an accepted solution
  determines the claimed outputs (`zk_optimization`, `challenge_laws`).
