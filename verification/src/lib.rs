//! Optimizing arithmetic circuits, with proofs that the outputs stay the same.
//!
//! A circuit is a graph of additions and multiplications in a prime field. It becomes a
//! rank-one constraint system, whose witness one pass over the rows computes. Optimizers
//! make the system smaller by eliminating variables. A solution of a challenge is a smaller
//! system with the outputs of both systems at a point that the hashes of both determine,
//! and a succinct proof for each.
//!
//! * [`field`], [`scalar`]: the field, and its elements.
//! * [`system`], [`r1cs`], [`model_laws`]: constraint systems and their assignments.
//! * [`forward`], [`forward_laws`], [`pass_laws`]: the witness by one pass over the rows.
//! * [`dag`], [`columns`], [`convert`], [`evaluate`], [`dag_laws`], [`circuit_laws`]: circuits,
//!   their constraint systems and their evaluation.
//! * [`elimination`], [`baselines`], [`elimination_laws`], [`elimination_order`],
//!   [`elimination_complete`], [`circuit_elimination`]: smaller systems.
//! * [`encoding`], [`crypto`], [`seed`], [`text`], [`byte_laws`]: encodings, hashes and texts.
//! * [`spartan`]: proofs.
//! * [`circuit`], [`zk`], [`zk_optimization`], [`algorithms`], [`challenge_laws`],
//!   [`acceptance_laws`]: challenges and their solutions.
pub mod acceptance_laws;
pub mod algorithms;
pub mod baselines;
pub mod byte_laws;
pub mod challenge_laws;
pub mod circuit;
pub mod circuit_elimination;
pub mod circuit_laws;
pub mod columns;
pub mod convert;
pub mod crypto;
pub mod dag;
pub mod dag_laws;
pub mod elimination;
pub mod elimination_complete;
pub mod elimination_laws;
pub mod elimination_order;
pub mod encoding;
pub mod evaluate;
pub mod field;
pub mod forward;
pub mod forward_laws;
pub mod model_laws;
pub mod pass_laws;
pub mod r1cs;
pub mod scalar;
pub mod seed;
pub mod spartan;
pub mod system;
pub mod text;
pub mod zk;
pub mod zk_optimization;
