//! Solvers of the optimization challenge.
use crate::baselines::remove_aliases;
use crate::challenge_laws::lemma_point;
use crate::circuit_elimination::{law_aliases_removed, law_circuit_eliminable};
use crate::dag::DAG;
use crate::elimination::{eliminable, eliminated, Kind};
use crate::elimination_laws::law_elimination_shrinks;
use crate::r1cs::SpartanInstance;
use crate::spartan::provable;
use crate::zk_optimization::{Challenge, ChallengeError, Solution};
use vstd::prelude::*;

verus! {

/// Removes the aliases of a circuit.
pub fn optimize(c0: &SpartanInstance) -> (r: SpartanInstance)
    requires
        eliminable(Kind::Alias, c0@),
    ensures
        r@ == eliminated(Kind::Alias, c0@),
{
    remove_aliases(c0)
}

/// Solves a challenge by removing the aliases of its circuit.
pub fn solve_challenge(challenge: &Challenge, dag: &DAG) -> (r: Result<
    Option<Solution>,
    ChallengeError,
>)
    requires
        dag.wf(),
        dag@.evaluable(),
        challenge.made_of(dag@),
        provable(dag@.system()),
        provable(eliminated(Kind::Alias, dag@.system())),
    ensures
        r matches Ok(Some(s)) && {
            &&& s.circuit_star@ == eliminated(Kind::Alias, dag@.system())
            &&& challenge.built(&s.circuit_star, dag@, challenge.point(&s.circuit_star), &s)
        },
{
    proof {
        crate::dag_laws::lemma_evaluable_closed(dag@);
        law_circuit_eliminable(dag@);
        law_elimination_shrinks(Kind::Alias, dag@.system());
    }
    let circuit_star = optimize(&challenge.circuit_c0);
    proof {
        lemma_point(challenge, &circuit_star);
        let q = law_aliases_removed(dag@, challenge.point(&circuit_star));
    }
    match challenge.build_solution(&circuit_star, dag) {
        Ok(s) => Ok(Some(s)),
        Err(e) => Err(e),
    }
}

} // verus!
