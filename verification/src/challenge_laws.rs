//! What the challenge guarantees.
use crate::circuit_elimination::{
    computes_outputs, law_aliases_and_scales_removed, law_aliases_removed,
};
use crate::circuit::Circuit;
use crate::crypto::hash_scalars;
use crate::dag::Graph;
use crate::dag_laws::reduced;
use crate::elimination::{eliminated, has_definitions, Kind};
use crate::elimination_laws::{law_elimination_shrinks, public_part};
use crate::field::{cong, ell, lemma_mod_range};
use crate::forward::determined;
use crate::forward_laws::{has_inputs, law_unique_witness, lemma_determined};
use crate::r1cs::SpartanInstance;
use crate::scalar::{le_value, values};
use crate::system::{forward, Partial, Pass};
use crate::zk;
use crate::zk_optimization::{Challenge, Solution};
use vstd::prelude::*;

verus! {

/// The circuit of an accepted solution is smaller, and it computes the claimed outputs:
/// whatever satisfies it with the inputs of the point has these outputs.
pub proof fn law_accepted_outputs(challenge: &Challenge, s: &Solution, z: Seq<int>)
    requires
        challenge.outcome(s) is Accepted,
        s.circuit_star@.satisfied(z),
        has_inputs(
            s.circuit_star@,
            challenge.num_circuit_outputs as nat,
            challenge.point(&s.circuit_star),
            z,
        ),
    ensures
        s.circuit_star.num_cons < challenge.circuit_c0.num_cons,
        values(s.y0_pub@) == values(s.y_star_pub@),
        s.y_star_pub@.len() == challenge.num_circuit_outputs,
        forall|k: int|
            0 <= k < challenge.num_circuit_outputs ==> cong(
                #[trigger] z[s.circuit_star.num_vars + 1 + k],
                values(s.y_star_pub@)[k],
            ),
{
    let star = s.circuit_star@;
    let no = challenge.num_circuit_outputs as nat;
    let point = challenge.point(&s.circuit_star);
    let first = s.circuit_star.num_vars + 1;
    lemma_determined(star, no, point);
    let w = determined(star, no, point)->0;
    assert(values(s.y_star_pub@).len() == challenge.num_circuit_outputs);
    if let Pass::Running(p) = forward(star, no, point, star.num_cons) {
        law_unique_witness(star, no, point, p, z);
        assert forall|k: int| 0 <= k < challenge.num_circuit_outputs implies cong(
            #[trigger] z[first + k],
            values(s.y_star_pub@)[k],
        ) by {
            assert(cong(z[first + k], p.z[first + k]));
            assert(w.subrange(first, first + challenge.num_circuit_outputs)[k] == p.z[first + k]);
        }
    }
}

/// An accepted solution has a satisfying assignment with the inputs of the point and the
/// claimed outputs.
pub proof fn law_accepted_satisfiable(challenge: &Challenge, s: &Solution) -> (z: Seq<int>)
    requires
        challenge.outcome(s) is Accepted,
    ensures
        s.circuit_star@.satisfied(z),
        z.skip(s.circuit_star.num_vars + 1) == values(s.y0_pub@) + challenge.point(&s.circuit_star),
{
    let star = s.circuit_star@;
    let no = challenge.num_circuit_outputs as nat;
    let point = challenge.point(&s.circuit_star);
    let first = s.circuit_star.num_vars + 1;
    let z = determined(star, no, point)->0;
    lemma_determined(star, no, point);
    crate::forward_laws::lemma_determined_inputs(star, no, point);
    assert(z.skip(first) =~= values(s.y0_pub@) + point);
    z
}

proof fn lemma_point_reduced(hash: Seq<u8>, count: nat)
    ensures
        reduced(hash_scalars(hash, count)),
{
    assert forall|i: int| 0 <= i < count implies 0 <= #[trigger] hash_scalars(hash, count)[i]
        < ell() by {
        lemma_mod_range(
            le_value(crate::crypto::blake3_wide(hash + crate::encoding::le_bytes(i, 8))),
        );
    }
}

/// A circuit that gives the outputs of the baseline in one forward pass, and is smaller, is
/// accepted.
proof fn lemma_optimized_accepted(
    challenge: &Challenge,
    star: &SpartanInstance,
    g: Graph,
    point: Seq<int>,
    q: Partial,
)
    requires
        challenge.made_of(g),
        g.evaluable(),
        point.len() == g.num_free_inputs(),
        star.num_cons < challenge.circuit_c0.num_cons,
        computes_outputs(g, star@, point, q),
    ensures
        challenge.honest_outcome(star, g, point) is Accepted,
{
    let first = star.num_vars + 1;
    assert(determined(star@, challenge.num_circuit_outputs as nat, point) == Some(q.z));
    lemma_determined(star@, challenge.num_circuit_outputs as nat, point);
    assert(q.z.subrange(first, first + challenge.num_circuit_outputs) =~= public_part(
        star@,
        q.z,
    ).take(g.num_outputs as int));
}

/// Removing the aliases of a circuit that has some solves its challenge, whatever the point
/// of comparison turns out to be.
pub proof fn law_aliases_removed_accepted(
    challenge: &Challenge,
    star: &SpartanInstance,
    g: Graph,
)
    requires
        challenge.made_of(g),
        g.evaluable(),
        g.z_len() <= usize::MAX,
        has_definitions(Kind::Alias, g.system()),
        star@ == eliminated(Kind::Alias, g.system()),
    ensures
        challenge.honest_outcome(star, g, challenge.point(star)) is Accepted,
{
    let point = challenge.point(star);
    lemma_point(challenge, star);
    let q = law_aliases_removed(g, point);
    law_elimination_shrinks(Kind::Alias, g.system());
    lemma_optimized_accepted(challenge, star, g, point, q);
}

/// Removing the aliases of a circuit, and then the scales, solves its challenge where one of
/// the two finds something, whatever the point of comparison turns out to be.
pub proof fn law_aliases_and_scales_removed_accepted(
    challenge: &Challenge,
    star: &SpartanInstance,
    g: Graph,
)
    requires
        challenge.made_of(g),
        g.evaluable(),
        g.z_len() <= usize::MAX,
        has_definitions(Kind::Alias, g.system()) || has_definitions(
            Kind::Scale,
            eliminated(Kind::Alias, g.system()),
        ),
        star@ == eliminated(Kind::Scale, eliminated(Kind::Alias, g.system())),
    ensures
        challenge.honest_outcome(star, g, challenge.point(star)) is Accepted,
{
    let point = challenge.point(star);
    lemma_point(challenge, star);
    let q = law_aliases_and_scales_removed(g, point);
    law_elimination_shrinks(Kind::Alias, g.system());
    law_elimination_shrinks(Kind::Scale, eliminated(Kind::Alias, g.system()));
    lemma_optimized_accepted(challenge, star, g, point, q);
}

/// The point consists of reduced field elements, one for each input.
pub proof fn lemma_point(challenge: &Challenge, star: &SpartanInstance)
    ensures
        reduced(challenge.point(star)),
        challenge.point(star).len() == challenge.num_circuit_inputs,
{
    let first = crate::crypto::blake3_wide(crate::crypto::encoded_instance(&challenge.circuit_c0));
    let second = crate::crypto::blake3_wide(crate::crypto::encoded_instance(star));
    lemma_point_reduced(
        crate::crypto::blake3_wide(first + second),
        challenge.num_circuit_inputs as nat,
    );
}

/// The point consists of reduced field elements, one for each input.
proof fn lemma_zk_point(challenge: &zk::Challenge, star: &Circuit)
    ensures
        reduced(challenge.point(star)),
        challenge.point(star).len() == challenge.num_circuit_inputs,
{
    let first = crate::crypto::blake3_wide(crate::crypto::encoded_circuit(&challenge.circuit_c0));
    let second = crate::crypto::blake3_wide(crate::crypto::encoded_circuit(star));
    lemma_point_reduced(
        crate::crypto::blake3_wide(first + second),
        challenge.num_circuit_inputs as nat,
    );
}

/// A circuit that gives the outputs of the baseline in one forward pass, and is smaller, is
/// accepted where solutions are judged by their size, their outputs and their proofs.
proof fn lemma_zk_optimized_accepted(
    challenge: &zk::Challenge,
    star: &Circuit,
    g: Graph,
    point: Seq<int>,
    q: Partial,
)
    requires
        challenge.made_of(g),
        g.evaluable(),
        point.len() == g.num_free_inputs(),
        star.num_cons < challenge.circuit_c0.num_cons,
        computes_outputs(g, star.system(g.num_outputs), point, q),
    ensures
        challenge.honest_outcome(star, g, point) is Accepted,
{
    let sys = star.system(g.num_outputs);
    let first = star.num_vars + 1;
    assert(determined(sys, g.num_outputs, point) == Some(q.z));
    lemma_determined(sys, g.num_outputs, point);
    assert(q.z.subrange(first, first + g.num_outputs) =~= public_part(sys, q.z).take(
        g.num_outputs as int,
    ));
}

/// Removing the aliases of a circuit that has some solves its challenge, whatever the point
/// of comparison turns out to be, where solutions are judged by their size, their outputs and
/// their proofs.
pub proof fn law_zk_aliases_removed_accepted(challenge: &zk::Challenge, star: &Circuit, g: Graph)
    requires
        challenge.made_of(g),
        g.evaluable(),
        g.z_len() <= usize::MAX,
        has_definitions(Kind::Alias, g.system()),
        star.system(g.num_outputs) == eliminated(Kind::Alias, g.system()),
    ensures
        challenge.honest_outcome(star, g, challenge.point(star)) is Accepted,
{
    let point = challenge.point(star);
    lemma_zk_point(challenge, star);
    let q = law_aliases_removed(g, point);
    law_elimination_shrinks(Kind::Alias, g.system());
    lemma_zk_optimized_accepted(challenge, star, g, point, q);
}

/// Removing the aliases of a circuit, and then the scales, solves its challenge where one of
/// the two finds something, whatever the point of comparison turns out to be, where solutions
/// are judged by their size, their outputs and their proofs.
pub proof fn law_zk_aliases_and_scales_removed_accepted(
    challenge: &zk::Challenge,
    star: &Circuit,
    g: Graph,
)
    requires
        challenge.made_of(g),
        g.evaluable(),
        g.z_len() <= usize::MAX,
        has_definitions(Kind::Alias, g.system()) || has_definitions(
            Kind::Scale,
            eliminated(Kind::Alias, g.system()),
        ),
        star.system(g.num_outputs) == eliminated(
            Kind::Scale,
            eliminated(Kind::Alias, g.system()),
        ),
    ensures
        challenge.honest_outcome(star, g, challenge.point(star)) is Accepted,
{
    let point = challenge.point(star);
    lemma_zk_point(challenge, star);
    let q = law_aliases_and_scales_removed(g, point);
    law_elimination_shrinks(Kind::Alias, g.system());
    law_elimination_shrinks(Kind::Scale, eliminated(Kind::Alias, g.system()));
    lemma_zk_optimized_accepted(challenge, star, g, point, q);
}

} // verus!
