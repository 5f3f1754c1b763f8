//! What is asked of a solution, and what is answered, spelled out.
use crate::circuit::{largest, Circuit};
use crate::crypto::{blake3_wide, encoded_circuit, encoded_instance};
use crate::dag::Graph;
use crate::encoding::le_bytes;
use crate::field::ell;
use crate::forward::{determined, solver_returns};
use crate::r1cs::SpartanInstance;
use crate::scalar::{le_value, values};
use crate::spartan::{
    answer, encodable, entry_fault, fault, fits, fullest, judgeable, lemma_fault, matrix_fault,
    merlin_transcript, provable, refusal, snark_verdict, spartan_assignment, spartan_encoding,
    spartan_gens, spartan_instance, submittable, verdict, InvalidInstance,
};
use crate::system::System;
use crate::zk;
use crate::zk_optimization::{Challenge, ChallengeError, Solution};
use libspartan::SNARK;
use vstd::prelude::*;
use vstd::string::StringSliceAdditionalSpecFns;

verus! {

// Proofs.

/// A proof is judged by the verifier of Spartan, against the commitment to the system of the
/// statement under parameters of its size, its public values, and a fresh transcript with
/// the label.
pub proof fn law_verdict(proof: SNARK, sys: System, io: Seq<int>, label: Seq<u8>)
    ensures
        ({
            let inst = spartan_instance(
                sys.num_cons,
                sys.num_vars,
                sys.num_inputs,
                sys.a,
                sys.b,
                sys.c,
            );
            let gens = spartan_gens(sys.num_cons, sys.num_vars, sys.num_inputs, fullest(sys));
            let said = snark_verdict(
                proof,
                spartan_encoding(inst, gens).0,
                spartan_assignment(io),
                merlin_transcript(label),
                gens,
            );
            &&& verdict(proof, sys, io, label) == Some(true) <==> said == Some(
                Ok::<(), Seq<char>>(()),
            )
            &&& verdict(proof, sys, io, label) == Some(false) <==> said == Some(
                Err::<(), Seq<char>>(refusal(proof, sys, io, label)),
            )
            &&& verdict(proof, sys, io, label) is None <==> said is None
        }),
{
    match answer(proof, sys, io, label) {
        Some(Ok(u)) => {
            assert(u == ());
        },
        Some(Err(e)) => {
            assert(refusal(proof, sys, io, label) == e);
        },
        None => {},
    }
}

/// The size of the fullest matrix is the largest of the three sizes.
pub proof fn law_fullest(sys: System)
    ensures
        sys.a.len() <= fullest(sys),
        sys.b.len() <= fullest(sys),
        sys.c.len() <= fullest(sys),
        fullest(sys) == sys.a.len() || fullest(sys) == sys.b.len() || fullest(sys) == sys.c.len(),
{
}

/// The largest of three numbers is one of them, and none is larger.
pub proof fn law_largest(a: nat, b: nat, c: nat)
    ensures
        a <= largest(a, b, c) && b <= largest(a, b, c) && c <= largest(a, b, c),
        largest(a, b, c) == a || largest(a, b, c) == b || largest(a, b, c) == c,
{
}

/// Which systems can be committed to, proved, judged and submitted.
pub proof fn law_sizes(sys: System)
    ensures
        ({
            let limit = usize::MAX as int / 0x1000;
            let small = sys.num_cons <= limit && sys.num_vars <= limit && sys.num_inputs < limit
                && sys.a.len() <= limit && sys.b.len() <= limit && sys.c.len() <= limit;
            let two = 2 <= sys.a.len() || 2 <= sys.b.len() || 2 <= sys.c.len();
            &&& fits(sys) <==> small
            &&& encodable(sys) <==> small && (2 <= sys.num_cons || (sys.num_cons == 1 && two))
            &&& provable(sys) <==> small && 1 <= sys.num_cons && two
            &&& judgeable(sys) <==> small && (sys.entries_valid() ==> encodable(sys))
            &&& submittable(sys) <==> small && (sys.entries_valid() ==> provable(sys))
        }),
{
}

proof fn lemma_first_entry(m: Seq<(int, int, int)>, rows: nat, cols: nat, i: int)
    requires
        0 <= i < m.len(),
        forall|k: int|
            0 <= k < i ==> 0 <= (#[trigger] m[k]).0 < rows && 0 <= m[k].1 < cols && 0 <= m[k].2
                < ell(),
        !(0 <= m[i].0 < rows && 0 <= m[i].1 < cols && 0 <= m[i].2 < ell()),
    ensures
        matrix_fault(m, rows, cols) == entry_fault(m[i], rows, cols),
        matrix_fault(m, rows, cols) is Some,
    decreases m.len(),
{
    let d = m.drop_last();
    if i < d.len() {
        assert forall|k: int| 0 <= k < i implies 0 <= (#[trigger] d[k]).0 < rows && 0 <= d[k].1
            < cols && 0 <= d[k].2 < ell() by {
            assert(d[k] == m[k]);
        }
        lemma_first_entry(d, rows, cols, i);
    } else {
        assert forall|k: int| 0 <= k < d.len() implies 0 <= (#[trigger] d[k]).0 < rows && 0
            <= d[k].1 < cols && 0 <= d[k].2 < ell() by {
            assert(d[k] == m[k]);
        }
        lemma_no_entry(d, rows, cols);
    }
}

proof fn lemma_no_entry(m: Seq<(int, int, int)>, rows: nat, cols: nat)
    requires
        forall|k: int|
            0 <= k < m.len() ==> 0 <= (#[trigger] m[k]).0 < rows && 0 <= m[k].1 < cols && 0
                <= m[k].2 < ell(),
    ensures
        matrix_fault(m, rows, cols) is None,
    decreases m.len(),
{
    if m.len() > 0 {
        let d = m.drop_last();
        assert forall|k: int| 0 <= k < d.len() implies 0 <= (#[trigger] d[k]).0 < rows && 0
            <= d[k].1 < cols && 0 <= d[k].2 < ell() by {
            assert(d[k] == m[k]);
        }
        lemma_no_entry(d, rows, cols);
        assert(m[m.len() - 1] == m.last());
    }
}

/// The first faulty entry of the three matrices in turn decides why a system is refused: an
/// index out of range counts before a coefficient that is not reduced.
pub proof fn law_first_fault(sys: System, which: int, i: int)
    requires
        0 <= which < 3,
        ({
            let cols = sys.num_vars + 1 + sys.num_inputs;
            let m = [sys.a, sys.b, sys.c]@;
            &&& 0 <= i < m[which].len()
            &&& forall|w: int, k: int|
                0 <= w <= which && 0 <= k < m[w].len() && (w < which || k < i) ==> {
                    &&& 0 <= (#[trigger] m[w][k]).0 < sys.num_cons
                    &&& 0 <= m[w][k].1 < cols
                    &&& 0 <= m[w][k].2 < ell()
                }
            &&& !(0 <= m[which][i].0 < sys.num_cons && 0 <= m[which][i].1 < cols && 0
                <= m[which][i].2 < ell())
        }),
    ensures
        ({
            let cols = sys.num_vars + 1 + sys.num_inputs;
            let e = [sys.a, sys.b, sys.c]@[which][i];
            fault(sys) == Some(
                if 0 <= e.0 < sys.num_cons && 0 <= e.1 < cols {
                    InvalidInstance::InvalidScalar
                } else {
                    InvalidInstance::InvalidIndex
                },
            )
        }),
{
    let cols = (sys.num_vars + 1 + sys.num_inputs) as nat;
    let m = [sys.a, sys.b, sys.c]@;
    assert(m[0] == sys.a && m[1] == sys.b && m[2] == sys.c);
    assert forall|w: int| 0 <= w < which implies matrix_fault(
        #[trigger] m[w],
        sys.num_cons,
        cols,
    ) is None by {
        assert forall|k: int| 0 <= k < m[w].len() implies 0 <= (#[trigger] m[w][k]).0
            < sys.num_cons && 0 <= m[w][k].1 < cols && 0 <= m[w][k].2 < ell() by {}
        lemma_no_entry(m[w], sys.num_cons, cols);
    }
    lemma_first_entry(m[which], sys.num_cons, cols, i);
    assert(which > 0 ==> matrix_fault(m[0], sys.num_cons, cols) is None);
    assert(which > 1 ==> matrix_fault(m[1], sys.num_cons, cols) is None);
}

/// A system without a faulty entry is not refused.
pub proof fn law_no_fault(sys: System)
    ensures
        fault(sys) is None <==> {
            let cols = sys.num_vars + 1 + sys.num_inputs;
            &&& forall|k: int|
                0 <= k < sys.a.len() ==> 0 <= (#[trigger] sys.a[k]).0 < sys.num_cons && 0
                    <= sys.a[k].1 < cols && 0 <= sys.a[k].2 < ell()
            &&& forall|k: int|
                0 <= k < sys.b.len() ==> 0 <= (#[trigger] sys.b[k]).0 < sys.num_cons && 0
                    <= sys.b[k].1 < cols && 0 <= sys.b[k].2 < ell()
            &&& forall|k: int|
                0 <= k < sys.c.len() ==> 0 <= (#[trigger] sys.c[k]).0 < sys.num_cons && 0
                    <= sys.c[k].1 < cols && 0 <= sys.c[k].2 < ell()
        },
{
    lemma_fault(sys);
}

// The point of comparison.

/// Each coordinate of the point is hashed from the hashes of both circuits and its index.
pub proof fn law_point(challenge: &Challenge, star: &SpartanInstance, i: int)
    requires
        0 <= i < challenge.num_circuit_inputs,
    ensures
        challenge.point(star).len() == challenge.num_circuit_inputs,
        challenge.point(star)[i] == le_value(
            blake3_wide(
                blake3_wide(
                    blake3_wide(encoded_instance(&challenge.circuit_c0)) + blake3_wide(
                        encoded_instance(star),
                    ),
                ) + le_bytes(i, 8),
            ),
        ) % ell(),
{
}

/// Each coordinate of the point is hashed from the hashes of both circuits and its index.
pub proof fn law_zk_point(challenge: &zk::Challenge, star: &Circuit, i: int)
    requires
        0 <= i < challenge.num_circuit_inputs,
    ensures
        challenge.point(star).len() == challenge.num_circuit_inputs,
        challenge.point(star)[i] == le_value(
            blake3_wide(
                blake3_wide(
                    blake3_wide(encoded_circuit(&challenge.circuit_c0)) + blake3_wide(
                        encoded_circuit(star),
                    ),
                ) + le_bytes(i, 8),
            ),
        ) % ell(),
{
}

// Answers.

/// Which answer a solution gets, where it is judged by its size, its outputs and its proofs.
/// It is accepted exactly when the circuit is smaller, the claimed outputs agree, and the
/// verifier accepts the proof of each circuit for its claimed outputs at the point, under
/// its own label. Otherwise the first of these that fails is told.
pub proof fn law_zk_answers(
    challenge: &zk::Challenge,
    s: &zk::Solution,
    point: Seq<int>,
    r: Result<(), ChallengeError>,
)
    requires
        challenge.reports(s, point, r),
    ensures
        ({
            let no = challenge.num_circuit_outputs as nat;
            let c0 = challenge.circuit_c0.system(no);
            let star = s.circuit_star.system(no);
            let (y0, y1) = (values(s.y0_pub@), values(s.y_star_pub@));
            let (l0, l1) = ("ZKChallenge_C0".spec_bytes(), "ZKChallenge_Cstar".spec_bytes());
            let v0 = verdict(s.proof0, c0, y0 + point, l0);
            let v1 = verdict(s.proof_star, star, y1 + point, l1);
            let smaller = s.circuit_star.num_cons < challenge.circuit_c0.num_cons;
            let compared = smaller && y0 == y1;
            let proved = compared && c0.entries_valid() && v0 == Some(true);
            &&& r is Ok <==> proved && star.entries_valid() && v1 == Some(true)
            &&& !smaller <==> r == Err::<(), ChallengeError>(
                ChallengeError::NotSmaller {
                    num_cons: s.circuit_star.num_cons,
                    limit: challenge.circuit_c0.num_cons,
                },
            )
            &&& smaller && y0 != y1 <==> r == Err::<(), ChallengeError>(
                ChallengeError::OutputMismatch,
            )
            &&& compared && !c0.entries_valid() <==> (r matches Err(
                ChallengeError::InvalidBaseline(f),
            ) && fault(c0) == Some(f))
            &&& compared && c0.entries_valid() && v0 != Some(true) <==> (r matches Err(
                ChallengeError::ProofRejected(t),
            ) && t@ == refusal(s.proof0, c0, y0 + point, l0))
            &&& proved && !star.entries_valid() <==> (r matches Err(
                ChallengeError::InvalidOptimized(f),
            ) && fault(star) == Some(f))
            &&& proved && star.entries_valid() && v1 != Some(true) <==> (r matches Err(
                ChallengeError::StarProofRejected(t),
            ) && t@ == refusal(s.proof_star, star, y1 + point, l1))
        }),
{
}

/// Which answer a solution gets. It is accepted exactly when the circuit is smaller and of
/// the same shape, determines values that satisfy it and the claimed outputs, when the
/// claimed outputs agree, and when the verifier accepts the proof of each circuit for its
/// claimed outputs at the point, under its own label. Otherwise the first of these that
/// fails is told.
pub proof fn law_answers(
    challenge: &Challenge,
    s: &Solution,
    point: Seq<int>,
    r: Result<usize, ChallengeError>,
)
    requires
        point == challenge.point(&s.circuit_star),
        match r {
            Ok(n) => challenge.outcome(s) is Accepted,
            Err(e) => challenge.reports(s, point, e, challenge.outcome(s)),
        },
    ensures
        ({
            let no = challenge.num_circuit_outputs as nat;
            let c0 = challenge.circuit_c0@;
            let star = s.circuit_star@;
            let first = s.circuit_star.num_vars + 1;
            let z = determined(star, no, point);
            let (y0, y1) = (values(s.y0_pub@), values(s.y_star_pub@));
            let (l0, l1) = ("ZKChallenge_C0".spec_bytes(), "ZKChallenge_Cstar".spec_bytes());
            let v0 = verdict(s.proof0, c0, y0 + point, l0);
            let v1 = verdict(s.proof_star, star, y1 + point, l1);
            let smaller = s.circuit_star.num_cons < challenge.circuit_c0.num_cons;
            let shaped = smaller && s.circuit_star.num_inputs == challenge.circuit_c0.num_inputs
                && s.circuit_star.num_outputs == challenge.num_circuit_outputs;
            let solved = shaped && z is Some && star.satisfied(z->0);
            let bound = solved && z->0.subrange(first, first + no) == y1;
            let proved = bound && y0 == y1 && c0.entries_valid() && v0 == Some(true);
            &&& r is Ok <==> proved && v1 == Some(true)
            &&& !smaller <==> (r matches Err(e) && e == (ChallengeError::NotSmaller {
                num_cons: s.circuit_star.num_cons,
                limit: challenge.circuit_c0.num_cons,
            }))
            &&& smaller && !shaped <==> (r matches Err(e) && e == (ChallengeError::OtherShape {
                num_inputs: s.circuit_star.num_inputs,
                num_outputs: s.circuit_star.num_outputs,
                expected_inputs: challenge.circuit_c0.num_inputs,
                expected_outputs: challenge.num_circuit_outputs,
            }))
            &&& shaped && z is None <==> (r matches Err(ChallengeError::NotAFunction(w))
                && solver_returns(star, no, point, Err(w)))
            &&& shaped && z is Some && !solved <==> (r matches Err(e) && e is Unsatisfied)
            &&& solved && !bound <==> (r matches Err(e) && e is WrongOutputs)
            &&& bound && y0 != y1 <==> (r matches Err(e) && e is OutputMismatch)
            &&& bound && y0 == y1 && !c0.entries_valid() <==> (r matches Err(
                ChallengeError::InvalidBaseline(f),
            ) && fault(c0) == Some(f))
            &&& bound && y0 == y1 && c0.entries_valid() && v0 != Some(true) <==> (r matches Err(
                ChallengeError::ProofRejected(t),
            ) && t@ == refusal(s.proof0, c0, y0 + point, l0))
            &&& proved && v1 != Some(true) <==> (r matches Err(ChallengeError::StarProofRejected(t))
                && t@ == refusal(s.proof_star, star, y1 + point, l1))
        }),
{
}

// Solutions.

/// A solution that was built holds the optimized circuit, the outputs of both circuits at
/// the point, and a proof of each, which the verifier accepts where the statement is true.
pub proof fn law_solution_built(
    challenge: &Challenge,
    circuit_star: &SpartanInstance,
    g: Graph,
    point: Seq<int>,
    z: Seq<int>,
    s: &Solution,
)
    requires
        challenge.built(circuit_star, g, point, s),
        challenge.made_of(g),
        determined(circuit_star@, challenge.num_circuit_outputs as nat, point) == Some(z),
        z.len() == circuit_star.num_vars + 1 + circuit_star.num_inputs,
        challenge.num_circuit_outputs <= circuit_star.num_inputs,
    ensures
        s.circuit_star@ == circuit_star@,
        s.y0_pub@.len() == challenge.num_circuit_outputs,
        s.y_star_pub@.len() == challenge.num_circuit_outputs,
        forall|k: int|
            0 <= k < challenge.num_circuit_outputs ==> (#[trigger] s.y0_pub@[k])@ == g.value(
                point,
                k,
            ),
        forall|k: int|
            0 <= k < challenge.num_circuit_outputs ==> (#[trigger] s.y_star_pub@[k])@
                == z[circuit_star.num_vars + 1 + k],
        verdict(
            s.proof0,
            challenge.circuit_c0@,
            values(s.y0_pub@) + point,
            "ZKChallenge_C0".spec_bytes(),
        ) == Some(true),
        circuit_star@.satisfied(z) ==> verdict(
            s.proof_star,
            circuit_star@,
            z.skip(circuit_star.num_vars + 1),
            "ZKChallenge_Cstar".spec_bytes(),
        ) == Some(true),
{
    let no = challenge.num_circuit_outputs as int;
    let first = circuit_star.num_vars + 1;
    assert(values(s.y0_pub@) + point =~= g.public_values(point));
    assert(values(s.y0_pub@).len() == no);
    assert(values(s.y_star_pub@).len() == no);
    assert forall|k: int| 0 <= k < no implies (#[trigger] s.y0_pub@[k])@ == g.value(point, k) by {
        assert(values(s.y0_pub@)[k] == s.y0_pub@[k]@);
    }
    assert forall|k: int| 0 <= k < no implies (#[trigger] s.y_star_pub@[k])@ == z[first + k] by {
        assert(values(s.y_star_pub@)[k] == s.y_star_pub@[k]@);
    }
}

/// A solution that was assembled from a witness of the optimized circuit holds the outputs of
/// both circuits at the point, and a proof of each, which the verifier accepts where the
/// statement is true.
pub proof fn law_solution_assembled(
    challenge: &zk::Challenge,
    g: Graph,
    point: Seq<int>,
    vars_star: Seq<int>,
    io_star: Seq<int>,
    s: &zk::Solution,
)
    requires
        challenge.built(g, point, vars_star, io_star, s),
        challenge.made_of(g),
        challenge.num_circuit_outputs <= io_star.len(),
    ensures
        s.y0_pub@.len() == challenge.num_circuit_outputs,
        s.y_star_pub@.len() == challenge.num_circuit_outputs,
        forall|k: int|
            0 <= k < challenge.num_circuit_outputs ==> (#[trigger] s.y0_pub@[k])@ == g.value(
                point,
                k,
            ),
        forall|k: int|
            0 <= k < challenge.num_circuit_outputs ==> (#[trigger] s.y_star_pub@[k])@ == io_star[k],
        verdict(
            s.proof0,
            challenge.circuit_c0.system(challenge.num_circuit_outputs as nat),
            values(s.y0_pub@) + point,
            "ZKChallenge_C0".spec_bytes(),
        ) == Some(true),
        s.circuit_star.system(challenge.num_circuit_outputs as nat).satisfied(
            vars_star + seq![1int] + io_star,
        ) ==> verdict(
            s.proof_star,
            s.circuit_star.system(challenge.num_circuit_outputs as nat),
            io_star,
            "ZKChallenge_Cstar".spec_bytes(),
        ) == Some(true),
{
    let no = challenge.num_circuit_outputs as int;
    assert(values(s.y0_pub@) + point =~= g.public_values(point));
    assert(values(s.y0_pub@).len() == no);
    assert(values(s.y_star_pub@).len() == no);
    assert forall|k: int| 0 <= k < no implies (#[trigger] s.y0_pub@[k])@ == g.value(point, k) by {
        assert(values(s.y0_pub@)[k] == s.y0_pub@[k]@);
    }
    assert forall|k: int| 0 <= k < no implies (#[trigger] s.y_star_pub@[k])@ == io_star[k] by {
        assert(values(s.y_star_pub@)[k] == s.y_star_pub@[k]@);
    }
}

} // verus!
