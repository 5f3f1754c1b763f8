//! Eliminating variables from the constraint systems of circuits.
use crate::dag::Graph;
use crate::dag_laws::{
    law_circuit_valid, law_forward_evaluates, law_witness_satisfies, lemma_evaluable_closed,
    lemma_forward_reduced, lemma_system_entries, lemma_witness_reduced, reduced,
};
use crate::elimination::{eliminable, eliminated, Kind};
use crate::elimination_laws::{
    accepts, law_elimination_keeps_function, law_elimination_keeps_witnesses, project, public_part,
};
use crate::elimination_order::{law_eliminable, law_elimination_keeps_order};
use crate::field::{cong, ell, lemma_cong_reduced};
use crate::forward_laws::{has_inputs, lemma_forward_shape};
use crate::system::{complete, forward, Partial, Pass, System};
use vstd::prelude::*;

verus! {

/// Aliases can be removed from the constraint system of any circuit, and scales from what
/// is left.
pub proof fn law_circuit_eliminable(g: Graph)
    requires
        g.num_outputs <= g.len(),
        g.closed_under_operands(),
        g.z_len() <= usize::MAX,
    ensures
        eliminable(Kind::Alias, g.system()),
        eliminable(Kind::Scale, eliminated(Kind::Alias, g.system())),
{
    lemma_system_entries(g);
    law_eliminable(Kind::Alias, g.system());
    law_eliminable(Kind::Scale, eliminated(Kind::Alias, g.system()));
}

/// Removing the aliases of a circuit, and then the scales, keeps the relation between its
/// public values.
pub proof fn law_circuit_keeps_function(g: Graph, io: Seq<int>)
    requires
        g.num_outputs <= g.len(),
        g.closed_under_operands(),
        g.z_len() <= usize::MAX,
    ensures
        accepts(eliminated(Kind::Alias, g.system()), io) <==> accepts(g.system(), io),
        accepts(eliminated(Kind::Scale, eliminated(Kind::Alias, g.system())), io) <==> accepts(
            g.system(),
            io,
        ),
{
    law_circuit_eliminable(g);
    lemma_system_entries(g);
    law_eliminable(Kind::Alias, g.system());
    law_elimination_keeps_function(Kind::Alias, g.system(), io);
    law_elimination_keeps_function(Kind::Scale, eliminated(Kind::Alias, g.system()), io);
}

/// The values of a circuit hold its inputs.
proof fn lemma_witness_inputs(g: Graph, inputs: Seq<int>)
    requires
        g.evaluable(),
        g.z_len() <= usize::MAX,
        inputs.len() == g.num_free_inputs(),
        reduced(inputs),
    ensures
        has_inputs(g.system(), g.num_outputs, inputs, g.witness(inputs)),
{
    let z = g.witness(inputs);
    law_witness_satisfies(g, inputs);
    let p = law_forward_evaluates(g, inputs);
    assert forall|i: int| 0 <= i < inputs.len() implies cong(
        #[trigger] z[g.system().num_vars + 1 + g.num_outputs + i],
        inputs[i],
    ) by {
        assert(p.z.skip(g.num_private() as int + 1)[g.num_outputs + i] == inputs[i]);
    }
}

/// Removing aliases from a circuit keeps what it computes: one forward pass over the
/// smaller system gives the outputs of the circuit, whatever the inputs are.
pub proof fn law_aliases_removed(g: Graph, inputs: Seq<int>) -> (q: Partial)
    requires
        g.evaluable(),
        g.z_len() <= usize::MAX,
        inputs.len() == g.num_free_inputs(),
        reduced(inputs),
    ensures
        computes_outputs(g, eliminated(Kind::Alias, g.system()), inputs, q),
{
    let sys = g.system();
    let one = eliminated(Kind::Alias, sys);
    let z = g.witness(inputs);
    lemma_evaluable_closed(g);
    law_circuit_eliminable(g);
    law_circuit_valid(g);
    law_witness_satisfies(g, inputs);
    let p = law_forward_evaluates(g, inputs);
    lemma_witness_inputs(g, inputs);
    let q = law_elimination_keeps_order(Kind::Alias, sys, g.num_outputs, inputs, p, z);
    law_elimination_keeps_witnesses(Kind::Alias, sys, z);
    lemma_pass_outputs(g, one, inputs, q, project(Kind::Alias, sys, z));
    q
}

/// Removing aliases and then scales from a circuit keeps what it computes: one forward
/// pass over the smaller system gives the outputs of the circuit, whatever the inputs
/// are.
pub proof fn law_aliases_and_scales_removed(g: Graph, inputs: Seq<int>) -> (q: Partial)
    requires
        g.evaluable(),
        g.z_len() <= usize::MAX,
        inputs.len() == g.num_free_inputs(),
        reduced(inputs),
    ensures
        computes_outputs(
            g,
            eliminated(Kind::Scale, eliminated(Kind::Alias, g.system())),
            inputs,
            q,
        ),
{
    let sys = g.system();
    let one = eliminated(Kind::Alias, sys);
    let two = eliminated(Kind::Scale, one);
    let z = g.witness(inputs);
    lemma_evaluable_closed(g);
    law_circuit_eliminable(g);
    law_circuit_valid(g);
    law_witness_satisfies(g, inputs);
    let p = law_forward_evaluates(g, inputs);
    lemma_witness_inputs(g, inputs);
    let z1 = project(Kind::Alias, sys, z);
    let q1 = law_elimination_keeps_order(Kind::Alias, sys, g.num_outputs, inputs, p, z);
    law_elimination_keeps_witnesses(Kind::Alias, sys, z);
    let q2 = law_elimination_keeps_order(Kind::Scale, one, g.num_outputs, inputs, q1, z1);
    law_elimination_keeps_witnesses(Kind::Scale, one, z1);
    lemma_pass_outputs(g, two, inputs, q2, project(Kind::Scale, one, z1));
    q2
}

/// One forward pass over a valid system determines everything and gives the public
/// values of the circuit.
pub open spec fn computes_outputs(g: Graph, sys: System, inputs: Seq<int>, q: Partial) -> bool {
    &&& sys.valid()
    &&& sys.num_inputs == g.system().num_inputs
    &&& sys.num_outputs == g.num_outputs
    &&& forward(sys, g.num_outputs, inputs, sys.num_cons) == Pass::Running(q)
    &&& complete(q.known, sys.num_vars, g.num_outputs)
    &&& sys.satisfied(q.z)
    &&& public_part(sys, q.z) == g.public_values(inputs)
}

proof fn lemma_pass_outputs(g: Graph, sys: System, inputs: Seq<int>, q: Partial, z: Seq<int>)
    requires
        g.evaluable(),
        g.z_len() <= usize::MAX,
        inputs.len() == g.num_free_inputs(),
        reduced(inputs),
        sys.valid(),
        sys.num_inputs == g.system().num_inputs,
        sys.num_outputs == g.num_outputs,
        forward(sys, g.num_outputs, inputs, sys.num_cons) == Pass::Running(q),
        complete(q.known, sys.num_vars, g.num_outputs),
        sys.satisfied(z),
        has_inputs(sys, g.num_outputs, inputs, z),
        public_part(sys, z) == public_part(g.system(), g.witness(inputs)),
        forall|c: int| 0 <= c < sys.z_len() ==> cong(#[trigger] q.z[c], z[c]),
    ensures
        computes_outputs(g, sys, inputs, q),
{
    crate::forward_laws::law_unique_witness(sys, g.num_outputs, inputs, q, z);
    lemma_forward_reduced(sys, g.num_outputs, inputs, sys.num_cons, q);
    lemma_forward_shape(sys, g.num_outputs, inputs, sys.num_cons, q);
    let p = law_forward_evaluates(g, inputs);
    law_witness_satisfies(g, inputs);
    let pub_z = public_part(g.system(), g.witness(inputs));
    assert(pub_z == g.public_values(inputs));
    lemma_witness_reduced(g, inputs);
    assert forall|k: int| 0 <= k < pub_z.len() implies public_part(sys, q.z)[k] == pub_z[k] by {
        let c = sys.num_vars + 1 + k;
        assert(public_part(sys, z)[k] == z[c]);
        assert(cong(q.z[c], z[c]));
        assert(pub_z[k] == g.witness(inputs)[g.num_private() + 1 + k]);
        assert(0 <= q.z[c] < ell());
        lemma_cong_reduced(q.z[c], pub_z[k]);
    }
    assert(public_part(sys, q.z) =~= g.public_values(inputs));
}

} // verus!
