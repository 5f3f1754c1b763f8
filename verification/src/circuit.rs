//! Circuits as they are exchanged, without the split of their public values.
use crate::r1cs::{copy_matrix, entries, R1CSMatrix, SpartanInstance};
use crate::system::System;
use vstd::prelude::*;

verus! {

/// A constraint system whose public values are not split into outputs and inputs.
#[derive(Debug)]
#[allow(non_snake_case)]
pub struct Circuit {
    pub num_cons: usize,
    pub num_vars: usize,
    pub num_inputs: usize,
    pub A: R1CSMatrix,
    pub B: R1CSMatrix,
    pub C: R1CSMatrix,
}

/// The largest of three lengths.
pub open spec fn largest(a: nat, b: nat, c: nat) -> nat {
    if a >= b && a >= c {
        a
    } else if b >= c {
        b
    } else {
        c
    }
}

/// The length of the longest of three matrices.
pub fn longest(a: &R1CSMatrix, b: &R1CSMatrix, c: &R1CSMatrix) -> (r: usize)
    ensures
        r == largest(a@.len(), b@.len(), c@.len()),
{
    let (x, y, z): (usize, usize, usize) = (a.len(), b.len(), c.len());
    if x >= y && x >= z {
        x
    } else if y >= z {
        y
    } else {
        z
    }
}

impl Circuit {
    /// The system with a number of outputs among its public values.
    pub open spec fn system(&self, num_outputs: nat) -> System {
        System {
            num_cons: self.num_cons as nat,
            num_vars: self.num_vars as nat,
            num_inputs: self.num_inputs as nat,
            num_outputs,
            a: entries(self.A@),
            b: entries(self.B@),
            c: entries(self.C@),
        }
    }

    pub fn from_spartan_instance(si: SpartanInstance) -> (r: Circuit)
        ensures
            r.system(si.num_outputs as nat) == si@,
            r.A@ == si.A@,
            r.B@ == si.B@,
            r.C@ == si.C@,
    {
        Circuit {
            num_cons: si.num_cons,
            num_vars: si.num_vars,
            num_inputs: si.num_inputs,
            A: si.A,
            B: si.B,
            C: si.C,
        }
    }

    /// The number of nonzero entries of the fullest matrix.
    pub fn num_non_zero(&self) -> (r: usize)
        ensures
            r == largest(self.A@.len(), self.B@.len(), self.C@.len()),
    {
        longest(&self.A, &self.B, &self.C)
    }

    pub fn to_spartan_instance(&self, num_outputs: usize) -> (r: SpartanInstance)
        ensures
            r@ == self.system(num_outputs as nat),
            r.A@ == self.A@,
            r.B@ == self.B@,
            r.C@ == self.C@,
    {
        SpartanInstance {
            num_cons: self.num_cons,
            num_vars: self.num_vars,
            num_inputs: self.num_inputs,
            num_outputs,
            A: copy_matrix(&self.A),
            B: copy_matrix(&self.B),
            C: copy_matrix(&self.C),
        }
    }
}

impl Clone for Circuit {
    fn clone(&self) -> (r: Self)
        ensures
            r.num_cons == self.num_cons,
            r.num_vars == self.num_vars,
            r.num_inputs == self.num_inputs,
            r.A@ == self.A@,
            r.B@ == self.B@,
            r.C@ == self.C@,
    {
        Circuit {
            num_cons: self.num_cons,
            num_vars: self.num_vars,
            num_inputs: self.num_inputs,
            A: copy_matrix(&self.A),
            B: copy_matrix(&self.B),
            C: copy_matrix(&self.C),
        }
    }
}

} // verus!
