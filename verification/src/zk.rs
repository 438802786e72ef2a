//! The seams between a circuit and a proving system: the circuit a
//! lowered function defines, and the backend that proves it.
use vstd::prelude::*;

use crate::circuit::{ConstraintSystem, Scalar};
use crate::r1cs::{lower_r1cs, lowerable, reference_lowering, R1CS};

verus! {

/// A function that has been turned into a zero-knowledge circuit.
pub trait CircuitDefinition {
    /// The circuit's name (that of the function).
    fn name(&self) -> &'static str;

    /// The backend the circuit was declared for.
    fn backend(&self) -> &'static str;

    /// The function's constraints as a constraint system.
    fn build(&self) -> ConstraintSystem;
}

/// A zero-knowledge proving backend: compiles a constraint system into its
/// own circuit form, generates keys, proves and verifies.
pub trait ZkBackend {
    /// Backend-specific failure type.
    type Error;
    /// The backend's compiled circuit.
    type Circuit;
    /// Proving key produced at build time.
    type ProvingKey;
    /// Verifying key shipped to verifiers.
    type VerifyingKey;
    /// A produced proof.
    type Proof;

    /// Stable identifier, such as `"halo2"`, `"arkworks"` or `"sp1"`.
    fn name(&self) -> &'static str;

    /// Compiles a constraint system into the backend's circuit form.
    fn compile(&self, ir: &ConstraintSystem) -> Result<Self::Circuit, Self::Error>;

    /// Lowers a constraint system into the reference R1CS form, the one that
    /// conformance checks compare every backend against.
    fn lower_r1cs(&self, ir: &ConstraintSystem) -> (r: R1CS)
        requires
            lowerable(*ir),
        ensures
            reference_lowering(*ir, r),
    {
        lower_r1cs(ir)
    }

    /// Generates proving and verifying keys; `params` holds backend
    /// security parameters, empty for the backend's defaults.
    fn generate_keys(&self, ir: &ConstraintSystem, params: &[u8]) -> Result<(Self::ProvingKey, Self::VerifyingKey), Self::Error>;

    /// Proves an assignment: `public` and `secret` hold the values of the
    /// system's public and secret inputs, in declaration order.
    fn prove(&self, circuit: &Self::Circuit, pk: &Self::ProvingKey, public: &[Scalar], secret: &[Scalar]) -> Result<Self::Proof, Self::Error>;

    /// Verifies a proof against the public inputs only.
    fn verify(&self, vk: &Self::VerifyingKey, public: &[Scalar], proof: &Self::Proof) -> Result<bool, Self::Error>;
}

} // verus!
