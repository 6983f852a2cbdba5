//! Parameters of proof generation.
use crate::error::{AirError, OptionField};
use crate::field::{elem, BaseElement, GENERATOR_VALUE};
use crate::polynom::{is_pow2, is_power_of_two};
use vstd::prelude::*;

verus! {

/// Whether the composition polynomial is evaluated in the base field or in its quadratic
/// extension.
#[derive(Clone, Copy, Debug, PartialEq, Eq, Structural)]
pub enum FieldExtension {
    NoExtension,
    Quadratic,
}

/// The hash function behind commitments.
#[allow(non_camel_case_types)]
#[derive(Clone, Copy, Debug, PartialEq, Eq, Structural)]
pub enum HashFunction {
    Blake3_256,
    Sha3_256,
}

/// Proof generation options; each lies within its allowed interval.
#[derive(Clone, Copy, Debug, PartialEq, Eq, Structural)]
pub struct ProofOptions {
    num_queries: u8,
    blowup_factor: u16,
    grinding_factor: u8,
    hash_fn: HashFunction,
    field_extension: FieldExtension,
}

/// The first option, in the order number of queries, blowup factor, grinding factor, that
/// lies outside its interval, if any.
pub open spec fn first_bad_option(num_queries: nat, blowup_factor: nat, grinding_factor: nat) -> Option<
    OptionField,
> {
    if !(1 <= num_queries <= 128) {
        Some(OptionField::NumQueries)
    } else if !(is_pow2(blowup_factor) && 4 <= blowup_factor <= 256) {
        Some(OptionField::BlowupFactor)
    } else if grinding_factor > 32 {
        Some(OptionField::GrindingFactor)
    } else {
        None
    }
}

impl ProofOptions {
    /// Builds proof options; fails on the first option outside its interval: the number of
    /// queries within 1..=128, the blowup factor a power of two within 4..=256, the grinding
    /// factor within 0..=32.
    pub fn new(
        num_queries: usize,
        blowup_factor: usize,
        grinding_factor: u32,
        hash_fn: HashFunction,
        field_extension: FieldExtension,
    ) -> (r: Result<ProofOptions, AirError>)
        ensures
            match first_bad_option(num_queries as nat, blowup_factor as nat, grinding_factor as nat) {
                Some(f) => r == Err::<ProofOptions, AirError>(AirError::OptionOutOfRange(f)),
                None => r is Ok && r->Ok_0.num_queries_spec() == num_queries
                    && r->Ok_0.blowup_factor_spec() == blowup_factor
                    && r->Ok_0.grinding_factor_spec() == grinding_factor
                    && r->Ok_0.hash_fn_spec() == hash_fn && r->Ok_0.field_extension_spec()
                    == field_extension,
            },
    {
        if num_queries == 0 || num_queries > 128 {
            return Err(AirError::OptionOutOfRange(OptionField::NumQueries));
        }
        if !is_power_of_two(blowup_factor) || blowup_factor < 4 || blowup_factor > 256 {
            return Err(AirError::OptionOutOfRange(OptionField::BlowupFactor));
        }
        if grinding_factor > 32 {
            return Err(AirError::OptionOutOfRange(OptionField::GrindingFactor));
        }
        Ok(
            ProofOptions {
                num_queries: num_queries as u8,
                blowup_factor: blowup_factor as u16,
                grinding_factor: grinding_factor as u8,
                hash_fn,
                field_extension,
            },
        )
    }

    pub closed spec fn num_queries_spec(&self) -> nat {
        self.num_queries as nat
    }

    pub closed spec fn blowup_factor_spec(&self) -> nat {
        self.blowup_factor as nat
    }

    pub closed spec fn grinding_factor_spec(&self) -> nat {
        self.grinding_factor as nat
    }

    pub closed spec fn hash_fn_spec(&self) -> HashFunction {
        self.hash_fn
    }

    pub closed spec fn field_extension_spec(&self) -> FieldExtension {
        self.field_extension
    }

    /// Number of queries for a proof.
    pub fn num_queries(&self) -> (r: usize)
        ensures
            r == self.num_queries_spec(),
    {
        self.num_queries as usize
    }

    /// Factor by which the execution trace is extended.
    pub fn blowup_factor(&self) -> (r: usize)
        ensures
            r == self.blowup_factor_spec(),
    {
        self.blowup_factor as usize
    }

    /// Number of leading zero bits that the query seed's proof of work must have.
    pub fn grinding_factor(&self) -> (r: u32)
        ensures
            r == self.grinding_factor_spec(),
    {
        self.grinding_factor as u32
    }

    /// Hash function for commitments.
    pub fn hash_fn(&self) -> (r: HashFunction)
        ensures
            r == self.hash_fn_spec(),
    {
        self.hash_fn
    }

    /// Whether the composition polynomial uses the field extension.
    pub fn field_extension(&self) -> (r: FieldExtension)
        ensures
            r == self.field_extension_spec(),
    {
        self.field_extension
    }

    /// Offset of the low-degree extension domain from the trace domain: the generator of
    /// the base field.
    pub fn domain_offset(&self) -> (r: BaseElement)
        ensures
            r == elem(GENERATOR_VALUE as int),
    {
        BaseElement::generator()
    }
}

impl FieldExtension {
    /// Returns `true` when no field extension is used.
    pub fn is_none(&self) -> (r: bool)
        ensures
            r == (*self == FieldExtension::NoExtension),
    {
        match self {
            FieldExtension::NoExtension => true,
            FieldExtension::Quadratic => false,
        }
    }
}

} // verus!
