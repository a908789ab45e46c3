//! The decisions of the generator that do not depend on real-valued data.
use vstd::prelude::*;

verus! {

/// Why `generate` refused to run.
#[derive(Debug, Clone, Copy, PartialEq, Eq, Structural)]
pub enum GenerateError {
    /// No model was set.
    MissingModel,
    /// No attributes were set.
    MissingAttributes,
    /// The number of attributes differs from the number of sites.
    AttributeCountMismatch,
    /// Some site does not drain to any outlet.
    IllFormedGraph,
}

impl GenerateError {
    /// A sentence that describes the error.
    pub fn message(&self) -> (r: &'static str) {
        match self {
            GenerateError::MissingModel => "a model must be set before generating terrain",
            GenerateError::MissingAttributes => "attributes must be set before generating terrain",
            GenerateError::AttributeCountMismatch => "the number of attributes must equal the number of sites",
            GenerateError::IllFormedGraph => "some site does not drain to any outlet",
        }
    }
}

/// The checks made before any computation: a model must be present, then
/// attributes, one per site.
pub fn check_configuration(has_model: bool, num_sites: usize, num_attributes: Option<usize>) -> (r: Result<
    (),
    GenerateError,
>)
    ensures
        !has_model ==> r == Err::<(), GenerateError>(GenerateError::MissingModel),
        has_model && num_attributes is None ==> r == Err::<(), GenerateError>(GenerateError::MissingAttributes),
        has_model && num_attributes is Some && num_attributes->0 != num_sites ==> r == Err::<(), GenerateError>(
            GenerateError::AttributeCountMismatch,
        ),
        has_model && num_attributes == Some(num_sites) ==> r is Ok,
{
    if !has_model {
        return Err(GenerateError::MissingModel);
    }
    match num_attributes {
        None => Err(GenerateError::MissingAttributes),
        Some(a) => {
            if a != num_sites {
                Err(GenerateError::AttributeCountMismatch)
            } else {
                Ok(())
            }
        },
    }
}

/// What the fixed-point loop does after a pass over every basin that counted
/// `step` passes before it: `None` to stop (no site changed, or the cap is
/// reached), or the number of passes made so far.
pub fn next_step(changed: bool, step: u64, max_iteration: Option<u64>) -> (r: Option<u64>)
    requires
        step < u64::MAX,
    ensures
        !changed ==> r is None,
        changed && max_iteration is Some && step + 1 >= max_iteration->0 ==> r is None,
        changed && (max_iteration is None || step + 1 < max_iteration->0) ==> r == Some((step + 1) as u64),
{
    if !changed {
        return None;
    }
    let s = step + 1;
    match max_iteration {
        Some(k) => {
            if s >= k {
                None
            } else {
                Some(s)
            }
        },
        None => Some(s),
    }
}

} // verus!
