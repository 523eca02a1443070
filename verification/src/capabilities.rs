//! What an extraction backend can produce, and the check that rejects requests
//! finer than that.
use vstd::prelude::*;
use crate::error::ExtractError;
use crate::granularity::{rank_of, Granularity};

verus! {

/// Whether a backend reports page-space geometry or authored flow structure.
#[derive(Debug, Clone, Copy, PartialEq, Eq, Structural)]
pub enum GeometryKind {
    Paged,
    Flow,
}

/// Capabilities of an extraction backend. Keeping this a struct lets future
/// capability axes be added without changing the backend interface.
#[derive(Debug, Clone, Copy, PartialEq, Eq, Structural)]
pub struct Capabilities {
    pub finest_granularity: Granularity,
    pub geometry: GeometryKind,
}

/// The level that an absent request stands for: the full char-level response.
pub open spec fn effective_request(requested: Option<Granularity>) -> Granularity {
    match requested {
        Some(g) => g,
        None => Granularity::Char,
    }
}

/// Rejects a request that needs a finer hierarchy than a backend provides.
/// An absent request is the frozen full/char-level response.
pub fn check_granularity(capabilities: &Capabilities, requested: Option<Granularity>) -> (r: Result<
    (),
    ExtractError,
>)
    ensures
        r is Ok <==> rank_of(effective_request(requested)) <= rank_of(
            capabilities.finest_granularity,
        ),
        r is Err ==> r == Err::<(), ExtractError>(
            ExtractError::GranularityUnavailable {
                requested: effective_request(requested),
                finest: capabilities.finest_granularity,
            },
        ),
{
    let requested = match requested {
        Some(g) => g,
        None => Granularity::Char,
    };
    if requested.rank() > capabilities.finest_granularity.rank() {
        Err(
            ExtractError::GranularityUnavailable {
                requested,
                finest: capabilities.finest_granularity,
            },
        )
    } else {
        Ok(())
    }
}

/// A backend accepts exactly the levels no finer than its finest one: the
/// finest level and every coarser level pass the check, every finer one fails.
pub proof fn check_accepts_exactly_coarser_levels(finest: Granularity, requested: Granularity)
    ensures
        rank_of(effective_request(Some(requested))) <= rank_of(finest) <==> (requested == finest
            || rank_of(requested) < rank_of(finest)),
        rank_of(effective_request(Some(finest))) <= rank_of(finest),
        rank_of(effective_request(None)) <= rank_of(finest) <==> finest == Granularity::Char,
{
}

} // verus!
