use vstd::prelude::*;

verus! {

/// One of the three spatial gradient channels.
#[derive(Debug, Clone, Copy, PartialEq, Eq, Structural)]
pub enum GradientChannel {
    X,
    Y,
    Z,
}

/// Selects the kind of event a query is about.
#[derive(Debug, Clone, Copy, PartialEq, Eq, Structural)]
pub enum EventType {
    RfPulse,
    Adc,
    Gradient(GradientChannel),
}

} // verus!
