use vstd::prelude::*;

verus! {

/// The ways a bot can choose its next velocity.
#[derive(Clone, Copy, Debug, PartialEq, Eq, Structural)]
pub enum SteeringStrategy {
    Basic,
    Orca,
    Ttc,
}

/// The label under which a strategy is shown to the user.
pub open spec fn strategy_label(s: SteeringStrategy) -> Seq<char> {
    match s {
        SteeringStrategy::Basic => "Basic"@,
        SteeringStrategy::Orca => "ORCA"@,
        SteeringStrategy::Ttc => "TTC"@,
    }
}

impl SteeringStrategy {
    /// The label under which this strategy is shown to the user.
    pub fn name(&self) -> (s: String)
        ensures
            s@ == strategy_label(*self),
    {
        match self {
            SteeringStrategy::Basic => "Basic".to_owned(),
            SteeringStrategy::Orca => "ORCA".to_owned(),
            SteeringStrategy::Ttc => "TTC".to_owned(),
        }
    }
}

} // verus!
