use vstd::prelude::*;

verus! {

/// The lifecycle state of a running instance, as reported by its supervisor.
#[derive(Clone, Copy, Debug, PartialEq, Eq, Structural)]
pub enum ServerStatus {
    Stopped,
    Stopping,
    Starting,
    Running,
}

/// The human-readable description of each state.
pub open spec fn status_text(s: ServerStatus) -> Seq<char> {
    match s {
        ServerStatus::Stopped => "Stopped."@,
        ServerStatus::Stopping => "Stopping!!"@,
        ServerStatus::Starting => "Starting! Please Wait."@,
        ServerStatus::Running => "Running, Go ahead and join."@,
    }
}

impl ServerStatus {
    /// The fixed description of this state.
    pub fn as_str(&self) -> (r: &'static str)
        ensures
            r@ == status_text(*self),
    {
        match self {
            ServerStatus::Stopped => "Stopped.",
            ServerStatus::Stopping => "Stopping!!",
            ServerStatus::Starting => "Starting! Please Wait.",
            ServerStatus::Running => "Running, Go ahead and join.",
        }
    }
}

} // verus!
