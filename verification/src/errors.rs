use vstd::prelude::*;

verus! {

/// The failure conditions the supervisor and its helpers report.
#[derive(Clone, Copy, Debug, PartialEq, Eq, Structural)]
pub enum SidecarError {
    /// The worker executable could not be started.
    SpawnFailed,
    /// The spawned worker exposed no readable standard output.
    NoStdout,
    /// Reading a line of the worker's standard output failed.
    ReadFailed,
    /// The worker's output ended before the readiness sentinel appeared.
    ExitedBeforeReady,
    /// A sentinel line appeared, but its payload is not a decimal port.
    MalformedReadiness,
    /// The port was queried while no worker is active.
    NotReady,
    /// The supplied path is not a work directory (no marker subdirectory).
    InvalidWorkDir,
    /// The lock guarding the supervisor slot was poisoned.
    LockPoisoned,
}

impl SidecarError {
    /// The fixed description of each error condition.
    pub open spec fn spec_message(self) -> Seq<char> {
        match self {
            SidecarError::SpawnFailed => "Failed to spawn sidecar"@,
            SidecarError::NoStdout => "No stdout from sidecar"@,
            SidecarError::ReadFailed => "Failed to read sidecar stdout"@,
            SidecarError::ExitedBeforeReady => "Sidecar exited before signaling readiness"@,
            SidecarError::MalformedReadiness => "Invalid port from sidecar"@,
            SidecarError::NotReady => "Sidecar not ready"@,
            SidecarError::InvalidWorkDir => "Not a Littera work (no .littera/ directory)"@,
            SidecarError::LockPoisoned => "Sidecar state lock poisoned"@,
        }
    }

    /// A human-readable description of the error.
    pub fn message(&self) -> (m: &'static str)
        ensures
            m@ == self.spec_message(),
    {
        match self {
            SidecarError::SpawnFailed => "Failed to spawn sidecar",
            SidecarError::NoStdout => "No stdout from sidecar",
            SidecarError::ReadFailed => "Failed to read sidecar stdout",
            SidecarError::ExitedBeforeReady => "Sidecar exited before signaling readiness",
            SidecarError::MalformedReadiness => "Invalid port from sidecar",
            SidecarError::NotReady => "Sidecar not ready",
            SidecarError::InvalidWorkDir => "Not a Littera work (no .littera/ directory)",
            SidecarError::LockPoisoned => "Sidecar state lock poisoned",
        }
    }
}

} // verus!
