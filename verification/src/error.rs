use vstd::prelude::*;

verus! {

/// The stage of a run at which a fatal error arose.
#[derive(Clone, Copy, Debug, PartialEq, Eq, Structural)]
pub enum Stage {
    /// Validating the dimensions and planning the geometry.
    Configuration,
    /// Finding an accelerator and requesting a device from it.
    Acquisition,
    /// Compiling the kernel.
    Compile,
    /// Invoking the kernel. A dispatch that goes wrong shows when the bitset
    /// is awaited, so no error names this stage by itself.
    Dispatch,
    /// Copying the bitset out and reading it on the host.
    Transfer,
}

/// Every failure is fatal for the whole run: nothing is retried and no
/// partial result is salvaged.
#[derive(Clone, Copy, Debug, PartialEq, Eq, Structural)]
pub enum SieveError {
    /// The sieve's dimensions are unusable: a zero where a positive count is
    /// needed, a buffer that does not fit the integer width, or a range that
    /// leaves the 32-bit candidate space.
    Configuration,
    /// No compatible compute accelerator was found.
    DeviceUnavailable,
    /// The accelerator refused the requested features or limits.
    DeviceRequestFailed,
    /// The kernel source failed to compile or link.
    KernelCompileError,
    /// Copying the bitset out, or mapping it for the host, failed.
    TransferFailure,
}

impl Stage {
    /// The word by which a diagnostic names the stage.
    pub open spec fn spec_name(self) -> Seq<char> {
        match self {
            Stage::Configuration => "configuration"@,
            Stage::Acquisition => "acquisition"@,
            Stage::Compile => "compile"@,
            Stage::Dispatch => "dispatch"@,
            Stage::Transfer => "transfer"@,
        }
    }

    /// The word by which a diagnostic names the stage.
    pub fn name(self) -> (name: &'static str)
        ensures
            name@ == self.spec_name(),
    {
        match self {
            Stage::Configuration => "configuration",
            Stage::Acquisition => "acquisition",
            Stage::Compile => "compile",
            Stage::Dispatch => "dispatch",
            Stage::Transfer => "transfer",
        }
    }
}

impl SieveError {
    /// What went wrong, in words.
    pub open spec fn spec_describe(self) -> Seq<char> {
        match self {
            SieveError::Configuration => "the sieve's dimensions cannot be used"@,
            SieveError::DeviceUnavailable => "no compatible compute accelerator was found"@,
            SieveError::DeviceRequestFailed => "the accelerator refused the requested features or limits"@,
            SieveError::KernelCompileError => "the kernel source failed to compile"@,
            SieveError::TransferFailure => "the bitset could not be read back from the accelerator"@,
        }
    }

    /// What went wrong, in words.
    pub fn describe(self) -> (text: &'static str)
        ensures
            text@ == self.spec_describe(),
    {
        match self {
            SieveError::Configuration => "the sieve's dimensions cannot be used",
            SieveError::DeviceUnavailable => "no compatible compute accelerator was found",
            SieveError::DeviceRequestFailed => "the accelerator refused the requested features or limits",
            SieveError::KernelCompileError => "the kernel source failed to compile",
            SieveError::TransferFailure => "the bitset could not be read back from the accelerator",
        }
    }

    /// The stage named in the diagnostic for this error.
    pub open spec fn spec_stage(self) -> Stage {
        match self {
            SieveError::Configuration => Stage::Configuration,
            SieveError::DeviceUnavailable => Stage::Acquisition,
            SieveError::DeviceRequestFailed => Stage::Acquisition,
            SieveError::KernelCompileError => Stage::Compile,
            SieveError::TransferFailure => Stage::Transfer,
        }
    }

    #[verifier::when_used_as_spec(spec_stage)]
    pub fn stage(self) -> (stage: Stage)
        ensures
            stage == self.spec_stage(),
    {
        match self {
            SieveError::Configuration => Stage::Configuration,
            SieveError::DeviceUnavailable => Stage::Acquisition,
            SieveError::DeviceRequestFailed => Stage::Acquisition,
            SieveError::KernelCompileError => Stage::Compile,
            SieveError::TransferFailure => Stage::Transfer,
        }
    }
}

} // verus!
