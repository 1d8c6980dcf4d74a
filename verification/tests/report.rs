use primesieve_gpu::error::{SieveError, Stage};
use primesieve_gpu::report::{count_below, summarize, Summary};

#[test]
fn summary_of_a_list() {
    assert_eq!(summarize(&[2, 3, 5]), Some(Summary { largest: 5, count: 3 }));
    assert_eq!(summarize(&[2]), Some(Summary { largest: 2, count: 1 }));
    assert_eq!(
        summarize(&[2, 3, 4_294_967_291]),
        Some(Summary { largest: 4_294_967_291, count: 3 })
    );
}

#[test]
fn an_empty_list_has_no_summary() {
    assert_eq!(summarize(&[]), None);
}

#[test]
fn each_error_names_its_stage() {
    assert_eq!(SieveError::Configuration.stage(), Stage::Configuration);
    assert_eq!(SieveError::DeviceUnavailable.stage(), Stage::Acquisition);
    assert_eq!(SieveError::DeviceRequestFailed.stage(), Stage::Acquisition);
    assert_eq!(SieveError::KernelCompileError.stage(), Stage::Compile);
    assert_eq!(SieveError::TransferFailure.stage(), Stage::Transfer);
}

#[test]
fn stages_have_their_words() {
    assert_eq!(Stage::Configuration.name(), "configuration");
    assert_eq!(Stage::Acquisition.name(), "acquisition");
    assert_eq!(Stage::Compile.name(), "compile");
    assert_eq!(Stage::Dispatch.name(), "dispatch");
    assert_eq!(Stage::Transfer.name(), "transfer");
}

#[test]
fn errors_are_described_in_words() {
    assert_eq!(SieveError::Configuration.describe(), "the sieve's dimensions cannot be used");
    assert_eq!(
        SieveError::DeviceUnavailable.describe(),
        "no compatible compute accelerator was found"
    );
    assert_eq!(
        SieveError::DeviceRequestFailed.describe(),
        "the accelerator refused the requested features or limits"
    );
    assert_eq!(SieveError::KernelCompileError.describe(), "the kernel source failed to compile");
    assert_eq!(
        SieveError::TransferFailure.describe(),
        "the bitset could not be read back from the accelerator"
    );
}

#[test]
fn entries_below_a_bound_are_counted_from_the_front() {
    let primes = [2u32, 3, 5, 7, 11, 13];
    assert_eq!(count_below(&primes, 0), 0);
    assert_eq!(count_below(&primes, 2), 0);
    assert_eq!(count_below(&primes, 3), 1);
    assert_eq!(count_below(&primes, 7), 3);
    assert_eq!(count_below(&primes, 8), 4);
    assert_eq!(count_below(&primes, 13), 5);
    assert_eq!(count_below(&primes, 14), 6);
    assert_eq!(count_below(&primes, 1 << 32), 6);
    assert_eq!(count_below(&[], 10), 0);
    assert_eq!(count_below(&[u32::MAX], u32::MAX as u64), 0);
    assert_eq!(count_below(&[u32::MAX], u32::MAX as u64 + 1), 1);
}
