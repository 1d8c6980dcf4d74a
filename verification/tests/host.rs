use primesieve_gpu::config::SieveConfig;
use primesieve_gpu::error::SieveError;
use primesieve_gpu::host::sieve_on_host;
use primesieve_gpu::primes::{base_primes, primes_below};
use primesieve_gpu::report::{summarize, Summary};

#[test]
fn host_sieve_below_one_hundred() {
    let config = SieveConfig {
        segment_count: 1,
        segment_width: 100,
        group_width: 4,
        max_dispatch_groups: 65535,
        base_bound: 10,
    };
    let primes = sieve_on_host(config).unwrap();
    assert_eq!(
        primes,
        vec![
            2, 3, 5, 7, 11, 13, 17, 19, 23, 29, 31, 37, 41, 43, 47, 53, 59, 61, 67, 71, 73, 79,
            83, 89, 97
        ]
    );
    assert_eq!(summarize(&primes), Some(Summary { largest: 97, count: 25 }));
}

#[test]
fn host_sieve_gives_every_prime_below_the_end() {
    let shapes = [
        (1u32, 1u32, 1u32, 1u32, 1u32),
        (1, 2, 1, 1, 2),
        (1, 3, 1, 1, 2),
        (3, 1, 1, 1, 2),
        (7, 13, 3, 2, 10),
        (16, 64, 2, 3, 32),
        (64, 32, 1, 1, 46),
        (5, 1000, 8, 2, 71),
        (2, 5000, 256, 65535, 100),
    ];
    for &(segment_count, segment_width, group_width, max_dispatch_groups, base_bound) in
        shapes.iter()
    {
        let config = SieveConfig {
            segment_count,
            segment_width,
            group_width,
            max_dispatch_groups,
            base_bound,
        };
        let primes = sieve_on_host(config).unwrap();
        let end = (segment_count * segment_width).max(base_bound);
        assert_eq!(primes, primes_below(end), "{:?}", config);
    }
}

#[test]
fn host_sieve_of_sixty_four_segments() {
    let config = SieveConfig {
        segment_count: 64,
        segment_width: 1024,
        group_width: 16,
        max_dispatch_groups: 1,
        base_bound: 256,
    };
    let primes = sieve_on_host(config).unwrap();
    assert_eq!(primes, base_primes());
    assert_eq!(summarize(&primes), Some(Summary { largest: 65521, count: 6542 }));
}

#[test]
fn host_sieve_with_base_primes_beyond_the_segments() {
    let config = SieveConfig {
        segment_count: 2,
        segment_width: 10,
        group_width: 1,
        max_dispatch_groups: 1,
        base_bound: 50,
    };
    assert_eq!(sieve_on_host(config).unwrap(), primes_below(50));
}

#[test]
fn host_sieve_rejects_dimensions_that_allow_no_run() {
    let config = SieveConfig {
        segment_count: 0,
        segment_width: 100,
        group_width: 4,
        max_dispatch_groups: 65535,
        base_bound: 10,
    };
    assert_eq!(sieve_on_host(config), Err(SieveError::Configuration));
    let config = SieveConfig { segment_count: 2, base_bound: 14, ..config };
    assert_eq!(sieve_on_host(config), Err(SieveError::Configuration));
    let config = SieveConfig { segment_count: 2, base_bound: 15, ..config };
    assert!(sieve_on_host(config).is_ok());
}
