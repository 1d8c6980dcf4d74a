use vstd::prelude::*;
use crate::bitset::clear_bitset;
use crate::error::SieveError;
use crate::kernel::{is_base_prime_set, lemma_padded_primes_are_base_set, run_reference_kernel};
use crate::config::{
    covered, lemma_planned, lemma_segment_bounds, planned, valid, SieveConfig,
};
use crate::orchestrator::{
    exact, lemma_retrieve_keeps_exact, pending, Action, Event, Orchestrator, Phase,
};
use crate::primes::{pad_to_vec4, primes_between};

verus! {

/// Runs the whole sieve on the host, with the sequential reference in the
/// kernel's place: every segment in turn is prepared, sieved into the one
/// reused bitset, and taken in.
///
/// The result is every prime below the end of the last segment (or below the
/// base primes' bound, where that lies beyond), in increasing order.
///
/// Fails when the dimensions are not valid.
pub fn sieve_on_host(config: SieveConfig) -> (sieved: Result<Vec<u32>, SieveError>)
    ensures
        sieved is Ok <==> valid(config),
        sieved matches Ok(primes) ==> primes@ == primes_between(
            0,
            covered(config, config.segment_count as nat),
        ),
        sieved matches Err(e) ==> e == SieveError::Configuration,
{
    let mut orchestrator = match Orchestrator::new(config) {
        Ok(orchestrator) => orchestrator,
        Err(e) => {
            return Err(e);
        },
    };
    let plan = orchestrator.plan();
    let base = pad_to_vec4(orchestrator.primes().as_slice());
    let mut bitset = clear_bitset(plan.bitset_words as usize);
    proof {
        lemma_padded_primes_are_base_set(config.base_bound as int);
        lemma_planned(config);
    }
    let mut action = orchestrator.step(Event::Start);
    while orchestrator.segment() < config.segment_count
        invariant
            orchestrator.wf(),
            orchestrator.dimensions() == config,
            plan == planned(config),
            plan.wf(),
            plan.capacity() >= config.segment_width,
            bitset@.len() == plan.bitset_words,
            is_base_prime_set(base@, config.base_bound as int),
            exact(config, orchestrator@),
            orchestrator@.phase == if orchestrator@.segment < config.segment_count {
                Phase::PrepareOffset
            } else {
                Phase::Done
            },
            action == pending(config, orchestrator@),
        decreases config.segment_count - orchestrator@.segment,
    {
        if let Action::WriteOffset(offset) = action {
            proof {
                lemma_segment_bounds(config, orchestrator@.segment);
            }
            let _ = orchestrator.step(Event::OffsetWritten);
            run_reference_kernel(&mut bitset, &plan, offset, base.as_slice());
            let _ = orchestrator.step(Event::Dispatched);
            let _ = orchestrator.step(Event::Completed);
            let words = bitset.clone();
            proof {
                assert(words@ =~= bitset@);
                lemma_retrieve_keeps_exact(config, orchestrator@, base@, words@);
            }
            action = orchestrator.step(Event::Retrieved(words));
        }
    }
    Ok(orchestrator.into_primes())
}

} // verus!
