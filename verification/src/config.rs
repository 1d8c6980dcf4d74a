use vstd::prelude::*;
use crate::error::SieveError;
use crate::plan::{
    bitset_words, dispatch_groups, lanes, lemma_plan_covers, lemma_plan_fits, min_words,
    plan_partition, plannable, requested_groups, requested_words, words_per_lane, Plan,
};

verus! {

/// The dimensions of a run.
#[derive(Clone, Copy, Debug, PartialEq, Eq, Structural)]
pub struct SieveConfig {
    /// Segments processed, one kernel dispatch each.
    pub segment_count: u32,
    /// Candidates in one segment.
    pub segment_width: u32,
    /// Lanes in one dispatch group.
    pub group_width: u32,
    /// Most dispatch groups the accelerator takes at once.
    pub max_dispatch_groups: u32,
    /// The base primes are the primes below this bound.
    pub base_bound: u32,
}

/// Candidates that the segments cover together.
pub open spec fn total(config: SieveConfig) -> int {
    config.segment_count * config.segment_width
}

/// The dimensions allow a run: there is a segment, the segments lie in the
/// 32-bit candidate space, a geometry can be planned for them, and the base
/// primes reach the trial bound of every candidate.
pub open spec fn valid(config: SieveConfig) -> bool {
    &&& config.segment_count >= 1
    &&& total(config) <= 0x1_0000_0000
    &&& plannable(
        config.segment_width as int,
        config.group_width as int,
        config.max_dispatch_groups as int,
    )
    &&& config.base_bound * config.base_bound >= total(config)
}

/// The geometry that the planner derives for the segments.
pub open spec fn planned(config: SieveConfig) -> Plan {
    Plan {
        group_width: config.group_width,
        dispatch_groups: dispatch_groups(
            config.segment_width as int,
            config.group_width as int,
            config.max_dispatch_groups as int,
        ) as u32,
        words_per_lane: words_per_lane(
            config.segment_width as int,
            config.group_width as int,
            config.max_dispatch_groups as int,
        ) as u32,
        bitset_words: bitset_words(
            config.segment_width as int,
            config.group_width as int,
            config.max_dispatch_groups as int,
        ) as u32,
    }
}

/// The first candidate of a segment.
pub open spec fn offset_of(config: SieveConfig, segment: nat) -> int {
    segment * config.segment_width
}

/// The bound below which the list is complete once `segment` segments are
/// in: the base primes' bound, or the end of the last segment taken in.
pub open spec fn covered(config: SieveConfig, segment: nat) -> int {
    if offset_of(config, segment) > config.base_bound {
        offset_of(config, segment)
    } else {
        config.base_bound as int
    }
}

/// A segment of a valid run lies in the 32-bit candidate space, and the next
/// one starts where it ends.
pub proof fn lemma_segment_bounds(config: SieveConfig, segment: nat)
    requires
        valid(config),
        segment < config.segment_count,
    ensures
        0 <= offset_of(config, segment),
        offset_of(config, segment) + config.segment_width <= 0x1_0000_0000,
        offset_of(config, segment) + config.segment_width == offset_of(config, segment + 1),
        offset_of(config, segment + 1) <= total(config),
        covered(config, segment) <= covered(config, segment + 1),
{
    let w = config.segment_width as int;
    let c = config.segment_count as int;
    assert(segment * w + w == (segment + 1) * w && (segment + 1) * w <= c * w && 0 <= segment
        * w) by (nonlinear_arith)
        requires
            0 <= segment < c,
            w >= 0,
    ;
}

/// The geometry planned for a valid run is well formed and has a bit for
/// every candidate of a segment.
pub proof fn lemma_planned(config: SieveConfig)
    requires
        valid(config),
    ensures
        planned(config).wf(),
        planned(config).derived_from(
            config.segment_width as int,
            config.group_width as int,
            config.max_dispatch_groups as int,
        ),
        planned(config).capacity() >= config.segment_width,
{
    lemma_plan_covers(
        config.segment_width as int,
        config.group_width as int,
        config.max_dispatch_groups as int,
    );
    lemma_plan_fits(
        config.segment_width as int,
        config.group_width as int,
        config.max_dispatch_groups as int,
    );
    let words = bitset_words(
        config.segment_width as int,
        config.group_width as int,
        config.max_dispatch_groups as int,
    );
    let lane_count = lanes(
        config.segment_width as int,
        config.group_width as int,
        config.max_dispatch_groups as int,
    );
    let per_lane = words_per_lane(
        config.segment_width as int,
        config.group_width as int,
        config.max_dispatch_groups as int,
    );
    let groups = dispatch_groups(
        config.segment_width as int,
        config.group_width as int,
        config.max_dispatch_groups as int,
    );
    assert(per_lane <= words && groups <= words && words == per_lane * config.group_width
        * groups) by (nonlinear_arith)
        requires
            words == per_lane * lane_count,
            lane_count == config.group_width * groups,
            per_lane >= 1,
            groups >= 1,
            config.group_width >= 1,
    ;
}

impl SieveConfig {
    /// The reference dimensions: 64 segments of 2^26 candidates cover the
    /// 32-bit candidate space, in groups of 256 lanes and at most 65535
    /// groups, with the primes below 2^16 as base primes.
    pub fn reference() -> (config: SieveConfig)
        ensures
            config == (SieveConfig {
                segment_count: 64,
                segment_width: 0x400_0000,
                group_width: 256,
                max_dispatch_groups: 65535,
                base_bound: 0x1_0000,
            }),
            valid(config),
            total(config) == 0x1_0000_0000,
    {
        let config = SieveConfig {
            segment_count: 64,
            segment_width: 0x400_0000,
            group_width: 256,
            max_dispatch_groups: 65535,
            base_bound: 0x1_0000,
        };
        proof {
            let width = config.segment_width as int;
            assert(min_words(width) == 0x20_0000);
            assert(requested_groups(width, 256) == 0x2000);
            assert(dispatch_groups(width, 256, 65535) == 0x2000);
            assert(requested_words(width, 256) == 0x20_0000);
            assert(lanes(width, 256, 65535) == 0x20_0000);
            assert(words_per_lane(width, 256, 65535) == 1);
            assert(bitset_words(width, 256, 65535) == 0x20_0000);
            assert(total(config) == 0x1_0000_0000);
            assert(config.base_bound * config.base_bound == 0x1_0000_0000);
        }
        config
    }

    /// The reference dimensions with only as many segments as it takes to reach
    /// `upper_bound`: the run then finds every prime below the end of its last
    /// segment, which is at or beyond the bound and less than a segment away.
    ///
    /// Fails when the bound is zero or lies beyond the 32-bit candidate space.
    pub fn covering(upper_bound: u64) -> (made: Result<SieveConfig, SieveError>)
        ensures
            made is Ok <==> 1 <= upper_bound <= 0x1_0000_0000,
            made matches Ok(config) ==> valid(config) && config == (SieveConfig {
                segment_count: config.segment_count,
                segment_width: 0x400_0000,
                group_width: 256,
                max_dispatch_groups: 65535,
                base_bound: 0x1_0000,
            }) && upper_bound <= total(config) < upper_bound + 0x400_0000,
            made matches Err(e) ==> e == SieveError::Configuration,
    {
        if upper_bound == 0 || upper_bound > 0x1_0000_0000 {
            return Err(SieveError::Configuration);
        }
        let segments: u64 = (upper_bound + 0x3ff_ffff) / 0x400_0000;
        let config = SieveConfig {
            segment_count: segments as u32,
            segment_width: 0x400_0000,
            group_width: 256,
            max_dispatch_groups: 65535,
            base_bound: 0x1_0000,
        };
        assert(config.base_bound * config.base_bound == 0x1_0000_0000);
        Ok(config)
    }

    /// Whether a run can be made with these dimensions.
    pub fn is_valid(&self) -> (ok: bool)
        ensures
            ok == valid(*self),
    {
        assert(self.segment_count * self.segment_width <= u64::MAX && self.base_bound
            * self.base_bound <= u64::MAX) by (nonlinear_arith)
            requires
                self.segment_count <= u32::MAX,
                self.segment_width <= u32::MAX,
                self.base_bound <= u32::MAX,
        ;
        let total: u64 = self.segment_count as u64 * self.segment_width as u64;
        let square: u64 = self.base_bound as u64 * self.base_bound as u64;
        self.segment_count >= 1 && total <= 0x1_0000_0000 && square >= total && plan_partition(
            self.segment_width,
            self.group_width,
            self.max_dispatch_groups,
        ).is_ok()
    }
}

} // verus!
