use vstd::prelude::*;
use crate::error::SieveError;

verus! {

/// `ceil(a / b)` for a positive `b`.
pub open spec fn div_ceil(a: int, b: int) -> int {
    (a + b - 1) / b
}

/// Fewest words that hold one bit per candidate.
pub open spec fn min_words(candidates: int) -> int {
    div_ceil(candidates, 32)
}

/// Dispatch groups that one word per lane would take.
pub open spec fn requested_groups(candidates: int, group_width: int) -> int {
    div_ceil(min_words(candidates), group_width)
}

/// The requested groups, clamped to the accelerator's limit.
pub open spec fn dispatch_groups(candidates: int, group_width: int, max_groups: int) -> int {
    if requested_groups(candidates, group_width) < max_groups {
        requested_groups(candidates, group_width)
    } else {
        max_groups
    }
}

/// Words in the buffer before the clamp: a whole number of groups.
pub open spec fn requested_words(candidates: int, group_width: int) -> int {
    requested_groups(candidates, group_width) * group_width
}

/// Lanes in one dispatch: `group_width * dispatch_groups`.
pub open spec fn lanes(candidates: int, group_width: int, max_groups: int) -> int {
    group_width * dispatch_groups(candidates, group_width, max_groups)
}

/// Words each lane covers so that the clamped dispatch still reaches every
/// requested word.
pub open spec fn words_per_lane(candidates: int, group_width: int, max_groups: int) -> int {
    div_ceil(
        requested_words(candidates, group_width),
        lanes(candidates, group_width, max_groups),
    )
}

/// Words in the final bitset.
pub open spec fn bitset_words(candidates: int, group_width: int, max_groups: int) -> int {
    words_per_lane(candidates, group_width, max_groups) * lanes(
        candidates,
        group_width,
        max_groups,
    )
}

/// The three inputs from which a geometry can be derived.
pub open spec fn plannable(candidates: int, group_width: int, max_groups: int) -> bool {
    candidates >= 1 && group_width >= 1 && max_groups >= 1
}

/// The shape of one kernel invocation, the same for every segment.
#[derive(Clone, Copy, Debug, PartialEq, Eq, Structural)]
pub struct Plan {
    pub group_width: u32,
    pub dispatch_groups: u32,
    pub words_per_lane: u32,
    pub bitset_words: u32,
}

impl Plan {
    /// The geometry is the one derived from the given inputs.
    pub open spec fn derived_from(self, candidates: int, group_width: int, max_groups: int) -> bool {
        &&& self.group_width == group_width
        &&& self.dispatch_groups == dispatch_groups(candidates, group_width, max_groups)
        &&& self.words_per_lane == words_per_lane(candidates, group_width, max_groups)
        &&& self.bitset_words == bitset_words(candidates, group_width, max_groups)
    }

    /// Every word of the bitset belongs to exactly one lane.
    pub open spec fn wf(self) -> bool {
        &&& self.group_width >= 1
        &&& self.dispatch_groups >= 1
        &&& self.words_per_lane >= 1
        &&& self.bitset_words == self.words_per_lane * self.group_width * self.dispatch_groups
    }

    /// Candidates that one bitset of this geometry can flag.
    pub open spec fn capacity(self) -> int {
        self.bitset_words * 32
    }
}

proof fn lemma_div_ceil_bounds(a: int, b: int)
    requires
        a >= 0,
        b >= 1,
    ensures
        div_ceil(a, b) * b >= a,
        div_ceil(a, b) * b < a + b,
        div_ceil(a, b) >= 0,
        a >= 1 ==> div_ceil(a, b) >= 1,
        div_ceil(a, b) <= a,
{
    let q = (a + b - 1) / b;
    let r = (a + b - 1) % b;
    assert(a + b - 1 == q * b + r && 0 <= r < b) by (nonlinear_arith)
        requires
            b >= 1,
            q == (a + b - 1) / b,
            r == (a + b - 1) % b,
    ;
    assert(q >= 0 && (a >= 1 ==> q >= 1) && q <= a) by (nonlinear_arith)
        requires
            a >= 0,
            b >= 1,
            a + b - 1 == q * b + r,
            0 <= r < b,
    ;
}

/// The planner's invariant: whatever the positive inputs, the planned bitset
/// has a bit for every candidate of a segment, and no fewer words than the
/// unclamped request.
pub proof fn lemma_plan_covers(candidates: int, group_width: int, max_groups: int)
    requires
        plannable(candidates, group_width, max_groups),
    ensures
        bitset_words(candidates, group_width, max_groups) >= min_words(candidates),
        bitset_words(candidates, group_width, max_groups) * 32 >= candidates,
        bitset_words(candidates, group_width, max_groups) >= requested_words(
            candidates,
            group_width,
        ),
        dispatch_groups(candidates, group_width, max_groups) >= 1,
        dispatch_groups(candidates, group_width, max_groups) <= max_groups,
        words_per_lane(candidates, group_width, max_groups) >= 1,
{
    let mw = min_words(candidates);
    lemma_div_ceil_bounds(candidates, 32);
    let rg = requested_groups(candidates, group_width);
    lemma_div_ceil_bounds(mw, group_width);
    let rw = requested_words(candidates, group_width);
    let dg = dispatch_groups(candidates, group_width, max_groups);
    let ln = lanes(candidates, group_width, max_groups);
    assert(ln >= 1 && rw >= 1) by (nonlinear_arith)
        requires
            ln == group_width * dg,
            rw == rg * group_width,
            group_width >= 1,
            dg >= 1,
            rg >= 1,
    ;
    lemma_div_ceil_bounds(rw, ln);
}

/// With inputs of 32 bits no count of the geometry leaves 32 bits: the
/// lanes of a dispatch never outnumber the requested words, and rounding the
/// words up to whole lanes less than doubles them.
pub proof fn lemma_plan_fits(candidates: int, group_width: int, max_groups: int)
    requires
        plannable(candidates, group_width, max_groups),
        candidates <= u32::MAX,
        group_width <= u32::MAX,
    ensures
        requested_words(candidates, group_width) <= u32::MAX,
        lanes(candidates, group_width, max_groups) <= requested_words(candidates, group_width),
        bitset_words(candidates, group_width, max_groups) <= u32::MAX,
{
    lemma_plan_covers(candidates, group_width, max_groups);
    let mw = min_words(candidates);
    lemma_div_ceil_bounds(candidates, 32);
    assert(mw <= 0x800_0000);
    let rg = requested_groups(candidates, group_width);
    lemma_div_ceil_bounds(mw, group_width);
    let rw = requested_words(candidates, group_width);
    let dg = dispatch_groups(candidates, group_width, max_groups);
    let ln = lanes(candidates, group_width, max_groups);
    let wpl = words_per_lane(candidates, group_width, max_groups);
    assert(1 <= ln <= rw) by (nonlinear_arith)
        requires
            ln == group_width * dg,
            rw == rg * group_width,
            1 <= dg <= rg,
            group_width >= 1,
    ;
    lemma_div_ceil_bounds(rw, ln);
    if rg == 1 {
        assert(rw == group_width && ln == group_width) by (nonlinear_arith)
            requires
                rw == rg * group_width,
                ln == group_width * dg,
                rg == 1,
                dg == 1,
        ;
        assert(wpl == 1) by (nonlinear_arith)
            requires
                wpl * ln < rw + ln,
                rw == ln,
                ln >= 1,
                wpl >= 1,
        ;
        assert(wpl * ln == ln) by (nonlinear_arith)
            requires
                wpl == 1,
        ;
    } else {
        assert(2 * group_width <= rw) by (nonlinear_arith)
            requires
                rw == rg * group_width,
                rg >= 2,
                group_width >= 1,
        ;
    }
}

/// Derives the dispatch geometry for segments of `candidates` candidates, on
/// an accelerator that runs lanes in groups of `group_width` and takes at
/// most `max_groups` groups in one dispatch.
///
/// Fails when an input is zero.
pub fn plan_partition(candidates: u32, group_width: u32, max_groups: u32) -> (planned: Result<
    Plan,
    SieveError,
>)
    ensures
        planned is Ok <==> plannable(candidates as int, group_width as int, max_groups as int),
        planned matches Ok(plan) ==> plan.derived_from(
            candidates as int,
            group_width as int,
            max_groups as int,
        ) && plan.wf() && plan.capacity() >= candidates,
        planned matches Err(e) ==> e == SieveError::Configuration,
{
    if candidates == 0 || group_width == 0 || max_groups == 0 {
        return Err(SieveError::Configuration);
    }
    proof {
        lemma_plan_covers(candidates as int, group_width as int, max_groups as int);
        lemma_plan_fits(candidates as int, group_width as int, max_groups as int);
        lemma_div_ceil_bounds(candidates as int, 32);
        lemma_div_ceil_bounds(min_words(candidates as int), group_width as int);
    }
    let width: u64 = group_width as u64;
    let min_words: u64 = (candidates as u64 + 31) / 32;
    let requested: u64 = (min_words + width - 1) / width;
    let groups: u64 = if requested < max_groups as u64 {
        requested
    } else {
        max_groups as u64
    };
    assert(requested * width < min_words + width);
    assert(requested * width <= 0x1_0800_0000);
    let requested_words: u64 = requested * width;
    assert(width * groups <= 0xffff_ffff * 0xffff_ffff) by (nonlinear_arith)
        requires
            width <= 0xffff_ffff,
            groups <= 0xffff_ffff,
    ;
    let lanes: u64 = width * groups;
    assert(lanes >= 1) by (nonlinear_arith)
        requires
            lanes == width * groups,
            width >= 1,
            groups >= 1,
    ;
    proof {
        lemma_div_ceil_bounds(requested_words as int, lanes as int);
    }
    let per_lane: u64 = (requested_words + lanes - 1) / lanes;
    assert(per_lane * lanes < requested_words + lanes);
    let words: u64 = per_lane * lanes;
    assert(per_lane * lanes == per_lane * width * groups) by (nonlinear_arith)
        requires
            lanes == width * groups,
    ;
    assert(per_lane <= words && groups <= max_groups) by (nonlinear_arith)
        requires
            words == per_lane * lanes,
            lanes >= 1,
            per_lane >= 1,
            groups <= max_groups,
    ;
    Ok(
        Plan {
            group_width,
            dispatch_groups: groups as u32,
            words_per_lane: per_lane as u32,
            bitset_words: words as u32,
        },
    )
}

} // verus!
