//! Partially mapped crossover of two permutations.

use vstd::prelude::*;

use rapidhash::{RapidHashMap, RapidHashSet};

use crate::rng::rng_below;

verus! {

/// A `rapidhash::RapidHashMap` from one value to another.
#[verifier::external_body]
pub struct ValueMap {
    map: RapidHashMap<usize, usize>,
}

/// The entries of a `ValueMap`.
pub uninterp spec fn value_map_entries(map: ValueMap) -> Map<usize, usize>;

/// `RapidHashMap::default`: a map with no entries.
#[verifier::external_body]
fn value_map_new() -> (result: ValueMap)
    ensures
        value_map_entries(result).dom() == Set::<usize>::empty(),
{
    ValueMap { map: RapidHashMap::default() }
}

/// `HashMap::insert` on a `RapidHashMap`: the key now maps to the value, a
/// value it had before replaced.
#[verifier::external_body]
fn value_map_insert(map: &mut ValueMap, key: usize, value: usize)
    ensures
        value_map_entries(*final(map)) == value_map_entries(*old(map)).insert(key, value),
{
    map.map.insert(key, value);
}

/// Indexing a `RapidHashMap` by a key: the value of the key, which must be
/// there (indexing panics on a missing key).
#[verifier::external_body]
fn value_map_get(map: &ValueMap, key: usize) -> (result: usize)
    requires
        value_map_entries(*map).contains_key(key),
    ensures
        result == value_map_entries(*map)[key],
{
    map.map[&key]
}

/// A `rapidhash::RapidHashSet` of values.
#[verifier::external_body]
pub struct ValueSet {
    set: RapidHashSet<usize>,
}

/// The members of a `ValueSet`.
pub uninterp spec fn value_set_members(set: ValueSet) -> Set<usize>;

/// `RapidHashSet::default`: a set with no members.
#[verifier::external_body]
fn value_set_new() -> (result: ValueSet)
    ensures
        value_set_members(result) == Set::<usize>::empty(),
{
    ValueSet { set: RapidHashSet::default() }
}

/// `HashSet::insert` on a `RapidHashSet`: the value is now a member.
#[verifier::external_body]
fn value_set_insert(set: &mut ValueSet, value: usize)
    ensures
        value_set_members(*final(set)) == value_set_members(*old(set)).insert(value),
{
    set.set.insert(value);
}

/// `HashSet::contains` on a `RapidHashSet`: whether the value is a member.
#[verifier::external_body]
fn value_set_contains(set: &ValueSet, value: usize) -> (result: bool)
    ensures
        result == value_set_members(*set).contains(value),
{
    set.set.contains(&value)
}

/// The values of `parent1` from `start` to `end`.
pub open spec fn segment_values(parent1: Seq<usize>, start: int, end: int) -> Set<usize> {
    Set::new(|v: usize| exists|j: int| start <= j <= end && #[trigger] parent1[j] == v)
}

/// The position in the segment of `parent1` that holds `v`.
pub open spec fn segment_position(parent1: Seq<usize>, start: int, end: int, v: usize) -> int {
    choose|j: int| start <= j <= end && #[trigger] parent1[j] == v
}

/// The value of `parent2` at the position where `parent1` holds `v`.
pub open spec fn mapped(parent1: Seq<usize>, parent2: Seq<usize>, start: int, end: int, v: usize) -> usize {
    parent2[segment_position(parent1, start, end, v)]
}

/// `v` followed through the mapping, at most `steps` times, until it leaves
/// the segment's values.
pub open spec fn resolve(
    parent1: Seq<usize>,
    parent2: Seq<usize>,
    start: int,
    end: int,
    v: usize,
    steps: nat,
) -> usize
    decreases steps,
{
    if steps == 0 || !segment_values(parent1, start, end).contains(v) {
        v
    } else {
        resolve(parent1, parent2, start, end, mapped(parent1, parent2, start, end, v), (steps - 1) as nat)
    }
}

/// The child of partially mapped crossover for the segment from `start` to
/// `end`: the segment of `parent1` in place, every other position the value
/// of `parent2` there followed through the mapping out of the segment.
pub open spec fn pmx_child(parent1: Seq<usize>, parent2: Seq<usize>, start: int, end: int) -> Seq<usize> {
    Seq::new(
        parent1.len(),
        |i: int|
            if start <= i <= end {
                parent1[i]
            } else {
                resolve(parent1, parent2, start, end, parent2[i], (end - start + 1) as nat)
            },
    )
}

/// A chain of distinct positions, all in `lo..hi`, is no longer than the range.
proof fn lemma_distinct_positions_fit(positions: Seq<int>, lo: int, hi: int)
    requires
        lo <= hi,
        positions.no_duplicates(),
        forall|t: int| 0 <= t < positions.len() ==> lo <= #[trigger] positions[t] < hi,
    ensures
        positions.len() <= hi - lo,
{
    positions.unique_seq_to_set();
    vstd::set_lib::lemma_int_range(lo, hi);
    assert(positions.to_set().subset_of(vstd::set_lib::set_int_range(lo, hi)));
    vstd::set_lib::lemma_len_subset(positions.to_set(), vstd::set_lib::set_int_range(lo, hi));
}

/// `v` followed through the mapping exactly `steps` times.
pub open spec fn walk(
    parent1: Seq<usize>,
    parent2: Seq<usize>,
    start: int,
    end: int,
    v: usize,
    steps: nat,
) -> usize
    decreases steps,
{
    if steps == 0 {
        v
    } else {
        mapped(parent1, parent2, start, end, walk(parent1, parent2, start, end, v, (steps - 1) as nat))
    }
}

/// A segment of two parents without repeated values.
pub open spec fn distinct_parents(parent1: Seq<usize>, parent2: Seq<usize>, start: int, end: int) -> bool {
    &&& 0 <= start <= end < parent1.len()
    &&& parent2.len() >= parent1.len()
    &&& parent1.no_duplicates()
    &&& parent2.no_duplicates()
}

/// A value of the segment stands at its position in the segment, and a
/// position of the segment is where its value stands.
proof fn lemma_segment_position(parent1: Seq<usize>, parent2: Seq<usize>, start: int, end: int, v: usize)
    requires
        distinct_parents(parent1, parent2, start, end),
        segment_values(parent1, start, end).contains(v),
    ensures
        start <= segment_position(parent1, start, end, v) <= end,
        parent1[segment_position(parent1, start, end, v)] == v,
        forall|j: int| start <= j <= end && parent1[j] == v ==> segment_position(parent1, start, end, v) == j,
{
}

/// Walking one step further is walking on from the first step.
proof fn lemma_walk_shift(parent1: Seq<usize>, parent2: Seq<usize>, start: int, end: int, v: usize, steps: nat)
    ensures
        walk(parent1, parent2, start, end, mapped(parent1, parent2, start, end, v), steps) == walk(
            parent1,
            parent2,
            start,
            end,
            v,
            steps + 1,
        ),
    decreases steps,
{
    let next = mapped(parent1, parent2, start, end, v);
    assert(walk(parent1, parent2, start, end, v, steps + 1) == mapped(
        parent1,
        parent2,
        start,
        end,
        walk(parent1, parent2, start, end, v, steps),
    ));
    if steps > 0 {
        lemma_walk_shift(parent1, parent2, start, end, v, (steps - 1) as nat);
        assert(walk(parent1, parent2, start, end, next, steps) == mapped(
            parent1,
            parent2,
            start,
            end,
            walk(parent1, parent2, start, end, next, (steps - 1) as nat),
        ));
    } else {
        assert(walk(parent1, parent2, start, end, v, 0) == v);
    }
}

/// Resolving is walking until the value leaves the segment, or the steps
/// run out.
proof fn lemma_resolve_is_walk(parent1: Seq<usize>, parent2: Seq<usize>, start: int, end: int, v: usize, n: nat) -> (t: nat)
    ensures
        t <= n,
        resolve(parent1, parent2, start, end, v, n) == walk(parent1, parent2, start, end, v, t),
        forall|s: nat| s < t ==> segment_values(parent1, start, end).contains(
            #[trigger] walk(parent1, parent2, start, end, v, s),
        ),
        segment_values(parent1, start, end).contains(resolve(parent1, parent2, start, end, v, n)) ==> t == n,
    decreases n,
{
    if n == 0 || !segment_values(parent1, start, end).contains(v) {
        0
    } else {
        let next = mapped(parent1, parent2, start, end, v);
        let t1 = lemma_resolve_is_walk(parent1, parent2, start, end, next, (n - 1) as nat);
        lemma_walk_shift(parent1, parent2, start, end, v, t1);
        assert forall|s: nat| s < t1 + 1 implies segment_values(parent1, start, end).contains(
            #[trigger] walk(parent1, parent2, start, end, v, s),
        ) by {
            if s > 0 {
                lemma_walk_shift(parent1, parent2, start, end, v, (s - 1) as nat);
            }
        }
        t1 + 1
    }
}

/// Two walks from positions outside the segment that stay in the segment's
/// values until they meet start at the same position and take as long.
proof fn lemma_walks_meet(
    parent1: Seq<usize>,
    parent2: Seq<usize>,
    start: int,
    end: int,
    i: int,
    t: nat,
    i2: int,
    t2: nat,
)
    requires
        distinct_parents(parent1, parent2, start, end),
        0 <= i < parent1.len(),
        0 <= i2 < parent1.len(),
        !(start <= i <= end),
        !(start <= i2 <= end),
        forall|s: nat| s < t ==> segment_values(parent1, start, end).contains(
            #[trigger] walk(parent1, parent2, start, end, parent2[i], s),
        ),
        forall|s: nat| s < t2 ==> segment_values(parent1, start, end).contains(
            #[trigger] walk(parent1, parent2, start, end, parent2[i2], s),
        ),
        walk(parent1, parent2, start, end, parent2[i], t) == walk(parent1, parent2, start, end, parent2[i2], t2),
    ensures
        i == i2,
        t == t2,
    decreases t + t2,
{
    if t == 0 && t2 == 0 {
    } else if t == 0 {
        let u = walk(parent1, parent2, start, end, parent2[i2], (t2 - 1) as nat);
        assert(segment_values(parent1, start, end).contains(u));
        lemma_segment_position(parent1, parent2, start, end, u);
    } else if t2 == 0 {
        let u = walk(parent1, parent2, start, end, parent2[i], (t - 1) as nat);
        assert(segment_values(parent1, start, end).contains(u));
        lemma_segment_position(parent1, parent2, start, end, u);
    } else {
        let u = walk(parent1, parent2, start, end, parent2[i], (t - 1) as nat);
        let u2 = walk(parent1, parent2, start, end, parent2[i2], (t2 - 1) as nat);
        assert(segment_values(parent1, start, end).contains(u));
        assert(segment_values(parent1, start, end).contains(u2));
        lemma_segment_position(parent1, parent2, start, end, u);
        lemma_segment_position(parent1, parent2, start, end, u2);
        lemma_walks_meet(parent1, parent2, start, end, i, (t - 1) as nat, i2, (t2 - 1) as nat);
    }
}

/// A walk from a position outside the segment leaves the segment's values
/// within as many steps as the segment is long.
proof fn lemma_walk_leaves(parent1: Seq<usize>, parent2: Seq<usize>, start: int, end: int, i: int)
    requires
        distinct_parents(parent1, parent2, start, end),
        0 <= i < parent1.len(),
        !(start <= i <= end),
    ensures
        exists|t: nat| t <= end - start + 1 && !segment_values(parent1, start, end).contains(
            #[trigger] walk(parent1, parent2, start, end, parent2[i], t),
        ),
{
    let span = (end - start + 1) as nat;
    let seg = segment_values(parent1, start, end);
    if forall|t: nat| t <= span ==> seg.contains(#[trigger] walk(parent1, parent2, start, end, parent2[i], t)) {
        let positions = Seq::new(
            span + 1,
            |s: int| segment_position(parent1, start, end, walk(parent1, parent2, start, end, parent2[i], s as nat)),
        );
        assert forall|s: int| 0 <= s < positions.len() implies start <= #[trigger] positions[s] < end + 1 by {
            lemma_segment_position(parent1, parent2, start, end, walk(parent1, parent2, start, end, parent2[i], s as nat));
        }
        if positions.no_duplicates() {
            lemma_distinct_positions_fit(positions, start, end + 1);
        } else {
            let (s, s2) = choose|s: int, s2: int|
                0 <= s < positions.len() && 0 <= s2 < positions.len() && s != s2 && positions[s] == positions[s2];
            let w = walk(parent1, parent2, start, end, parent2[i], s as nat);
            let w2 = walk(parent1, parent2, start, end, parent2[i], s2 as nat);
            lemma_segment_position(parent1, parent2, start, end, w);
            lemma_segment_position(parent1, parent2, start, end, w2);
            lemma_walks_meet(parent1, parent2, start, end, i, s as nat, i, s2 as nat);
        }
    }
}

/// The value of the child at a position outside the segment: out of the
/// segment's values, and a value of `parent2`.
proof fn lemma_outside_value(parent1: Seq<usize>, parent2: Seq<usize>, start: int, end: int, i: int) -> (t: nat)
    requires
        distinct_parents(parent1, parent2, start, end),
        0 <= i < parent1.len(),
        !(start <= i <= end),
    ensures
        pmx_child(parent1, parent2, start, end)[i] == walk(parent1, parent2, start, end, parent2[i], t),
        forall|s: nat| s < t ==> segment_values(parent1, start, end).contains(
            #[trigger] walk(parent1, parent2, start, end, parent2[i], s),
        ),
        !segment_values(parent1, start, end).contains(pmx_child(parent1, parent2, start, end)[i]),
        parent2.contains(pmx_child(parent1, parent2, start, end)[i]),
{
    let span = (end - start + 1) as nat;
    let t = lemma_resolve_is_walk(parent1, parent2, start, end, parent2[i], span);
    lemma_walk_leaves(parent1, parent2, start, end, i);
    let value = walk(parent1, parent2, start, end, parent2[i], t);
    if segment_values(parent1, start, end).contains(value) {
        let t0 = choose|t0: nat| t0 <= span && !segment_values(parent1, start, end).contains(
            #[trigger] walk(parent1, parent2, start, end, parent2[i], t0),
        );
        if t0 < t {
        } else {
            assert(t0 == t);
        }
    }
    if t == 0 {
        assert(parent2[i] == value);
    } else {
        let u = walk(parent1, parent2, start, end, parent2[i], (t - 1) as nat);
        assert(segment_values(parent1, start, end).contains(u));
        lemma_segment_position(parent1, parent2, start, end, u);
        assert(parent2[segment_position(parent1, start, end, u)] == value);
    }
    t
}

/// Partially mapped crossover of two permutations of the same values is
/// again a permutation of them: no value twice, every value once.
pub proof fn pmx_child_is_a_permutation(parent1: Seq<usize>, parent2: Seq<usize>, start: int, end: int)
    requires
        0 <= start <= end < parent1.len(),
        parent2.len() == parent1.len(),
        parent1.no_duplicates(),
        parent2.no_duplicates(),
        parent1.to_set() == parent2.to_set(),
    ensures
        pmx_child(parent1, parent2, start, end).len() == parent1.len(),
        pmx_child(parent1, parent2, start, end).no_duplicates(),
        pmx_child(parent1, parent2, start, end).to_set() == parent1.to_set(),
{
    let child = pmx_child(parent1, parent2, start, end);
    let seg = segment_values(parent1, start, end);
    assert forall|a: int, b: int| 0 <= a < child.len() && 0 <= b < child.len() && a != b implies child[a]
        != child[b] by {
        if start <= a <= end && start <= b <= end {
        } else if start <= a <= end {
            lemma_outside_value(parent1, parent2, start, end, b);
            assert(seg.contains(child[a]));
        } else if start <= b <= end {
            lemma_outside_value(parent1, parent2, start, end, a);
            assert(seg.contains(child[b]));
        } else {
            let ta = lemma_outside_value(parent1, parent2, start, end, a);
            let tb = lemma_outside_value(parent1, parent2, start, end, b);
            if child[a] == child[b] {
                lemma_walks_meet(parent1, parent2, start, end, a, ta, b, tb);
            }
        }
    }
    assert forall|v: usize| child.to_set().contains(v) implies parent1.to_set().contains(v) by {
        let i = choose|i: int| 0 <= i < child.len() && child[i] == v;
        if !(start <= i <= end) {
            lemma_outside_value(parent1, parent2, start, end, i);
            assert(parent2.to_set().contains(v));
        } else {
            assert(parent1.contains(v));
        }
    }
    child.unique_seq_to_set();
    parent1.unique_seq_to_set();
    vstd::seq_lib::seq_to_set_is_finite(child);
    vstd::seq_lib::seq_to_set_is_finite(parent1);
    vstd::set_lib::lemma_subset_equality(child.to_set(), parent1.to_set());
}

/// Partially Mapped Crossover (PMX): copies a segment from parent1, then
/// fills remaining positions using a mapping to resolve conflicts.
#[derive(Debug, Default, Clone, Copy)]
pub struct Pmx;

impl Pmx {
    pub fn new() -> (result: Self) {
        Pmx
    }

    /// The child for a segment drawn at random, and that segment.
    pub fn crossover_internal(self, parent1: &[usize], parent2: &[usize], rng: &mut fastrand::Rng) -> (result: (
        Vec<usize>,
        (usize, usize),
    ))
        requires
            parent1@.len() > 0,
            parent2@.len() >= parent1@.len(),
            parent1@.no_duplicates(),
            parent2@.no_duplicates(),
        ensures
            result.1.0 <= result.1.1 < parent1@.len(),
            result.0@ == pmx_child(parent1@, parent2@, result.1.0 as int, result.1.1 as int),
            forall|i: int|
                0 <= i < parent1@.len() && !(result.1.0 <= i <= result.1.1) ==> !segment_values(
                    parent1@,
                    result.1.0 as int,
                    result.1.1 as int,
                ).contains(#[trigger] result.0@[i]),
    {
        let size = parent1.len();
        let a = rng_below(rng, size);
        let b = rng_below(rng, size);
        self.crossover_drawn(parent1, parent2, a, b)
    }

    /// The child for the segment between two drawn cells `a` and `b`: it
    /// runs from the lower of the two to the higher.
    #[verifier::rlimit(30)]
    pub fn crossover_drawn(self, parent1: &[usize], parent2: &[usize], a: usize, b: usize) -> (result: (
        Vec<usize>,
        (usize, usize),
    ))
        requires
            a < parent1@.len(),
            b < parent1@.len(),
            parent1@.len() > 0,
            parent2@.len() >= parent1@.len(),
            parent1@.no_duplicates(),
            parent2@.no_duplicates(),
        ensures
            result.1.0 == if a <= b { a } else { b },
            result.1.1 == if a <= b { b } else { a },
            result.1.0 <= result.1.1 < parent1@.len(),
            result.0@ == pmx_child(parent1@, parent2@, result.1.0 as int, result.1.1 as int),
            forall|i: int|
                0 <= i < parent1@.len() && !(result.1.0 <= i <= result.1.1) ==> !segment_values(
                    parent1@,
                    result.1.0 as int,
                    result.1.1 as int,
                ).contains(#[trigger] result.0@[i]),
    {
        let size = parent1.len();
        let (start, end) = if a <= b {
            (a, b)
        } else {
            (b, a)
        };
        let ghost p1 = parent1@;
        let ghost p2 = parent2@;
        let ghost seg = segment_values(p1, start as int, end as int);
        let ghost span = (end - start + 1) as nat;

        let mut mapping = value_map_new();
        let mut values = value_set_new();
        let mut k: usize = start;
        while k <= end
            invariant
                start <= k <= end + 1,
                end < size == p1.len() <= p2.len(),
                p1 == parent1@,
                p2 == parent2@,
                p1.no_duplicates(),
                value_set_members(values) == Set::new(
                    |v: usize| exists|j: int| start <= j < k && #[trigger] p1[j] == v,
                ),
                forall|j: int| start <= j < k ==> value_map_entries(mapping).contains_key(#[trigger] p1[j])
                    && value_map_entries(mapping)[p1[j]] == p2[j],
                forall|v: usize| #[trigger] value_map_entries(mapping).contains_key(v) ==> exists|j: int|
                    start <= j < k && #[trigger] p1[j] == v,
            decreases end + 1 - k,
        {
            let ghost before_members = value_set_members(values);
            let ghost before_entries = value_map_entries(mapping);
            value_map_insert(&mut mapping, parent1[k], parent2[k]);
            value_set_insert(&mut values, parent1[k]);
            proof {
                assert forall|j: int| start <= j < k + 1 implies value_map_entries(mapping).contains_key(#[trigger] p1[j])
                    && value_map_entries(mapping)[p1[j]] == p2[j] by {
                    if j < k {
                        assert(p1[j] != p1[k as int]);
                    }
                }
                assert forall|v: usize| #[trigger] value_map_entries(mapping).contains_key(v) implies exists|j: int|
                    start <= j < k + 1 && #[trigger] p1[j] == v by {
                    if v != p1[k as int] {
                        assert(before_entries.contains_key(v));
                    }
                }
                assert(value_set_members(values) =~= Set::new(
                    |v: usize| exists|j: int| start <= j < k + 1 && #[trigger] p1[j] == v,
                )) by {
                    assert forall|v: usize| (exists|j: int| start <= j < k + 1 && #[trigger] p1[j] == v)
                        implies #[trigger] value_set_members(values).contains(v) by {
                        let j = choose|j: int| start <= j < k + 1 && #[trigger] p1[j] == v;
                        if j < k {
                            assert(before_members.contains(v));
                        }
                    }
                }
            }
            k = k + 1;
        }
        assert(value_set_members(values) =~= seg);

        let mut child: Vec<usize> = Vec::new();
        let mut i: usize = 0;
        while i < size
            invariant
                i <= size == p1.len() <= p2.len(),
                start <= end < size,
                p1 == parent1@,
                p2 == parent2@,
                p1.no_duplicates(),
                p2.no_duplicates(),
                seg == segment_values(p1, start as int, end as int),
                span == end - start + 1,
                value_set_members(values) == seg,
                forall|j: int| start <= j <= end ==> value_map_entries(mapping).contains_key(#[trigger] p1[j])
                    && value_map_entries(mapping)[p1[j]] == p2[j],
                child@.len() == i,
                forall|m: int| 0 <= m < i ==> #[trigger] child@[m] == pmx_child(p1, p2, start as int, end as int)[m],
                forall|m: int| 0 <= m < i && !(start <= m <= end) ==> !seg.contains(#[trigger] child@[m]),
            decreases size - i,
        {
            if start <= i && i <= end {
                child.push(parent1[i]);
            } else {
                let mut value = parent2[i];
                let ghost mut positions: Seq<int> = Seq::empty();
                let ghost mut chain: Seq<usize> = seq![value];
                while value_set_contains(&values, value)
                    invariant
                        i < size == p1.len() <= p2.len(),
                        !(start <= i <= end),
                        start <= end < size,
                        p1.no_duplicates(),
                        p2.no_duplicates(),
                        seg == segment_values(p1, start as int, end as int),
                        span == end - start + 1,
                        value_set_members(values) == seg,
                        forall|j: int| start <= j <= end ==> value_map_entries(mapping).contains_key(#[trigger] p1[j])
                            && value_map_entries(mapping)[p1[j]] == p2[j],
                        chain.len() == positions.len() + 1,
                        chain[0] == p2[i as int],
                        chain.last() == value,
                        forall|t: int| 0 <= t < positions.len() ==> start <= #[trigger] positions[t] <= end,
                        forall|t: int| 0 <= t < positions.len() ==> p1[#[trigger] positions[t]] == chain[t],
                        forall|t: int| 0 <= t < positions.len() ==> chain[t + 1] == p2[#[trigger] positions[t]],
                        positions.no_duplicates(),
                        positions.len() <= span,
                        resolve(p1, p2, start as int, end as int, value, (span - positions.len()) as nat)
                            == resolve(p1, p2, start as int, end as int, p2[i as int], span),
                    decreases span - positions.len(),
                {
                    let ghost j = segment_position(p1, start as int, end as int, value);
                    let ghost n: int = positions.len() as int;
                    proof {
                        assert(seg.contains(value));
                        assert(start <= j <= end && p1[j] == value);
                        assert forall|t: int| 0 <= t < n implies #[trigger] positions[t] != j by {
                            if positions[t] == j {
                                assert(chain[t] == value);
                                assert(chain[n] == value);
                                if t == 0 {
                                    assert(chain[n] == p2[positions[n - 1]]);
                                    assert(positions[n - 1] != i);
                                } else {
                                    assert(chain[t] == p2[positions[t - 1]]);
                                    assert(chain[n] == p2[positions[n - 1]]);
                                    assert(positions[t - 1] == positions[n - 1]);
                                }
                            }
                        }
                        let next = positions.push(j);
                        assert(next.no_duplicates());
                        lemma_distinct_positions_fit(next, start as int, end + 1);
                        assert(value_map_entries(mapping)[p1[j]] == p2[j]);
                    }
                    let next_value = value_map_get(&mapping, value);
                    proof {
                        assert(mapped(p1, p2, start as int, end as int, value) == next_value);
                        assert(resolve(p1, p2, start as int, end as int, value, (span - n) as nat) == resolve(
                            p1,
                            p2,
                            start as int,
                            end as int,
                            next_value,
                            (span - n - 1) as nat,
                        ));
                        positions = positions.push(j);
                        chain = chain.push(next_value);
                    }
                    value = next_value;
                }
                proof {
                    assert(resolve(p1, p2, start as int, end as int, value, (span - positions.len()) as nat) == value);
                }
                child.push(value);
            }
            i = i + 1;
        }
        assert(child@ =~= pmx_child(p1, p2, start as int, end as int));
        (child, (start, end))
    }

    /// The child of partially mapped crossover for a random segment.
    pub fn crossover(&self, parent1: &[usize], parent2: &[usize], rng: &mut fastrand::Rng) -> (result: Vec<usize>)
        requires
            parent1@.len() > 0,
            parent2@.len() >= parent1@.len(),
            parent1@.no_duplicates(),
            parent2@.no_duplicates(),
        ensures
            exists|start: int, end: int|
                0 <= start <= end < parent1@.len() && result@ == pmx_child(parent1@, parent2@, start, end),
    {
        let (child, (start, end)) = self.crossover_internal(parent1, parent2, rng);
        proof {
            assert(child@ == pmx_child(parent1@, parent2@, start as int, end as int));
        }
        child
    }
}

} // verus!
