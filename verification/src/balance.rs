//! The zone balancer: merges the two smallest zones while their sizes add up
//! to less than the merge threshold, and splits the largest zone while it
//! holds more channels than the split threshold, until neither applies.

use crate::numbers::{decimal, decimal_string};
use crate::sorting::{lex_sort, ranks, sort_strings, Ranked};
use crate::text::{append_str, str_eq};
use crate::zones::{
    all_channels, channels_of, has_key, lemma_all_channels_push, lemma_all_channels_remove,
    lemma_push_zone, lemma_snapshot, lemma_without_key, position, registry_wf, snapshot_of,
    without_key, Cluster, ZoneRegistry, ZoneView,
};
use vstd::prelude::*;

verus! {

/// The largest suffix number that the search for a free split key tries.
pub const MAX_SUFFIX: u32 = 4294967295;

/// Why balancing stopped before the registry was balanced.
#[derive(Clone, Copy, Debug, PartialEq, Eq, Structural)]
pub enum BalanceError {
    /// The key of a merged zone is already the key of another zone.
    KeyCollision,
    /// Fewer than two suffix numbers up to `MAX_SUFFIX` are free for the
    /// halves of a split zone.
    SuffixExhausted,
}

/// The two thresholds suit each other: a zone that is split holds at least
/// two channels, and a zone that results from a merge is never split. With
/// such thresholds the rounds of the balancer come to an end.
pub open spec fn thresholds_ok(merge: nat, split: nat) -> bool {
    split >= 1 && merge <= split + 1
}

/// The size bounds of the balancer. Two zones merge when their sizes add up
/// to less than `merge`; a zone splits when it holds more than `split`
/// channels.
#[derive(Clone, Copy, Debug)]
pub struct Thresholds {
    merge: usize,
    split: usize,
}

impl Thresholds {
    /// The merge threshold.
    pub closed spec fn merge_spec(&self) -> nat {
        self.merge as nat
    }

    /// The split threshold.
    pub closed spec fn split_spec(&self) -> nat {
        self.split as nat
    }

    /// The thresholds suit each other.
    pub open spec fn wf(&self) -> bool {
        thresholds_ok(self.merge_spec(), self.split_spec())
    }

    /// The thresholds `merge` and `split`, if they suit each other.
    pub fn new(merge: usize, split: usize) -> (r: Option<Thresholds>)
        ensures
            r is Some <==> thresholds_ok(merge as nat, split as nat),
            r is Some ==> r->0.wf() && r->0.merge_spec() == merge && r->0.split_spec() == split,
    {
        if split >= 1 && (merge == 0 || merge - 1 <= split) {
            Some(Thresholds { merge, split })
        } else {
            None
        }
    }

    /// The merge threshold.
    pub fn merge(&self) -> (m: usize)
        ensures
            m == self.merge_spec(),
    {
        self.merge
    }

    /// The split threshold.
    pub fn split(&self) -> (s: usize)
        ensures
            s == self.split_spec(),
    {
        self.split
    }
}

impl Default for Thresholds {
    /// Merge below 50, split above 100.
    fn default() -> (r: Thresholds)
        ensures
            r.wf(),
            r.merge_spec() == 50,
            r.split_spec() == 100,
    {
        Thresholds { merge: 50, split: 100 }
    }
}

/// The key of the `n`-th part of the zone `base`.
pub open spec fn suffix_key(base: Seq<char>, n: nat) -> Seq<char> {
    base + seq!['_'] + decimal(n)
}

/// The key under which `low` and `high` are merged.
pub open spec fn joined_key(low: Seq<char>, high: Seq<char>) -> Seq<char> {
    low + seq!['/'] + high
}

/// The keys of the registry.
pub open spec fn keys(s: Seq<ZoneView>) -> Set<Seq<char>> {
    Set::new(|k: Seq<char>| has_key(s, k))
}

/// The smallest `n` from `from` up to `MAX_SUFFIX` for which the key of the
/// `n`-th part of `base` is not taken.
pub open spec fn first_free(taken: Set<Seq<char>>, base: Seq<char>, from: nat) -> Option<nat>
    decreases MAX_SUFFIX + 1 - from,
{
    if from > MAX_SUFFIX {
        None
    } else if !taken.contains(suffix_key(base, from)) {
        Some(from)
    } else {
        first_free(taken, base, from + 1)
    }
}

/// The suffix numbers for the two halves of the zone `base`: the smallest
/// free one from 1, and the smallest one after it that is free too.
pub open spec fn fresh_suffixes(s: Seq<ZoneView>, base: Seq<char>) -> Option<(nat, nat)> {
    match first_free(keys(s), base, 1) {
        None => None,
        Some(n1) => match first_free(keys(s).insert(suffix_key(base, n1)), base, n1 + 1) {
            None => None,
            Some(n2) => Some((n1, n2)),
        },
    }
}

/// The merge rule applies: there are at least three zones and the two
/// smallest hold fewer than `merge` channels together.
pub open spec fn merge_applies(s: Seq<ZoneView>, merge: nat) -> bool {
    let c = snapshot_of(s);
    c.len() >= 3 && c[0].size + c[1].size < merge
}

/// The key of the zone that the merge rule creates.
pub open spec fn merged_key(s: Seq<ZoneView>) -> Seq<char> {
    let c = snapshot_of(s);
    joined_key(c[0].key, c[1].key)
}

/// The registry after a merge: the two smallest zones are gone, and a new last
/// zone holds the channels of the smallest followed by those of the second.
pub open spec fn merged(s: Seq<ZoneView>) -> Seq<ZoneView> {
    let c = snapshot_of(s);
    without_key(without_key(s, c[0].key), c[1].key).push(
        ZoneView {
            key: merged_key(s),
            channels: channels_of(s, c[0].key) + channels_of(s, c[1].key),
        },
    )
}

/// The split rule applies: the largest zone holds more than `split` channels.
pub open spec fn split_applies(s: Seq<ZoneView>, split: nat) -> bool {
    let c = snapshot_of(s);
    c.len() >= 1 && c.last().size > split
}

/// The key of the largest zone.
pub open spec fn largest_key(s: Seq<ZoneView>) -> Seq<char> {
    snapshot_of(s).last().key
}

/// The registry after a split: the largest zone is gone, and two new last
/// zones hold the lower and the upper half of its sorted channels, the lower
/// half being the smaller by one when the size is odd.
pub open spec fn split_zones(s: Seq<ZoneView>, n1: nat, n2: nat) -> Seq<ZoneView> {
    let key = largest_key(s);
    let sorted = lex_sort(channels_of(s, key));
    let half = sorted.len() / 2;
    without_key(s, key).push(
        ZoneView { key: suffix_key(key, n1), channels: sorted.subrange(0, half as int) },
    ).push(
        ZoneView {
            key: suffix_key(key, n2),
            channels: sorted.subrange(half as int, sorted.len() as int),
        },
    )
}

/// What one round of the balancer does to a registry.
pub enum Step {
    /// Neither rule applies.
    Stable,
    /// A rule applied and gave this registry.
    Next(Seq<ZoneView>),
    /// A rule applied and could not be carried out.
    Failed(BalanceError),
}

/// One round: the merge rule if it applies, else the split rule if it
/// applies.
pub open spec fn step(s: Seq<ZoneView>, merge: nat, split: nat) -> Step {
    if merge_applies(s, merge) {
        if has_key(s, merged_key(s)) {
            Step::Failed(BalanceError::KeyCollision)
        } else {
            Step::Next(merged(s))
        }
    } else if split_applies(s, split) {
        match fresh_suffixes(s, largest_key(s)) {
            None => Step::Failed(BalanceError::SuffixExhausted),
            Some((n1, n2)) => Step::Next(split_zones(s, n1, n2)),
        }
    } else {
        Step::Stable
    }
}

/// The registry is balanced: neither rule applies.
pub open spec fn stable(s: Seq<ZoneView>, merge: nat, split: nat) -> bool {
    step(s, merge, split) is Stable
}

/// What a zone of `size` channels still owes to the split rule.
pub open spec fn weight(size: nat, split: nat) -> nat {
    if size > split {
        (2 * size - 1) as nat
    } else {
        0
    }
}

/// The weights of all zones together.
pub open spec fn excess(s: Seq<ZoneView>, split: nat) -> nat
    decreases s.len(),
{
    if s.len() == 0 {
        0
    } else {
        excess(s.drop_last(), split) + weight(s.last().channels.len(), split)
    }
}

/// A bound on the rounds that are left: it falls with every round.
pub open spec fn potential(s: Seq<ZoneView>, split: nat) -> nat {
    2 * excess(s, split) + s.len()
}

/// Where the rounds of the balancer lead from `s`: the last registry reached,
/// and the failure that stopped the rounds there, if any.
pub open spec fn balanced(s: Seq<ZoneView>, merge: nat, split: nat) -> (
    Seq<ZoneView>,
    Option<BalanceError>,
)
    decreases potential(s, split),
    when registry_wf(s) && thresholds_ok(merge, split)
    via balanced_decreases
{
    match step(s, merge, split) {
        Step::Stable => (s, None),
        Step::Failed(e) => (s, Some(e)),
        Step::Next(next) => balanced(next, merge, split),
    }
}

#[via_fn]
proof fn balanced_decreases(s: Seq<ZoneView>, merge: nat, split: nat) {
    if step(s, merge, split) is Next {
        lemma_step_next(s, merge, split);
    }
}

proof fn lemma_excess_push(s: Seq<ZoneView>, z: ZoneView, split: nat)
    ensures
        excess(s.push(z), split) == excess(s, split) + weight(z.channels.len(), split),
{
    assert(s.push(z).drop_last() =~= s);
}

proof fn lemma_excess_remove(s: Seq<ZoneView>, i: int, split: nat)
    requires
        0 <= i < s.len(),
    ensures
        excess(s, split) == excess(s.remove(i), split) + weight(s[i].channels.len(), split),
    decreases s.len(),
{
    if i == s.len() - 1 {
        assert(s.remove(i) =~= s.drop_last());
    } else {
        lemma_excess_remove(s.drop_last(), i, split);
        assert(s.remove(i).drop_last() =~= s.drop_last().remove(i));
        assert(s.remove(i).last() == s.last());
    }
}

/// What `first_free` finds is free, lies in the range searched, and follows
/// only taken numbers; it finds nothing only if every number is taken.
pub proof fn lemma_first_free(taken: Set<Seq<char>>, base: Seq<char>, from: nat)
    ensures
        match first_free(taken, base, from) {
            Some(n) => {
                &&& from <= n <= MAX_SUFFIX
                &&& !taken.contains(suffix_key(base, n))
                &&& forall|m: nat| from <= m < n ==> taken.contains(#[trigger] suffix_key(base, m))
            },
            None => forall|m: nat|
                from <= m <= MAX_SUFFIX ==> taken.contains(#[trigger] suffix_key(base, m)),
        },
    decreases MAX_SUFFIX + 1 - from,
{
    if from <= MAX_SUFFIX && taken.contains(suffix_key(base, from)) {
        lemma_first_free(taken, base, from + 1);
    }
}

/// A round that changes the registry keeps it well formed, keeps its
/// channels, and lowers the potential.
pub proof fn lemma_step_next(s: Seq<ZoneView>, merge: nat, split: nat)
    requires
        registry_wf(s),
        thresholds_ok(merge, split),
        step(s, merge, split) is Next,
    ensures
        registry_wf(step(s, merge, split)->Next_0),
        all_channels(step(s, merge, split)->Next_0) == all_channels(s),
        potential(step(s, merge, split)->Next_0, split) < potential(s, split),
{
    broadcast use vstd::multiset::group_multiset_axioms;

    let c = snapshot_of(s);
    lemma_snapshot(s);
    if merge_applies(s, merge) {
        let k0 = c[0].key;
        let k1 = c[1].key;
        let p0 = position(s, k0);
        let r1 = without_key(s, k0);
        lemma_without_key(s, k0);
        assert(has_key(r1, k1));
        let p1 = position(r1, k1);
        let r2 = without_key(r1, k1);
        lemma_without_key(r1, k1);
        let z = ZoneView { key: merged_key(s), channels: channels_of(s, k0) + channels_of(s, k1) };
        assert(!has_key(r2, z.key));
        lemma_push_zone(r2, z);
        lemma_all_channels_remove(s, p0);
        lemma_all_channels_remove(r1, p1);
        lemma_all_channels_push(r2, z);
        vstd::seq_lib::lemma_multiset_commutative(channels_of(s, k0), channels_of(s, k1));
        assert(channels_of(r1, k1) == channels_of(s, k1));
        assert(all_channels(r2.push(z)) =~= all_channels(s));
        lemma_excess_remove(s, p0, split);
        lemma_excess_remove(r1, p1, split);
        lemma_excess_push(r2, z, split);
    } else {
        let key = largest_key(s);
        let (n1, n2) = fresh_suffixes(s, key)->0;
        let list = channels_of(s, key);
        let sorted = lex_sort(list);
        let half = sorted.len() / 2;
        crate::sorting::lemma_sorted_ranks::<String>(list);
        let p = position(s, key);
        let r = without_key(s, key);
        lemma_without_key(s, key);
        let k1 = suffix_key(key, n1);
        let k2 = suffix_key(key, n2);
        lemma_first_free(keys(s), key, 1);
        lemma_first_free(keys(s).insert(k1), key, n1 + 1);
        let z1 = ZoneView { key: k1, channels: sorted.subrange(0, half as int) };
        let z2 = ZoneView { key: k2, channels: sorted.subrange(half as int, sorted.len() as int) };
        assert(!has_key(r, k1));
        lemma_push_zone(r, z1);
        assert(!has_key(r.push(z1), k2));
        lemma_push_zone(r.push(z1), z2);
        lemma_all_channels_remove(s, p);
        lemma_all_channels_push(r, z1);
        lemma_all_channels_push(r.push(z1), z2);
        assert(z1.channels + z2.channels =~= sorted);
        vstd::seq_lib::lemma_multiset_commutative(z1.channels, z2.channels);
        assert(all_channels(r.push(z1).push(z2)) =~= all_channels(s));
        lemma_excess_remove(s, p, split);
        lemma_excess_push(r, z1, split);
        lemma_excess_push(r.push(z1), z2, split);
    }
}

/// Where the rounds lead is a well-formed registry with the channels of the
/// start; it is balanced if no round failed, and else the failed round is the
/// one that its registry asks for.
pub proof fn lemma_balanced(s: Seq<ZoneView>, merge: nat, split: nat)
    requires
        registry_wf(s),
        thresholds_ok(merge, split),
    ensures
        registry_wf(balanced(s, merge, split).0),
        all_channels(balanced(s, merge, split).0) == all_channels(s),
        match balanced(s, merge, split).1 {
            None => stable(balanced(s, merge, split).0, merge, split),
            Some(e) => step(balanced(s, merge, split).0, merge, split) == Step::Failed(e),
        },
    decreases potential(s, split),
{
    match step(s, merge, split) {
        Step::Next(next) => {
            lemma_step_next(s, merge, split);
            lemma_balanced(next, merge, split);
        },
        _ => {},
    }
}

/// Balancing is idempotent: a balanced registry is left as it is, with no
/// round carried out, and balancing the outcome of a balancing changes
/// nothing.
pub proof fn lemma_balanced_idempotent(s: Seq<ZoneView>, merge: nat, split: nat)
    requires
        registry_wf(s),
        thresholds_ok(merge, split),
    ensures
        stable(s, merge, split) ==> balanced(s, merge, split) == (s, None::<BalanceError>),
        balanced(balanced(s, merge, split).0, merge, split) == balanced(s, merge, split),
{
    lemma_balanced(s, merge, split);
}

/// Different suffix numbers give different keys.
pub proof fn lemma_suffix_key_injective(base: Seq<char>, n: nat, m: nat)
    requires
        suffix_key(base, n) == suffix_key(base, m),
    ensures
        n == m,
{
    let from = base.len() + 1;
    assert(suffix_key(base, n).subrange(from as int, suffix_key(base, n).len() as int) =~= decimal(
        n,
    ));
    assert(suffix_key(base, m).subrange(from as int, suffix_key(base, m).len() as int) =~= decimal(
        m,
    ));
    crate::numbers::lemma_decimal_injective(n, m);
}

/// A run of suffix numbers whose keys are all taken is no longer than the
/// number of taken keys.
pub proof fn lemma_taken_run(taken: Set<Seq<char>>, base: Seq<char>, from: nat, count: nat)
    requires
        taken.finite(),
        forall|m: nat| from <= m < from + count ==> taken.contains(#[trigger] suffix_key(base, m)),
    ensures
        count <= taken.len(),
    decreases count,
{
    if count > 0 {
        let last = (from + count - 1) as nat;
        let key = suffix_key(base, last);
        let rest = taken.remove(key);
        assert forall|m: nat| from <= m < from + (count - 1) as nat implies rest.contains(
            #[trigger] suffix_key(base, m),
        ) by {
            if suffix_key(base, m) == key {
                lemma_suffix_key_injective(base, m, last);
            }
        }
        lemma_taken_run(rest, base, from, (count - 1) as nat);
    }
}

/// The keys of a registry are finitely many, no more than its zones.
pub proof fn lemma_keys_finite(s: Seq<ZoneView>)
    ensures
        keys(s).finite(),
        keys(s).len() <= s.len(),
    decreases s.len(),
{
    if s.len() == 0 {
        assert(keys(s) =~= Set::<Seq<char>>::empty());
    } else {
        let front = s.drop_last();
        lemma_keys_finite(front);
        assert forall|k: Seq<char>| keys(s).contains(k) <==> keys(front).insert(
            s.last().key,
        ).contains(k) by {
            if has_key(s, k) {
                let i = position(s, k);
                if i < front.len() {
                    assert(front[i].key == k);
                }
            }
            if has_key(front, k) {
                let i = position(front, k);
                assert(s[i].key == k);
            }
            if k == s.last().key {
                assert(s[s.len() - 1].key == k);
            }
        }
        assert(keys(s) =~= keys(front).insert(s.last().key));
    }
}

/// A search that has more suffix numbers to try than keys are taken finds a
/// free one, after no more numbers than keys are taken.
pub proof fn lemma_first_free_exists(taken: Set<Seq<char>>, base: Seq<char>, from: nat)
    requires
        taken.finite(),
        from + taken.len() <= MAX_SUFFIX,
    ensures
        first_free(taken, base, from) is Some,
        first_free(taken, base, from)->0 <= from + taken.len(),
{
    lemma_first_free(taken, base, from);
    match first_free(taken, base, from) {
        None => {
            lemma_taken_run(taken, base, from, (MAX_SUFFIX + 1 - from) as nat);
        },
        Some(n) => {
            lemma_taken_run(taken, base, from, (n - from) as nat);
        },
    }
}

/// A registry of fewer than `MAX_SUFFIX - 1` zones has two fresh suffix
/// numbers for every base.
pub proof fn lemma_fresh_suffixes_exist(s: Seq<ZoneView>, base: Seq<char>)
    requires
        s.len() + 2 <= MAX_SUFFIX,
    ensures
        fresh_suffixes(s, base) is Some,
{
    lemma_keys_finite(s);
    lemma_first_free_exists(keys(s), base, 1);
    lemma_first_free(keys(s), base, 1);
    let n1 = first_free(keys(s), base, 1)->0;
    let more = keys(s).insert(suffix_key(base, n1));
    lemma_first_free(more, base, n1 + 1);
    if first_free(more, base, n1 + 1) is None {
        assert forall|m: nat| 1 <= m < 1 + MAX_SUFFIX implies more.contains(
            #[trigger] suffix_key(base, m),
        ) by {
            if m < n1 {
                assert(keys(s).contains(suffix_key(base, m)));
            }
        }
        lemma_taken_run(more, base, 1, MAX_SUFFIX as nat);
    }
}

/// A well-formed registry has no more zones than channels.
pub proof fn lemma_zones_at_most_channels(s: Seq<ZoneView>)
    requires
        registry_wf(s),
    ensures
        s.len() <= all_channels(s).len(),
    decreases s.len(),
{
    broadcast use vstd::multiset::group_multiset_axioms;

    if s.len() > 0 {
        let front = s.drop_last();
        assert(registry_wf(front)) by {
            assert forall|i: int, j: int|
                0 <= i < front.len() && 0 <= j < front.len() && i != j implies #[trigger] front[i].key
                != #[trigger] front[j].key by {
                assert(s[i].key != s[j].key);
            }
            assert forall|i: int| 0 <= i < front.len() implies #[trigger] front[i].channels.len()
                > 0 by {
                assert(s[i].channels.len() > 0);
            }
        }
        lemma_zones_at_most_channels(front);
        vstd::seq_lib::to_multiset_len(s.last().channels);
        assert(s[s.len() - 1].channels.len() > 0);
    }
}

/// Balancing never runs out of suffix numbers while the registry holds fewer
/// than `MAX_SUFFIX - 1` channels: the only failure left is a key collision.
pub proof fn lemma_never_exhausted(s: Seq<ZoneView>, merge: nat, split: nat)
    requires
        registry_wf(s),
        thresholds_ok(merge, split),
        all_channels(s).len() + 2 <= MAX_SUFFIX,
    ensures
        balanced(s, merge, split).1 != Some(BalanceError::SuffixExhausted),
    decreases potential(s, split),
{
    lemma_zones_at_most_channels(s);
    lemma_fresh_suffixes_exist(s, largest_key(s));
    match step(s, merge, split) {
        Step::Next(next) => {
            lemma_step_next(s, merge, split);
            lemma_never_exhausted(next, merge, split);
        },
        _ => {},
    }
}

/// The merge guard: a registry of one or two zones is never merged, however
/// small the zones are.
pub proof fn lemma_no_merge_below_three(s: Seq<ZoneView>, merge: nat)
    requires
        s.len() <= 2,
    ensures
        !merge_applies(s, merge),
{
    crate::sorting::lemma_sorted_ranks::<Cluster>(crate::zones::clusters(s));
}

/// The halves of a split: the lower half holds `size / 2` channels of the
/// zone's `size`, the upper half the others, and each is in ascending order.
pub proof fn lemma_split_halves(s: Seq<ZoneView>, n1: nat, n2: nat)
    requires
        registry_wf(s),
        s.len() >= 1,
    ensures
        ({
            let size = channels_of(s, largest_key(s)).len();
            let after = split_zones(s, n1, n2);
            let lower = after[after.len() - 2];
            let upper = after[after.len() - 1];
            &&& after.len() == s.len() + 1
            &&& lower.key == suffix_key(largest_key(s), n1)
            &&& upper.key == suffix_key(largest_key(s), n2)
            &&& lower.channels.len() == size / 2
            &&& upper.channels.len() == size - size / 2
            &&& crate::sorting::lex_sorted(lower.channels)
            &&& crate::sorting::lex_sorted(upper.channels)
            &&& lower.channels + upper.channels == lex_sort(channels_of(s, largest_key(s)))
        }),
{
    let key = largest_key(s);
    let list = channels_of(s, key);
    let sorted = lex_sort(list);
    lemma_snapshot(s);
    assert(has_key(s, snapshot_of(s)[s.len() - 1].key));
    lemma_without_key(s, key);
    crate::sorting::lemma_sorted_ranks::<String>(list);
    let half = (sorted.len() / 2) as int;
    let lower = sorted.subrange(0, half);
    let upper = sorted.subrange(half, sorted.len() as int);
    assert(lower + upper =~= sorted);
    let order = crate::sorting::lex_order();
    assert forall|i: int, j: int| 0 <= i < j < lower.len() implies #[trigger] order(
        lower[i],
        lower[j],
    ) by {
        assert(order(sorted[i], sorted[j]));
    }
    assert forall|i: int, j: int| 0 <= i < j < upper.len() implies #[trigger] order(
        upper[i],
        upper[j],
    ) by {
        assert(order(sorted[half + i], sorted[half + j]));
    }
}

/// The keys that a search for a free suffix treats as taken: those of the
/// registry and, if given, one more.
pub open spec fn taken_keys(s: Seq<ZoneView>, also: Option<Seq<char>>) -> Set<Seq<char>> {
    match also {
        None => keys(s),
        Some(k) => keys(s).insert(k),
    }
}

/// The failure that a result carries, if any.
pub open spec fn failure(r: Result<(), BalanceError>) -> Option<BalanceError> {
    match r {
        Ok(_) => None,
        Err(e) => Some(e),
    }
}

impl ZoneRegistry {
    /// The first suffix number from `from` whose key for `base` is neither a
    /// key of the registry nor `also`, with that key.
    fn next_free(&self, base: &str, from: u64, also: Option<&String>) -> (r: Option<(u64, String)>)
        requires
            1 <= from <= MAX_SUFFIX + 1,
        ensures
            match first_free(
                taken_keys(
                    self@,
                    match also {
                        Some(k) => Some(k@),
                        None => None,
                    },
                ),
                base@,
                from as nat,
            ) {
                None => r is None,
                Some(n) => r matches Some(found) && found.0 == n && found.1@ == suffix_key(base@, n),
            },
    {
        let ghost taken = taken_keys(
            self@,
            match also {
                Some(k) => Some(k@),
                None => None,
            },
        );
        let mut n: u64 = from;
        while n <= MAX_SUFFIX as u64
            invariant
                from <= n <= MAX_SUFFIX + 1,
                taken == taken_keys(
                    self@,
                    match also {
                        Some(k) => Some(k@),
                        None => None,
                    },
                ),
                first_free(taken, base@, n as nat) == first_free(taken, base@, from as nat),
            decreases MAX_SUFFIX + 1 - n,
        {
            let mut key = append_str(base, "_");
            let number = decimal_string(n);
            key.append(number.as_str());
            proof {
                reveal_strlit("_");
                assert(key@ =~= suffix_key(base@, n as nat));
            }
            let in_registry = self.contains_key(key.as_str());
            let is_other = match also {
                Some(k) => str_eq(k.as_str(), key.as_str()),
                None => false,
            };
            if !in_registry && !is_other {
                return Some((n, key));
            }
            n = n + 1;
        }
        None
    }

    /// Two fresh keys for the halves of the zone `base`: `base` followed by
    /// `_` and the smallest free suffix number, and the same with the next
    /// free number after it. Both or none: `None` when fewer than two numbers
    /// up to `MAX_SUFFIX` are free.
    pub fn fresh_keys(&self, base: &str) -> (r: Option<(String, String)>)
        ensures
            match fresh_suffixes(self@, base@) {
                None => r is None,
                Some((n1, n2)) => r matches Some(pair) && pair.0@ == suffix_key(base@, n1)
                    && pair.1@ == suffix_key(base@, n2),
            },
    {
        match self.next_free(base, 1, None) {
            None => None,
            Some((n1, k1)) => {
                proof {
                    lemma_first_free(keys(self@), base@, 1);
                }
                match self.next_free(base, n1 + 1, Some(&k1)) {
                    None => None,
                    Some((_, k2)) => Some((k1, k2)),
                }
            },
        }
    }

    /// Balances the registry: round after round, merges the two smallest
    /// zones if the merge rule applies, else splits the largest if the split
    /// rule applies, and stops when neither does. A round that cannot be
    /// carried out stops the balancing with the registry as the rounds before
    /// it left it.
    pub fn balance(&mut self, thresholds: &Thresholds) -> (r: Result<(), BalanceError>)
        requires
            old(self).wf(),
            thresholds.wf(),
        ensures
            final(self).wf(),
            final(self)@ == balanced(
                old(self)@,
                thresholds.merge_spec(),
                thresholds.split_spec(),
            ).0,
            failure(r) == balanced(
                old(self)@,
                thresholds.merge_spec(),
                thresholds.split_spec(),
            ).1,
            all_channels(final(self)@) == all_channels(old(self)@),
            r is Ok ==> stable(final(self)@, thresholds.merge_spec(), thresholds.split_spec()),
            stable(old(self)@, thresholds.merge_spec(), thresholds.split_spec()) ==> r is Ok
                && final(self)@ == old(self)@,
    {
        let merge = thresholds.merge();
        let split = thresholds.split();
        loop
            invariant
                self.wf(),
                old(self).wf(),
                thresholds_ok(merge as nat, split as nat),
                merge == thresholds.merge_spec(),
                split == thresholds.split_spec(),
                balanced(self@, merge as nat, split as nat) == balanced(
                    old(self)@,
                    merge as nat,
                    split as nat,
                ),
                all_channels(self@) == all_channels(old(self)@),
            decreases potential(self@, split as nat),
        {
            let ghost before = self@;
            let c = self.snapshot();
            let n = c.len();
            proof {
                lemma_snapshot(before);
                assert forall|j: int| 0 <= j < n implies (#[trigger] c@[j])@ == snapshot_of(
                    before,
                )[j] by {
                    assert(ranks(c@)[j] == c@[j].rank());
                }
            }
            if n > 2 && c[0].size < merge && c[1].size < merge - c[0].size {
                assert(merge_applies(before, merge as nat));
                let mut key = append_str(c[0].key.as_str(), "/");
                key.append(c[1].key.as_str());
                proof {
                    reveal_strlit("/");
                    assert(key@ =~= merged_key(before));
                }
                if self.contains_key(key.as_str()) {
                    return Err(BalanceError::KeyCollision);
                }
                proof {
                    lemma_step_next(before, merge as nat, split as nat);
                    lemma_without_key(before, c@[0]@.key);
                    lemma_without_key(without_key(before, c@[0]@.key), c@[1]@.key);
                }
                let mut head = self.remove(c[0].key.as_str()).unwrap();
                let mut tail = self.remove(c[1].key.as_str()).unwrap();
                let ghost low = head.deep_view();
                let ghost high = tail.deep_view();
                head.append(&mut tail);
                assert(head.deep_view() =~= low + high);
                let inserted = self.insert(key, head);
                assert(inserted);
                assert(self@ == merged(before));
            } else if n > 0 && c[n - 1].size > split {
                assert(!merge_applies(before, merge as nat));
                assert(split_applies(before, split as nat));
                let base = c[n - 1].key.as_str();
                assert(base@ == largest_key(before));
                match self.fresh_keys(base) {
                    None => {
                        return Err(BalanceError::SuffixExhausted);
                    },
                    Some((k1, k2)) => {
                        let ghost (n1, n2) = fresh_suffixes(before, base@)->0;
                        proof {
                            lemma_step_next(before, merge as nat, split as nat);
                            lemma_without_key(before, base@);
                            lemma_first_free(keys(before), base@, 1);
                            lemma_first_free(keys(before).insert(k1@), base@, n1 + 1);
                            crate::sorting::lemma_sorted_ranks::<String>(
                                channels_of(before, base@),
                            );
                        }
                        let list = self.remove(base).unwrap();
                        let size = list.len();
                        let mut head = sort_strings(list);
                        let ghost sorted = head.deep_view();
                        let tail = head.split_off(size / 2);
                        assert(head.deep_view() =~= sorted.subrange(0, (size / 2) as int));
                        assert(tail.deep_view() =~= sorted.subrange(
                            (size / 2) as int,
                            size as int,
                        ));
                        let ghost rest = self@;
                        let ghost z1 = ZoneView { key: k1@, channels: head.deep_view() };
                        let first = self.insert(k1, head);
                        assert(first);
                        proof {
                            lemma_push_zone(rest, z1);
                        }
                        let second = self.insert(k2, tail);
                        assert(second);
                        assert(self@ == split_zones(before, n1, n2));
                    },
                }
            } else {
                assert(stable(before, merge as nat, split as nat));
                return Ok(());
            }
        }
    }
}

} // verus!
