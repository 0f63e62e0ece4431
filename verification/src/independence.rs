//! The zone table does not depend on how the registry is laid out: it is the
//! same for any order of the zones and any order of the channels within
//! them.

use crate::balance::{
    balanced, fresh_suffixes, keys, largest_key, lemma_step_next, merge_applies, merged,
    merged_key, potential, split_applies, split_zones, step, suffix_key, thresholds_ok, Step,
};
use crate::rows::{lemma_sorted_keys, row_of, zone_keys, zone_rows_of};
use crate::sorting::{lemma_sorted_arrangement, lemma_sorted_ranks, lex_sort};
use crate::zones::{
    channels_of, clusters, has_key, lemma_position_unique, lemma_push_zone, lemma_snapshot,
    lemma_without_key, position, registry_wf, snapshot_of, without_key, Cluster, ClusterView,
    ZoneView,
};
use vstd::prelude::*;

verus! {

/// Two registries hold the same zones: the same keys, and under each key the
/// same channels as often, whatever the order of the zones and of the
/// channels within them.
pub open spec fn same_zones(a: Seq<ZoneView>, b: Seq<ZoneView>) -> bool {
    &&& forall|k: Seq<char>| #[trigger] has_key(a, k) <==> has_key(b, k)
    &&& forall|k: Seq<char>|
        has_key(a, k) ==> (#[trigger] channels_of(a, k)).to_multiset() == channels_of(
            b,
            k,
        ).to_multiset()
}

/// Two sequences without repetition that hold the same elements hold them as
/// often.
pub proof fn lemma_same_elements<A>(x: Seq<A>, y: Seq<A>)
    requires
        x.no_duplicates(),
        y.no_duplicates(),
        forall|e: A| x.contains(e) <==> y.contains(e),
    ensures
        x.to_multiset() == y.to_multiset(),
{
    broadcast use vstd::multiset::group_multiset_axioms;

    x.lemma_multiset_has_no_duplicates();
    y.lemma_multiset_has_no_duplicates();
    assert forall|e: A| x.to_multiset().count(e) == y.to_multiset().count(e) by {
        vstd::seq_lib::to_multiset_contains(x, e);
        vstd::seq_lib::to_multiset_contains(y, e);
    }
    assert(x.to_multiset() =~= y.to_multiset());
}

/// A zone added at the end is found under its key, and the others where they
/// were.
pub proof fn lemma_channels_after_push(s: Seq<ZoneView>, z: ZoneView)
    requires
        registry_wf(s),
        !has_key(s, z.key),
        z.channels.len() > 0,
    ensures
        channels_of(s.push(z), z.key) == z.channels,
        forall|k: Seq<char>| has_key(s, k) ==> #[trigger] channels_of(s.push(z), k) == channels_of(
            s,
            k,
        ),
{
    let r = s.push(z);
    lemma_push_zone(s, z);
    lemma_position_unique(r, s.len() as int);
    assert forall|k: Seq<char>| has_key(s, k) implies #[trigger] channels_of(r, k) == channels_of(
        s,
        k,
    ) by {
        let i = position(s, k);
        assert(r[i] == s[i]);
        lemma_position_unique(r, i);
    }
}

/// The same zones give the same snapshot.
pub proof fn lemma_same_snapshot(a: Seq<ZoneView>, b: Seq<ZoneView>)
    requires
        registry_wf(a),
        registry_wf(b),
        same_zones(a, b),
    ensures
        snapshot_of(a) == snapshot_of(b),
        a.len() == b.len(),
{
    let ca = clusters(a);
    let cb = clusters(b);
    assert(ca.no_duplicates()) by {
        assert forall|i: int, j: int| 0 <= i < ca.len() && 0 <= j < ca.len() && i != j implies ca[i]
            != ca[j] by {
            assert(a[i].key != a[j].key);
        }
    }
    assert(cb.no_duplicates()) by {
        assert forall|i: int, j: int| 0 <= i < cb.len() && 0 <= j < cb.len() && i != j implies cb[i]
            != cb[j] by {
            assert(b[i].key != b[j].key);
        }
    }
    assert forall|e: ClusterView| ca.contains(e) <==> cb.contains(e) by {
        if ca.contains(e) {
            let i = choose|i: int| 0 <= i < ca.len() && ca[i] == e;
            lemma_position_unique(a, i);
            assert(has_key(a, e.key));
            let j = position(b, e.key);
            vstd::seq_lib::to_multiset_len(channels_of(a, e.key));
            vstd::seq_lib::to_multiset_len(channels_of(b, e.key));
            assert(cb[j] == e);
        }
        if cb.contains(e) {
            let j = choose|j: int| 0 <= j < cb.len() && cb[j] == e;
            lemma_position_unique(b, j);
            assert(has_key(b, e.key));
            assert(has_key(a, e.key));
            let i = position(a, e.key);
            vstd::seq_lib::to_multiset_len(channels_of(a, e.key));
            vstd::seq_lib::to_multiset_len(channels_of(b, e.key));
            assert(ca[i] == e);
        }
    }
    lemma_same_elements(ca, cb);
    lemma_sorted_ranks::<Cluster>(ca);
    lemma_sorted_ranks::<Cluster>(cb);
    lemma_sorted_arrangement::<Cluster>(snapshot_of(a), cb);
}

/// The same zones have the same keys in ascending order.
pub proof fn lemma_same_sorted_keys(a: Seq<ZoneView>, b: Seq<ZoneView>)
    requires
        registry_wf(a),
        registry_wf(b),
        same_zones(a, b),
    ensures
        lex_sort(zone_keys(a)) == lex_sort(zone_keys(b)),
{
    let ka = zone_keys(a);
    let kb = zone_keys(b);
    assert(ka.no_duplicates()) by {
        assert forall|i: int, j: int| 0 <= i < ka.len() && 0 <= j < ka.len() && i != j implies ka[i]
            != ka[j] by {
            assert(a[i].key != a[j].key);
        }
    }
    assert(kb.no_duplicates()) by {
        assert forall|i: int, j: int| 0 <= i < kb.len() && 0 <= j < kb.len() && i != j implies kb[i]
            != kb[j] by {
            assert(b[i].key != b[j].key);
        }
    }
    assert forall|e: Seq<char>| ka.contains(e) <==> kb.contains(e) by {
        if ka.contains(e) {
            let i = choose|i: int| 0 <= i < ka.len() && ka[i] == e;
            assert(a[i].key == e);
            assert(has_key(a, e));
            let j = position(b, e);
            assert(kb[j] == e);
        }
        if kb.contains(e) {
            let j = choose|j: int| 0 <= j < kb.len() && kb[j] == e;
            assert(b[j].key == e);
            assert(has_key(b, e));
            assert(has_key(a, e));
            let i = position(a, e);
            assert(ka[i] == e);
        }
    }
    lemma_same_elements(ka, kb);
    lemma_sorted_ranks::<String>(ka);
    lemma_sorted_arrangement::<String>(lex_sort(ka), kb);
}

/// Lists that hold the same channels are the same once sorted.
pub proof fn lemma_same_sorted(x: Seq<Seq<char>>, y: Seq<Seq<char>>)
    requires
        x.to_multiset() == y.to_multiset(),
    ensures
        lex_sort(x) == lex_sort(y),
{
    lemma_sorted_ranks::<String>(x);
    lemma_sorted_arrangement::<String>(lex_sort(x), y);
}

/// The same zones give the same zone table.
pub proof fn lemma_same_rows(a: Seq<ZoneView>, b: Seq<ZoneView>)
    requires
        registry_wf(a),
        registry_wf(b),
        same_zones(a, b),
    ensures
        zone_rows_of(a) == zone_rows_of(b),
{
    lemma_same_snapshot(a, b);
    lemma_same_sorted_keys(a, b);
    lemma_sorted_keys(a);
    assert forall|i: int| 0 <= i < a.len() implies row_of(a, i) == row_of(b, i) by {
        let key = lex_sort(zone_keys(a))[i];
        assert(has_key(a, key));
        lemma_same_sorted(channels_of(a, key), channels_of(b, key));
    }
    assert(zone_rows_of(a) =~= zone_rows_of(b));
}

/// The zones of a registry after a merge.
pub proof fn lemma_merged_zones(s: Seq<ZoneView>, merge: nat)
    requires
        registry_wf(s),
        merge_applies(s, merge),
        !has_key(s, merged_key(s)),
    ensures
        ({
            let low = snapshot_of(s)[0].key;
            let high = snapshot_of(s)[1].key;
            &&& has_key(s, low)
            &&& has_key(s, high)
            &&& low != high
            &&& forall|k: Seq<char>| #[trigger]
                has_key(merged(s), k) <==> k == merged_key(s) || (has_key(s, k) && k != low && k
                    != high)
            &&& channels_of(merged(s), merged_key(s)) == channels_of(s, low) + channels_of(
                s,
                high,
            )
            &&& forall|k: Seq<char>|
                has_key(s, k) && k != low && k != high ==> #[trigger] channels_of(merged(s), k)
                    == channels_of(s, k)
        }),
{
    let c = snapshot_of(s);
    lemma_snapshot(s);
    let low = c[0].key;
    let high = c[1].key;
    let r1 = without_key(s, low);
    lemma_without_key(s, low);
    assert(has_key(r1, high));
    let r2 = without_key(r1, high);
    lemma_without_key(r1, high);
    let z = ZoneView { key: merged_key(s), channels: channels_of(s, low) + channels_of(s, high) };
    lemma_push_zone(r2, z);
    lemma_channels_after_push(r2, z);
    assert forall|k: Seq<char>| has_key(s, k) && k != low && k != high implies #[trigger]
        channels_of(merged(s), k) == channels_of(s, k) by {
        assert(has_key(r1, k));
        assert(has_key(r2, k));
        assert(channels_of(r2, k) == channels_of(r1, k));
        assert(channels_of(r1, k) == channels_of(s, k));
    }
}

/// The zones of a registry after a split.
pub proof fn lemma_split_result(s: Seq<ZoneView>, split: nat, n1: nat, n2: nat)
    requires
        registry_wf(s),
        split >= 1,
        split_applies(s, split),
        fresh_suffixes(s, largest_key(s)) == Some((n1, n2)),
    ensures
        ({
            let key = largest_key(s);
            let sorted = lex_sort(channels_of(s, key));
            let half = (sorted.len() / 2) as int;
            let k1 = suffix_key(key, n1);
            let k2 = suffix_key(key, n2);
            let after = split_zones(s, n1, n2);
            &&& has_key(s, key)
            &&& k1 != k2
            &&& !has_key(s, k1)
            &&& !has_key(s, k2)
            &&& forall|k: Seq<char>| #[trigger]
                has_key(after, k) <==> k == k1 || k == k2 || (has_key(s, k) && k != key)
            &&& channels_of(after, k1) == sorted.subrange(0, half)
            &&& channels_of(after, k2) == sorted.subrange(half, sorted.len() as int)
            &&& forall|k: Seq<char>|
                has_key(s, k) && k != key ==> #[trigger] channels_of(after, k) == channels_of(s, k)
        }),
{
    let c = snapshot_of(s);
    lemma_snapshot(s);
    let key = largest_key(s);
    assert(has_key(s, c[c.len() - 1].key));
    let list = channels_of(s, key);
    let sorted = lex_sort(list);
    lemma_sorted_ranks::<String>(list);
    let half = (sorted.len() / 2) as int;
    let k1 = suffix_key(key, n1);
    let k2 = suffix_key(key, n2);
    crate::balance::lemma_first_free(keys(s), key, 1);
    crate::balance::lemma_first_free(keys(s).insert(k1), key, n1 + 1);
    let r = without_key(s, key);
    lemma_without_key(s, key);
    let z1 = ZoneView { key: k1, channels: sorted.subrange(0, half) };
    let z2 = ZoneView { key: k2, channels: sorted.subrange(half, sorted.len() as int) };
    assert(!has_key(r, k1));
    lemma_push_zone(r, z1);
    lemma_channels_after_push(r, z1);
    let r1 = r.push(z1);
    assert(!has_key(r1, k2));
    lemma_push_zone(r1, z2);
    lemma_channels_after_push(r1, z2);
    assert(has_key(r1, k1));
    assert forall|k: Seq<char>| has_key(s, k) && k != key implies #[trigger] channels_of(
        split_zones(s, n1, n2),
        k,
    ) == channels_of(s, k) by {
        assert(has_key(r, k));
        assert(has_key(r1, k));
        assert(channels_of(r1, k) == channels_of(r, k));
    }
}

/// One round does the same to the same zones: it leaves both registries
/// alone, or fails on both in the same way, or gives the same zones again.
pub proof fn lemma_step_same(a: Seq<ZoneView>, b: Seq<ZoneView>, merge: nat, split: nat)
    requires
        registry_wf(a),
        registry_wf(b),
        same_zones(a, b),
        thresholds_ok(merge, split),
    ensures
        match step(a, merge, split) {
            Step::Stable => step(b, merge, split) is Stable,
            Step::Failed(e) => step(b, merge, split) == Step::Failed(e),
            Step::Next(next) => step(b, merge, split) is Next && same_zones(
                next,
                step(b, merge, split)->Next_0,
            ),
        },
{
    lemma_same_snapshot(a, b);
    assert(keys(a) =~= keys(b));
    if merge_applies(a, merge) {
        if !has_key(a, merged_key(a)) {
            lemma_merged_zones(a, merge);
            lemma_merged_zones(b, merge);
            let low = snapshot_of(a)[0].key;
            let high = snapshot_of(a)[1].key;
            vstd::seq_lib::lemma_multiset_commutative(channels_of(a, low), channels_of(a, high));
            vstd::seq_lib::lemma_multiset_commutative(channels_of(b, low), channels_of(b, high));
            assert(same_zones(merged(a), merged(b)));
        }
    } else if split_applies(a, split) {
        let key = largest_key(a);
        match fresh_suffixes(a, key) {
            None => {},
            Some((n1, n2)) => {
                lemma_split_result(a, split, n1, n2);
                lemma_split_result(b, split, n1, n2);
                lemma_same_sorted(channels_of(a, key), channels_of(b, key));
                assert(same_zones(split_zones(a, n1, n2), split_zones(b, n1, n2)));
            },
        }
    }
}

/// Balancing leads the same zones to the same zones, and fails on both
/// registries or on neither.
pub proof fn lemma_balanced_same(a: Seq<ZoneView>, b: Seq<ZoneView>, merge: nat, split: nat)
    requires
        registry_wf(a),
        registry_wf(b),
        same_zones(a, b),
        thresholds_ok(merge, split),
    ensures
        balanced(a, merge, split).1 == balanced(b, merge, split).1,
        same_zones(balanced(a, merge, split).0, balanced(b, merge, split).0),
        registry_wf(balanced(a, merge, split).0),
        registry_wf(balanced(b, merge, split).0),
    decreases potential(a, split),
{
    lemma_step_same(a, b, merge, split);
    match step(a, merge, split) {
        Step::Next(next) => {
            lemma_step_next(a, merge, split);
            lemma_step_next(b, merge, split);
            lemma_balanced_same(next, step(b, merge, split)->Next_0, merge, split);
        },
        _ => {},
    }
}

/// Order independence: registries that hold the same zones are balanced to
/// the same zone table, or fail to balance in the same way, whatever the
/// order of their zones and of the channels within them.
pub proof fn lemma_table_independent_of_order(
    a: Seq<ZoneView>,
    b: Seq<ZoneView>,
    merge: nat,
    split: nat,
)
    requires
        registry_wf(a),
        registry_wf(b),
        same_zones(a, b),
        thresholds_ok(merge, split),
    ensures
        balanced(a, merge, split).1 == balanced(b, merge, split).1,
        zone_rows_of(balanced(a, merge, split).0) == zone_rows_of(balanced(b, merge, split).0),
{
    lemma_balanced_same(a, b, merge, split);
    lemma_same_rows(balanced(a, merge, split).0, balanced(b, merge, split).0);
}

} // verus!
