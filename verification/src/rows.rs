//! The zone serializer: the zone table in its final order, each zone with its
//! sorted channels and its two representative channels.

use crate::balance::{balanced, BalanceError, Thresholds};
use crate::grouping::{group_channels, grouped, names, record_views, ChannelRecord, RecordView};
use crate::sorting::{lemma_sorted_ranks, lex_sort, sort_strings};
use crate::text::{clone_strings, join, joined};
use crate::zones::{
    all_channels, channels_of, has_key, lemma_all_channels_remove, lemma_without_key, position,
    registry_wf, without_key, ZoneRegistry, ZoneView,
};
use vstd::multiset::Multiset;
use vstd::prelude::*;

verus! {

/// The model of a row of the zone table.
pub struct RowView {
    pub index: nat,
    pub key: Seq<char>,
    pub channels: Seq<Seq<char>>,
    pub channel_a: Seq<char>,
    pub channel_b: Seq<char>,
}

/// A row of the zone table: the 1-based position of the zone, its key, its
/// channels in ascending order, and the first and the last of them.
pub struct ZoneRow {
    pub index: usize,
    pub key: String,
    pub channels: Vec<String>,
    pub channel_a: String,
    pub channel_b: String,
}

impl View for ZoneRow {
    type V = RowView;

    open spec fn view(&self) -> RowView {
        RowView {
            index: self.index as nat,
            key: self.key@,
            channels: self.channels.deep_view(),
            channel_a: self.channel_a@,
            channel_b: self.channel_b@,
        }
    }
}

impl ZoneRow {
    /// The channels of the zone as one text, with `|` between neighbours.
    pub fn members(&self) -> (text: String)
        ensures
            text@ == joined(self@.channels, seq!['|']),
    {
        proof {
            reveal_strlit("|");
            assert("|"@ =~= seq!['|']);
        }
        join(&self.channels, "|")
    }
}

/// The keys of the registry, in registry order.
pub open spec fn zone_keys(s: Seq<ZoneView>) -> Seq<Seq<char>> {
    Seq::new(s.len(), |i: int| s[i].key)
}

/// Row `i` of the zone table of `s` (counted from 0): the zone with the
/// `i`-th smallest key.
pub open spec fn row_of(s: Seq<ZoneView>, i: int) -> RowView {
    let key = lex_sort(zone_keys(s))[i];
    let sorted = lex_sort(channels_of(s, key));
    RowView {
        index: (i + 1) as nat,
        key: key,
        channels: sorted,
        channel_a: sorted.first(),
        channel_b: sorted.last(),
    }
}

/// The zone table of `s`: one row for each zone, in ascending order of key.
pub open spec fn zone_rows_of(s: Seq<ZoneView>) -> Seq<RowView> {
    Seq::new(s.len(), |i: int| row_of(s, i))
}

/// The models of `rows`, in order.
pub open spec fn row_views(rows: Seq<ZoneRow>) -> Seq<RowView> {
    Seq::new(rows.len(), |i: int| rows[i]@)
}

/// Every channel name held by some row, counted as often as it occurs.
pub open spec fn row_channels(rows: Seq<RowView>) -> Multiset<Seq<char>>
    decreases rows.len(),
{
    if rows.len() == 0 {
        Multiset::empty()
    } else {
        row_channels(rows.drop_last()).add(rows.last().channels.to_multiset())
    }
}

/// The channels that `s` holds under the keys `ks`, counted as often as they
/// occur.
pub open spec fn channels_under(s: Seq<ZoneView>, ks: Seq<Seq<char>>) -> Multiset<Seq<char>>
    decreases ks.len(),
{
    if ks.len() == 0 {
        Multiset::empty()
    } else {
        channels_under(s, ks.drop_last()).add(channels_of(s, ks.last()).to_multiset())
    }
}

/// The sorted keys hold each key of the registry once.
pub proof fn lemma_sorted_keys(s: Seq<ZoneView>)
    requires
        registry_wf(s),
    ensures
        lex_sort(zone_keys(s)).len() == s.len(),
        lex_sort(zone_keys(s)).no_duplicates(),
        forall|i: int| 0 <= i < s.len() ==> has_key(s, #[trigger] lex_sort(zone_keys(s))[i]),
{
    let u = zone_keys(s);
    let ks = lex_sort(u);
    lemma_sorted_ranks::<String>(u);
    assert(u.no_duplicates()) by {
        assert forall|a: int, b: int| 0 <= a < u.len() && 0 <= b < u.len() && a != b implies u[a]
            != u[b] by {
            assert(s[a].key != s[b].key);
        }
    }
    u.lemma_multiset_has_no_duplicates();
    ks.lemma_multiset_has_no_duplicates_conv();
    assert forall|i: int| 0 <= i < s.len() implies has_key(s, #[trigger] ks[i]) by {
        assert(ks.contains(ks[i]));
        vstd::seq_lib::to_multiset_contains(ks, ks[i]);
        vstd::seq_lib::to_multiset_contains(u, ks[i]);
        let a = choose|a: int| 0 <= a < u.len() && u[a] == ks[i];
        assert(s[a].key == ks[i]);
    }
}

proof fn lemma_channels_under_without(s: Seq<ZoneView>, ks: Seq<Seq<char>>, key: Seq<char>)
    requires
        registry_wf(s),
        has_key(s, key),
        forall|i: int| 0 <= i < ks.len() ==> has_key(s, #[trigger] ks[i]) && ks[i] != key,
    ensures
        channels_under(without_key(s, key), ks) == channels_under(s, ks),
    decreases ks.len(),
{
    if ks.len() > 0 {
        lemma_channels_under_without(s, ks.drop_last(), key);
        lemma_without_key(s, key);
        assert(has_key(s, ks[ks.len() - 1]));
    }
}

/// Keys that name each zone once name every channel of the registry once.
pub proof fn lemma_channels_under_all(s: Seq<ZoneView>, ks: Seq<Seq<char>>)
    requires
        registry_wf(s),
        ks.len() == s.len(),
        ks.no_duplicates(),
        forall|i: int| 0 <= i < ks.len() ==> has_key(s, #[trigger] ks[i]),
    ensures
        channels_under(s, ks) == all_channels(s),
    decreases ks.len(),
{
    if ks.len() > 0 {
        let key = ks.last();
        let front = ks.drop_last();
        let rest = without_key(s, key);
        assert(has_key(s, ks[ks.len() - 1]));
        lemma_without_key(s, key);
        assert forall|i: int| 0 <= i < front.len() implies has_key(s, #[trigger] front[i])
            && front[i] != key && has_key(rest, front[i]) by {
            assert(front[i] == ks[i]);
            assert(ks[i] != ks[ks.len() - 1]);
        }
        lemma_channels_under_without(s, front, key);
        lemma_channels_under_all(rest, front);
        lemma_all_channels_remove(s, position(s, key));
    }
}

proof fn lemma_row_channels_prefix(s: Seq<ZoneView>, n: int)
    requires
        registry_wf(s),
        0 <= n <= s.len(),
    ensures
        row_channels(zone_rows_of(s).subrange(0, n)) == channels_under(
            s,
            lex_sort(zone_keys(s)).subrange(0, n),
        ),
    decreases n,
{
    lemma_sorted_keys(s);
    if n > 0 {
        let rows = zone_rows_of(s).subrange(0, n);
        let ks = lex_sort(zone_keys(s)).subrange(0, n);
        lemma_row_channels_prefix(s, n - 1);
        assert(rows.drop_last() =~= zone_rows_of(s).subrange(0, n - 1));
        assert(ks.drop_last() =~= lex_sort(zone_keys(s)).subrange(0, n - 1));
        assert(rows.last() == row_of(s, n - 1));
        assert(ks.last() == lex_sort(zone_keys(s))[n - 1]);
        lemma_sorted_ranks::<String>(channels_of(s, ks.last()));
    }
}

/// The zone table holds every channel name of the registry as often as the
/// registry does.
pub proof fn lemma_rows_conserve(s: Seq<ZoneView>)
    requires
        registry_wf(s),
    ensures
        row_channels(zone_rows_of(s)) == all_channels(s),
{
    let ks = lex_sort(zone_keys(s));
    lemma_sorted_keys(s);
    lemma_row_channels_prefix(s, s.len() as int);
    assert(zone_rows_of(s).subrange(0, s.len() as int) =~= zone_rows_of(s));
    assert(ks.subrange(0, s.len() as int) =~= ks);
    lemma_channels_under_all(s, ks);
}

/// The zone table of the registry: zones in ascending order of key, numbered
/// from 1, each with its channels in ascending order and the first and last
/// of them as channels A and B. The registry is left as it is.
pub fn zone_rows(registry: &ZoneRegistry) -> (rows: Vec<ZoneRow>)
    requires
        registry.wf(),
    ensures
        row_views(rows@) == zone_rows_of(registry@),
        row_channels(row_views(rows@)) == all_channels(registry@),
{
    let n = registry.len();
    let mut keys: Vec<String> = Vec::new();
    let mut i: usize = 0;
    while i < n
        invariant
            n == registry@.len(),
            i <= n,
            keys@.len() == i,
            forall|j: int| 0 <= j < i ==> (#[trigger] keys@[j])@ == registry@[j].key,
        decreases n - i,
    {
        keys.push(registry.zone(i).key.clone());
        i = i + 1;
    }
    assert(keys.deep_view() =~= zone_keys(registry@));
    let sorted = sort_strings(keys);
    proof {
        lemma_sorted_keys(registry@);
    }
    let mut rows: Vec<ZoneRow> = Vec::new();
    let mut i: usize = 0;
    while i < n
        invariant
            registry.wf(),
            n == registry@.len(),
            sorted@.len() == n,
            sorted.deep_view() == lex_sort(zone_keys(registry@)),
            forall|j: int| 0 <= j < n ==> has_key(
                registry@,
                #[trigger] lex_sort(zone_keys(registry@))[j],
            ),
            i <= n,
            rows@.len() == i,
            forall|j: int| 0 <= j < i ==> (#[trigger] rows@[j])@ == row_of(registry@, j),
        decreases n - i,
    {
        let key = sorted[i].clone();
        assert(key@ == sorted.deep_view()[i as int]);
        assert(has_key(registry@, lex_sort(zone_keys(registry@))[i as int]));
        let at = registry.find(key.as_str()).unwrap();
        let list = clone_strings(&registry.zone(at).channels);
        assert(list.deep_view() == channels_of(registry@, key@));
        let channels = sort_strings(list);
        let channel_a = channels[0].clone();
        let channel_b = channels[channels.len() - 1].clone();
        assert(channel_a@ == channels.deep_view().first());
        assert(channel_b@ == channels.deep_view().last());
        rows.push(ZoneRow { index: i + 1, key, channels, channel_a, channel_b });
        i = i + 1;
    }
    proof {
        assert(row_views(rows@) =~= zone_rows_of(registry@));
        lemma_rows_conserve(registry@);
    }
    rows
}

/// The zone table that the channels `records` lead to: they are grouped, the
/// registry is balanced, and the balanced registry is laid out in rows; or
/// the failure that stopped the balancing.
pub open spec fn partition_of(records: Seq<RecordView>, merge: nat, split: nat) -> Result<
    Seq<RowView>,
    BalanceError,
> {
    let outcome = balanced(grouped(records), merge, split);
    match outcome.1 {
        None => Ok(zone_rows_of(outcome.0)),
        Some(e) => Err(e),
    }
}

/// The zone table of a result, as a model.
pub open spec fn partition_view(r: Result<Vec<ZoneRow>, BalanceError>) -> Result<
    Seq<RowView>,
    BalanceError,
> {
    match r {
        Ok(rows) => Ok(row_views(rows@)),
        Err(e) => Err(e),
    }
}

/// Conservation: the zone table that a list of channels leads to holds every
/// channel name exactly as often as the list does.
pub proof fn lemma_partition_conserves(records: Seq<RecordView>, merge: nat, split: nat)
    requires
        crate::balance::thresholds_ok(merge, split),
    ensures
        partition_of(records, merge, split) matches Ok(rows) ==> row_channels(rows) == names(
            records,
        ).to_multiset(),
{
    crate::grouping::lemma_grouped(records);
    crate::balance::lemma_balanced(grouped(records), merge, split);
    lemma_rows_conserve(balanced(grouped(records), merge, split).0);
}

/// Groups the channels into zones, balances the zones and lays out the zone
/// table. The outcome is a function of the channels, in their order, and of
/// the thresholds.
pub fn partition(records: &Vec<ChannelRecord>, thresholds: &Thresholds) -> (r: Result<
    Vec<ZoneRow>,
    BalanceError,
>)
    requires
        thresholds.wf(),
    ensures
        partition_view(r) == partition_of(
            record_views(records@),
            thresholds.merge_spec(),
            thresholds.split_spec(),
        ),
        r matches Ok(rows) ==> row_channels(row_views(rows@)) == names(
            record_views(records@),
        ).to_multiset(),
{
    let mut registry = group_channels(records);
    match registry.balance(thresholds) {
        Err(e) => Err(e),
        Ok(_) => Ok(zone_rows(&registry)),
    }
}

} // verus!
