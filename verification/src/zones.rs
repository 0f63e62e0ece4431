//! The zone registry: an ordered table from zone key to the channels assigned
//! to the zone, with its primitive operations: insert a new key, remove a
//! key, assign a channel, and take the sorted snapshot of the clusters.

use crate::sorting::{ranks, sort, sorted_ranks, Ranked};
use crate::text::{
    lemma_lex_le_antisymmetric, lemma_lex_le_connected, lemma_lex_le_reflexive,
    lemma_lex_le_transitive, lex_le, str_eq, str_le,
};
use vstd::multiset::Multiset;
use vstd::prelude::*;

verus! {

/// The model of one zone: its key and its channel names in order.
pub struct ZoneView {
    pub key: Seq<char>,
    pub channels: Seq<Seq<char>>,
}

/// The model of a cluster: the size of a zone and its key.
pub struct ClusterView {
    pub size: nat,
    pub key: Seq<char>,
}

/// Some zone of `s` has the key `key`.
pub open spec fn has_key(s: Seq<ZoneView>, key: Seq<char>) -> bool {
    exists|i: int| 0 <= i < s.len() && #[trigger] s[i].key == key
}

/// The position of the zone with key `key` in `s`.
pub open spec fn position(s: Seq<ZoneView>, key: Seq<char>) -> int
    recommends
        has_key(s, key),
{
    choose|i: int| 0 <= i < s.len() && #[trigger] s[i].key == key
}

/// No two zones of `s` share a key.
pub open spec fn distinct_keys(s: Seq<ZoneView>) -> bool {
    forall|i: int, j: int|
        0 <= i < s.len() && 0 <= j < s.len() && i != j ==> #[trigger] s[i].key != #[trigger] s[j].key
}

/// A registry is well formed when its keys are distinct and every zone holds
/// at least one channel.
pub open spec fn registry_wf(s: Seq<ZoneView>) -> bool {
    &&& distinct_keys(s)
    &&& forall|i: int| 0 <= i < s.len() ==> #[trigger] s[i].channels.len() > 0
}

/// The channels of the zone with key `key`.
pub open spec fn channels_of(s: Seq<ZoneView>, key: Seq<char>) -> Seq<Seq<char>>
    recommends
        has_key(s, key),
{
    s[position(s, key)].channels
}

/// `s` without the zone with key `key`; the other zones keep their order.
pub open spec fn without_key(s: Seq<ZoneView>, key: Seq<char>) -> Seq<ZoneView>
    recommends
        has_key(s, key),
{
    s.remove(position(s, key))
}

/// Every channel name held by some zone of `s`, counted as often as it occurs.
pub open spec fn all_channels(s: Seq<ZoneView>) -> Multiset<Seq<char>>
    decreases s.len(),
{
    if s.len() == 0 {
        Multiset::empty()
    } else {
        all_channels(s.drop_last()).add(s.last().channels.to_multiset())
    }
}

/// The cluster of each zone, in registry order.
pub open spec fn clusters(s: Seq<ZoneView>) -> Seq<ClusterView> {
    Seq::new(s.len(), |i: int| ClusterView { size: s[i].channels.len(), key: s[i].key })
}

/// Clusters are ordered by size, and by key among clusters of one size.
pub open spec fn cluster_le(a: ClusterView, b: ClusterView) -> bool {
    a.size < b.size || (a.size == b.size && lex_le(a.key, b.key))
}

/// The clusters of `s` in ascending order.
pub open spec fn snapshot_of(s: Seq<ZoneView>) -> Seq<ClusterView> {
    sorted_ranks::<Cluster>(clusters(s))
}

/// `s` after the channel `name` was assigned to the zone `key`: appended to
/// that zone's list, or alone in a new last zone when the key is new.
pub open spec fn with_channel(s: Seq<ZoneView>, key: Seq<char>, name: Seq<char>) -> Seq<ZoneView> {
    if has_key(s, key) {
        let i = position(s, key);
        s.update(i, ZoneView { key: key, channels: s[i].channels.push(name) })
    } else {
        s.push(ZoneView { key: key, channels: seq![name] })
    }
}

/// In a registry with distinct keys, a zone is found at its own position.
pub proof fn lemma_position_unique(s: Seq<ZoneView>, i: int)
    requires
        distinct_keys(s),
        0 <= i < s.len(),
    ensures
        has_key(s, s[i].key),
        position(s, s[i].key) == i,
{
    assert(s[i].key == s[i].key);
}

/// Removing a zone keeps the registry well formed and leaves the other zones
/// as they were.
pub proof fn lemma_without_key(s: Seq<ZoneView>, key: Seq<char>)
    requires
        registry_wf(s),
        has_key(s, key),
    ensures
        registry_wf(without_key(s, key)),
        without_key(s, key).len() == s.len() - 1,
        forall|k: Seq<char>| has_key(without_key(s, key), k) <==> has_key(s, k) && k != key,
        forall|k: Seq<char>|
            has_key(s, k) && k != key ==> #[trigger] channels_of(without_key(s, key), k)
                == channels_of(s, k),
{
    let p = position(s, key);
    let r = without_key(s, key);
    assert forall|i: int, j: int| 0 <= i < r.len() && 0 <= j < r.len() && i != j implies #[trigger]
        r[i].key != #[trigger] r[j].key by {
        let oi = if i < p { i } else { i + 1 };
        let oj = if j < p { j } else { j + 1 };
        assert(r[i] == s[oi] && r[j] == s[oj]);
    }
    assert forall|i: int| 0 <= i < r.len() implies #[trigger] r[i].channels.len() > 0 by {
        let oi = if i < p { i } else { i + 1 };
        assert(r[i] == s[oi]);
    }
    assert forall|k: Seq<char>| has_key(r, k) <==> has_key(s, k) && k != key by {
        if has_key(r, k) {
            let i = position(r, k);
            let oi = if i < p { i } else { i + 1 };
            assert(r[i] == s[oi]);
            assert(s[oi].key == k);
        }
        if has_key(s, k) && k != key {
            let oi = position(s, k);
            let i = if oi < p { oi } else { oi - 1 };
            assert(r[i] == s[oi]);
            assert(r[i].key == k);
        }
    }
    assert forall|k: Seq<char>| has_key(s, k) && k != key implies #[trigger] channels_of(r, k)
        == channels_of(s, k) by {
        let oi = position(s, k);
        let i = if oi < p { oi } else { oi - 1 };
        assert(r[i] == s[oi]);
        assert(r[i].key == k);
        lemma_position_unique(r, i);
    }
}

/// A new key at the end keeps the registry well formed.
pub proof fn lemma_push_zone(s: Seq<ZoneView>, z: ZoneView)
    requires
        registry_wf(s),
        !has_key(s, z.key),
        z.channels.len() > 0,
    ensures
        registry_wf(s.push(z)),
        forall|k: Seq<char>| has_key(s.push(z), k) <==> has_key(s, k) || k == z.key,
{
    let r = s.push(z);
    assert forall|i: int, j: int| 0 <= i < r.len() && 0 <= j < r.len() && i != j implies #[trigger]
        r[i].key != #[trigger] r[j].key by {
        if i < s.len() {
            assert(s[i].key == r[i].key);
        }
        if j < s.len() {
            assert(s[j].key == r[j].key);
        }
    }
    assert forall|k: Seq<char>| has_key(r, k) <==> has_key(s, k) || k == z.key by {
        if has_key(r, k) {
            let i = position(r, k);
            if i < s.len() {
                assert(s[i].key == k);
            }
        }
        if has_key(s, k) {
            let i = position(s, k);
            assert(r[i].key == k);
        }
        if k == z.key {
            assert(r[s.len() as int].key == k);
        }
    }
}

/// A zone added at the end adds its channels to those of the registry.
pub proof fn lemma_all_channels_push(s: Seq<ZoneView>, z: ZoneView)
    ensures
        all_channels(s.push(z)) == all_channels(s).add(z.channels.to_multiset()),
{
    assert(s.push(z).drop_last() =~= s);
}

/// A zone taken out takes its channels out of those of the registry.
pub proof fn lemma_all_channels_remove(s: Seq<ZoneView>, i: int)
    requires
        0 <= i < s.len(),
    ensures
        all_channels(s) == all_channels(s.remove(i)).add(s[i].channels.to_multiset()),
    decreases s.len(),
{
    broadcast use vstd::multiset::group_multiset_axioms;

    if i == s.len() - 1 {
        assert(s.remove(i) =~= s.drop_last());
    } else {
        lemma_all_channels_remove(s.drop_last(), i);
        assert(s.remove(i).drop_last() =~= s.drop_last().remove(i));
        assert(s.remove(i).last() == s.last());
        assert(all_channels(s) =~= all_channels(s.remove(i)).add(s[i].channels.to_multiset()));
    }
}

/// A zone whose list changes changes the registry's channels accordingly.
pub proof fn lemma_all_channels_update(s: Seq<ZoneView>, i: int, z: ZoneView)
    requires
        0 <= i < s.len(),
    ensures
        all_channels(s.update(i, z)).add(s[i].channels.to_multiset()) == all_channels(s).add(
            z.channels.to_multiset(),
        ),
{
    broadcast use vstd::multiset::group_multiset_axioms;

    lemma_all_channels_remove(s, i);
    lemma_all_channels_remove(s.update(i, z), i);
    assert(s.update(i, z).remove(i) =~= s.remove(i));
    assert(all_channels(s.update(i, z)).add(s[i].channels.to_multiset()) =~= all_channels(s).add(
        z.channels.to_multiset(),
    ));
}

/// Assigning a channel adds exactly that channel.
pub proof fn lemma_with_channel(s: Seq<ZoneView>, key: Seq<char>, name: Seq<char>)
    requires
        registry_wf(s),
    ensures
        registry_wf(with_channel(s, key, name)),
        all_channels(with_channel(s, key, name)) == all_channels(s).insert(name),
{
    broadcast use vstd::multiset::group_multiset_axioms;

    if has_key(s, key) {
        let i = position(s, key);
        let z = ZoneView { key: key, channels: s[i].channels.push(name) };
        let r = s.update(i, z);
        lemma_all_channels_update(s, i, z);
        vstd::seq_lib::to_multiset_build(s[i].channels, name);
        assert(all_channels(r) =~= all_channels(s).insert(name)) by {
            let m = s[i].channels.to_multiset();
            assert(all_channels(r).add(m) == all_channels(s).add(m.insert(name)));
            assert forall|x: Seq<char>| all_channels(r).count(x) == all_channels(s).insert(
                name,
            ).count(x) by {
                assert(all_channels(r).add(m).count(x) == all_channels(s).add(
                    m.insert(name),
                ).count(x));
            }
        }
        assert forall|a: int, b: int| 0 <= a < r.len() && 0 <= b < r.len() && a != b implies #[trigger]
            r[a].key != #[trigger] r[b].key by {
            assert(r[a].key == s[a].key && r[b].key == s[b].key);
        }
    } else {
        let z = ZoneView { key: key, channels: seq![name] };
        lemma_push_zone(s, z);
        lemma_all_channels_push(s, z);
        assert(seq![name] =~= Seq::<Seq<char>>::empty().push(name));
        vstd::seq_lib::to_multiset_build(Seq::<Seq<char>>::empty(), name);
        crate::sorting::lemma_empty_to_multiset(Seq::<Seq<char>>::empty());
        assert(all_channels(s.push(z)) =~= all_channels(s).insert(name));
    }
}

/// What the snapshot holds: one cluster for each zone, each with its zone's
/// size, no key twice, in ascending order.
pub proof fn lemma_snapshot(s: Seq<ZoneView>)
    requires
        distinct_keys(s),
    ensures
        snapshot_of(s).len() == s.len(),
        forall|j: int|
            0 <= j < s.len() ==> has_key(s, #[trigger] snapshot_of(s)[j].key) && snapshot_of(
                s,
            )[j].size == channels_of(s, snapshot_of(s)[j].key).len(),
        forall|i: int, j: int|
            0 <= i < s.len() && 0 <= j < s.len() && i != j ==> #[trigger] snapshot_of(s)[i].key
                != #[trigger] snapshot_of(s)[j].key,
        forall|i: int, j: int|
            0 <= i < j < s.len() ==> cluster_le(
                #[trigger] snapshot_of(s)[i],
                #[trigger] snapshot_of(s)[j],
            ),
        forall|i: int| 0 <= i < s.len() ==> snapshot_of(s).contains(#[trigger] clusters(s)[i]),
{
    broadcast use vstd::multiset::group_multiset_axioms;

    let c = snapshot_of(s);
    let u = clusters(s);
    crate::sorting::lemma_sorted_ranks::<Cluster>(u);
    assert forall|x: ClusterView| c.contains(x) <==> u.contains(x) by {
        vstd::seq_lib::to_multiset_contains(c, x);
        vstd::seq_lib::to_multiset_contains(u, x);
    }
    assert forall|j: int| 0 <= j < s.len() implies has_key(s, #[trigger] c[j].key) && c[j].size
        == channels_of(s, c[j].key).len() by {
        assert(c.contains(c[j]));
        let i = choose|i: int| 0 <= i < u.len() && u[i] == c[j];
        lemma_position_unique(s, i);
    }
    assert(u.no_duplicates()) by {
        assert forall|a: int, b: int| 0 <= a < u.len() && 0 <= b < u.len() && a != b implies u[a]
            != u[b] by {
            assert(s[a].key != s[b].key);
        }
    }
    u.lemma_multiset_has_no_duplicates();
    c.lemma_multiset_has_no_duplicates_conv();
    assert forall|i: int, j: int| 0 <= i < s.len() && 0 <= j < s.len() && i != j implies #[trigger]
        c[i].key != #[trigger] c[j].key by {
        assert(c[i] != c[j]);
        assert(c.contains(c[i]));
        assert(c.contains(c[j]));
        let a = choose|a: int| 0 <= a < u.len() && u[a] == c[i];
        let b = choose|b: int| 0 <= b < u.len() && u[b] == c[j];
        if c[i].key == c[j].key {
            assert(s[a].key == s[b].key);
        }
    }
    assert forall|i: int, j: int| 0 <= i < j < s.len() implies cluster_le(
        #[trigger] c[i],
        #[trigger] c[j],
    ) by {
        assert(crate::sorting::rank_order::<Cluster>()(c[i], c[j]));
    }
    assert forall|i: int| 0 <= i < s.len() implies c.contains(#[trigger] u[i]) by {
        assert(u.contains(u[i]));
    }
}

/// A zone: its key and the names of its channels.
pub struct Zone {
    pub key: String,
    pub channels: Vec<String>,
}

impl View for Zone {
    type V = ZoneView;

    open spec fn view(&self) -> ZoneView {
        ZoneView { key: self.key@, channels: self.channels.deep_view() }
    }
}

/// A cluster: the number of channels of a zone and the zone's key.
pub struct Cluster {
    pub size: usize,
    pub key: String,
}

impl View for Cluster {
    type V = ClusterView;

    open spec fn view(&self) -> ClusterView {
        ClusterView { size: self.size as nat, key: self.key@ }
    }
}

impl Ranked for Cluster {
    type Rank = ClusterView;

    open spec fn rank(&self) -> ClusterView {
        self@
    }

    open spec fn rank_le(a: ClusterView, b: ClusterView) -> bool {
        cluster_le(a, b)
    }

    proof fn lemma_rank_total() {
        assert forall|a: ClusterView| #[trigger] cluster_le(a, a) by {
            lemma_lex_le_reflexive(a.key);
        }
        assert forall|a: ClusterView, b: ClusterView| #[trigger]
            cluster_le(a, b) && #[trigger] cluster_le(b, a) implies a == b by {
            lemma_lex_le_antisymmetric(a.key, b.key);
        }
        assert forall|a: ClusterView, b: ClusterView, c: ClusterView| #[trigger]
            cluster_le(a, b) && #[trigger] cluster_le(b, c) implies cluster_le(a, c) by {
            if a.size == b.size && b.size == c.size {
                lemma_lex_le_transitive(a.key, b.key, c.key);
            }
        }
        assert forall|a: ClusterView, b: ClusterView| #[trigger]
            cluster_le(a, b) || #[trigger] cluster_le(b, a) by {
            lemma_lex_le_connected(a.key, b.key);
        }
    }

    fn precedes(&self, other: &Self) -> (r: bool) {
        self.size < other.size || (self.size == other.size && str_le(
            self.key.as_str(),
            other.key.as_str(),
        ))
    }
}

/// The table of zones. Keys are distinct, every zone holds at least one
/// channel, and zones stay in the order in which their keys were inserted.
pub struct ZoneRegistry {
    zones: Vec<Zone>,
}

impl View for ZoneRegistry {
    type V = Seq<ZoneView>;

    closed spec fn view(&self) -> Seq<ZoneView> {
        Seq::new(self.zones@.len(), |i: int| self.zones@[i]@)
    }
}

impl ZoneRegistry {
    /// The registry's invariant.
    pub open spec fn wf(&self) -> bool {
        registry_wf(self@)
    }

    /// An empty registry.
    pub fn new() -> (r: ZoneRegistry)
        ensures
            r@ == Seq::<ZoneView>::empty(),
            r.wf(),
    {
        let r = ZoneRegistry { zones: Vec::new() };
        assert(r@ =~= Seq::<ZoneView>::empty());
        r
    }

    /// The number of zones.
    pub fn len(&self) -> (n: usize)
        ensures
            n == self@.len(),
    {
        self.zones.len()
    }

    /// The zone at position `i`.
    pub fn zone(&self, i: usize) -> (z: &Zone)
        requires
            i < self@.len(),
        ensures
            z@ == self@[i as int],
    {
        &self.zones[i]
    }

    /// The position of the zone with key `key`, if there is one.
    pub fn find(&self, key: &str) -> (r: Option<usize>)
        ensures
            r is Some <==> has_key(self@, key@),
            r is Some ==> r->0 < self@.len() && self@[r->0 as int].key == key@,
            self.wf() && r is Some ==> r->0 == position(self@, key@),
    {
        let mut i: usize = 0;
        while i < self.zones.len()
            invariant
                i <= self.zones@.len(),
                forall|j: int| 0 <= j < i ==> (#[trigger] self@[j]).key != key@,
            decreases self.zones@.len() - i,
        {
            if str_eq(self.zones[i].key.as_str(), key) {
                assert(self@[i as int].key == key@);
                return Some(i);
            }
            i = i + 1;
        }
        None
    }

    /// Whether some zone has the key `key`.
    pub fn contains_key(&self, key: &str) -> (r: bool)
        ensures
            r == has_key(self@, key@),
    {
        self.find(key).is_some()
    }

    /// Inserts a new zone at the end. Nothing is inserted, and `false` is
    /// returned, when the key is already present or `channels` is empty.
    pub fn insert(&mut self, key: String, channels: Vec<String>) -> (inserted: bool)
        requires
            old(self).wf(),
        ensures
            final(self).wf(),
            inserted == (!has_key(old(self)@, key@) && channels@.len() > 0),
            inserted ==> final(self)@ == old(self)@.push(
                ZoneView { key: key@, channels: channels.deep_view() },
            ),
            !inserted ==> final(self)@ == old(self)@,
    {
        if channels.len() == 0 || self.contains_key(key.as_str()) {
            return false;
        }
        let ghost before = self@;
        let ghost added = ZoneView { key: key@, channels: channels.deep_view() };
        self.zones.push(Zone { key, channels });
        assert(self@ =~= before.push(added));
        true
    }

    /// Removes the zone with key `key` and returns its channels; the other
    /// zones keep their order.
    pub fn remove(&mut self, key: &str) -> (r: Option<Vec<String>>)
        requires
            old(self).wf(),
        ensures
            final(self).wf(),
            r is Some <==> has_key(old(self)@, key@),
            r is Some ==> r->0.deep_view() == channels_of(old(self)@, key@) && final(self)@
                == without_key(old(self)@, key@),
            r is None ==> final(self)@ == old(self)@,
    {
        match self.find(key) {
            None => None,
            Some(i) => {
                let ghost before = self@;
                let z = self.zones.remove(i);
                assert(self@ =~= before.remove(i as int));
                Some(z.channels)
            },
        }
    }

    /// Assigns the channel `name` to the zone `key`, creating the zone when
    /// the key is new.
    pub fn add_channel(&mut self, key: String, name: String)
        requires
            old(self).wf(),
        ensures
            final(self).wf(),
            final(self)@ == with_channel(old(self)@, key@, name@),
    {
        let ghost before = self@;
        match self.find(key.as_str()) {
            Some(i) => {
                let ghost list = self.zones@[i as int].channels.deep_view();
                self.zones[i].channels.push(name);
                assert(self.zones@[i as int].channels.deep_view() =~= list.push(name@));
                assert(self@ =~= before.update(
                    i as int,
                    ZoneView { key: key@, channels: before[i as int].channels.push(name@) },
                ));
            },
            None => {
                let mut channels: Vec<String> = Vec::new();
                channels.push(name);
                assert(channels.deep_view() =~= seq![name@]);
                self.zones.push(Zone { key, channels });
                assert(self@ =~= before.push(ZoneView { key: key@, channels: seq![name@] }));
            },
        }
    }

    /// The clusters of the registry in ascending order of size, then key.
    pub fn snapshot(&self) -> (c: Vec<Cluster>)
        ensures
            ranks(c@) == snapshot_of(self@),
            c@.len() == self@.len(),
    {
        let mut c: Vec<Cluster> = Vec::new();
        let mut i: usize = 0;
        while i < self.zones.len()
            invariant
                i <= self.zones@.len(),
                c@.len() == i,
                forall|j: int| 0 <= j < i ==> (#[trigger] c@[j])@ == clusters(self@)[j],
            decreases self.zones@.len() - i,
        {
            let z = &self.zones[i];
            c.push(Cluster { size: z.channels.len(), key: z.key.clone() });
            i = i + 1;
        }
        assert(ranks(c@) =~= clusters(self@));
        sort(c)
    }
}

} // verus!
