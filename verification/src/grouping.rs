//! Zone grouping: each channel goes to the zone that its group field names.

use crate::text::{leading_token, leading_token_of};
use crate::zones::{
    all_channels, lemma_with_channel, registry_wf, with_channel, ZoneRegistry, ZoneView,
};
use vstd::prelude::*;

verus! {

/// The model of a channel record: its name and its raw group field.
pub struct RecordView {
    pub name: Seq<char>,
    pub group_field: Seq<char>,
}

/// A channel as the zone engine sees it: its name and its raw group field.
pub struct ChannelRecord {
    pub name: String,
    pub group_field: String,
}

impl View for ChannelRecord {
    type V = RecordView;

    open spec fn view(&self) -> RecordView {
        RecordView { name: self.name@, group_field: self.group_field@ }
    }
}

/// The key of the zone of channels without a group.
pub open spec fn default_key() -> Seq<char> {
    "Default"@
}

/// The zone key of a group field: the field's leading token as it stands,
/// whether it writes a number or not; `Default` if the token is empty, as it
/// is for the empty field and for a field that starts with a space.
pub open spec fn zone_key_of(field: Seq<char>) -> Seq<char> {
    if leading_token_of(field).len() == 0 {
        default_key()
    } else {
        leading_token_of(field)
    }
}

/// The models of `records`, in order.
pub open spec fn record_views(records: Seq<ChannelRecord>) -> Seq<RecordView> {
    Seq::new(records.len(), |i: int| records[i]@)
}

/// The names of `records`, in order.
pub open spec fn names(records: Seq<RecordView>) -> Seq<Seq<char>> {
    Seq::new(records.len(), |i: int| records[i].name)
}

/// The registry that grouping builds: the channels are assigned one after the
/// other, each to the zone of its group field.
pub open spec fn grouped(records: Seq<RecordView>) -> Seq<ZoneView>
    decreases records.len(),
{
    if records.len() == 0 {
        Seq::empty()
    } else {
        with_channel(
            grouped(records.drop_last()),
            zone_key_of(records.last().group_field),
            records.last().name,
        )
    }
}

/// Grouping gives a well-formed registry that holds every channel name as
/// often as the input does.
pub proof fn lemma_grouped(records: Seq<RecordView>)
    ensures
        registry_wf(grouped(records)),
        all_channels(grouped(records)) == names(records).to_multiset(),
    decreases records.len(),
{
    if records.len() == 0 {
        crate::sorting::lemma_empty_to_multiset(names(records));
    } else {
        let front = records.drop_last();
        lemma_grouped(front);
        lemma_with_channel(
            grouped(front),
            zone_key_of(records.last().group_field),
            records.last().name,
        );
        assert(names(records) =~= names(front).push(records.last().name));
        vstd::seq_lib::to_multiset_build(names(front), records.last().name);
    }
}

/// The zone key of a channel with the group field `field`.
pub fn zone_key(field: &str) -> (key: String)
    ensures
        key@ == zone_key_of(field@),
{
    let token = leading_token(field);
    if token.unicode_len() == 0 {
        String::from_str("Default")
    } else {
        String::from_str(token)
    }
}

/// Groups `records` into a new registry.
pub fn group_channels(records: &Vec<ChannelRecord>) -> (registry: ZoneRegistry)
    ensures
        registry.wf(),
        registry@ == grouped(record_views(records@)),
        all_channels(registry@) == names(record_views(records@)).to_multiset(),
{
    let mut registry = ZoneRegistry::new();
    let mut i: usize = 0;
    while i < records.len()
        invariant
            i <= records@.len(),
            registry.wf(),
            registry@ == grouped(record_views(records@).subrange(0, i as int)),
        decreases records@.len() - i,
    {
        let record = &records[i];
        proof {
            let upto = record_views(records@).subrange(0, i + 1);
            assert(upto.drop_last() =~= record_views(records@).subrange(0, i as int));
            assert(upto.last() == record@);
        }
        registry.add_channel(zone_key(record.group_field.as_str()), record.name.clone());
        i = i + 1;
    }
    proof {
        assert(record_views(records@).subrange(0, i as int) =~= record_views(records@));
        lemma_grouped(record_views(records@));
    }
    registry
}

} // verus!
