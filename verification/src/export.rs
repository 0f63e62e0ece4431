//! The output tables: contacts, channels, contact groups and zones, each as
//! a heading line followed by one line for each record.

use crate::contacts::{resolved, ContactGroup, ContactTable, GroupView};
use crate::grouping::{record_views, ChannelRecord, RecordView};
use crate::lines::{line_of, quoted_line, texts};
use crate::numbers::{decimal, decimal_string, signed_decimal, signed_decimal_string};
use crate::rows::{RowView, ZoneRow};
use crate::text::{
    first_space, joined, leading_token, leading_token_of, lemma_first_space, str_eq, trim, trimmed,
};
use vstd::prelude::*;

verus! {

/// The model of a contact.
pub struct ContactView {
    pub dmr_id: u32,
    pub call_name: Seq<char>,
    pub call_type: Seq<char>,
}

/// A contact as it is read: a radio identifier, the call sign and operator
/// name in one text, and the kind of call.
pub struct Contact {
    pub dmr_id: u32,
    pub call_name: String,
    pub call_type: String,
}

impl View for Contact {
    type V = ContactView;

    open spec fn view(&self) -> ContactView {
        ContactView { dmr_id: self.dmr_id, call_name: self.call_name@, call_type: self.call_type@ }
    }
}

/// The model of a channel.
pub struct ChannelView {
    pub name: Seq<char>,
    pub mode: Seq<char>,
    pub bandwidth: Seq<char>,
    pub tx_freq: Seq<char>,
    pub rx_freq: Seq<char>,
    pub power: Seq<char>,
    pub ctcss_r: Seq<char>,
    pub ctcss_t: Seq<char>,
    pub group_id: Seq<char>,
    pub colour: i32,
    pub slot: i32,
}

/// A channel as it is read. The bandwidth and the two frequencies are held
/// as the texts that the channel table shows.
pub struct Channel {
    pub name: String,
    pub mode: String,
    pub bandwidth: String,
    pub tx_freq: String,
    pub rx_freq: String,
    pub power: String,
    pub ctcss_r: String,
    pub ctcss_t: String,
    pub group_id: String,
    pub colour: i32,
    pub slot: i32,
}

impl View for Channel {
    type V = ChannelView;

    open spec fn view(&self) -> ChannelView {
        ChannelView {
            name: self.name@,
            mode: self.mode@,
            bandwidth: self.bandwidth@,
            tx_freq: self.tx_freq@,
            rx_freq: self.rx_freq@,
            power: self.power@,
            ctcss_r: self.ctcss_r@,
            ctcss_t: self.ctcss_t@,
            group_id: self.group_id@,
            colour: self.colour,
            slot: self.slot,
        }
    }
}

/// The call sign in a call name: the leading token of the trimmed name.
pub open spec fn call_sign_of(call_name: Seq<char>) -> Seq<char> {
    leading_token_of(trimmed(call_name))
}

/// The operator's name in a call name: what follows the first space of the
/// trimmed name, or the whole trimmed name if it holds no space.
pub open spec fn operator_of(call_name: Seq<char>) -> Seq<char> {
    let t = trimmed(call_name);
    let p = first_space(t, 0);
    if p < t.len() {
        t.subrange(p + 1, t.len() as int)
    } else {
        t
    }
}

/// Splits a call name into call sign and operator's name.
pub fn split_call_name(call_name: &str) -> (r: (&str, &str))
    ensures
        r.0@ == call_sign_of(call_name@),
        r.1@ == operator_of(call_name@),
{
    let t = trim(call_name);
    let n = t.unicode_len();
    let sign = leading_token(t);
    let p = sign.unicode_len();
    proof {
        lemma_first_space(t@, 0);
    }
    if p < n {
        (sign, t.substring_char(p + 1, n))
    } else {
        assert(sign@ =~= t@);
        (t, t)
    }
}

/// The channel type that the channel table shows for a mode.
pub open spec fn mode_label_of(mode: Seq<char>) -> Seq<char> {
    if mode == "DMR"@ {
        "D-Digital"@
    } else {
        "A-Analog"@
    }
}

/// The power level that the channel table shows.
pub open spec fn power_label_of(power: Seq<char>) -> Seq<char> {
    if power == "LOW"@ {
        "Low"@
    } else if power == "MEDIUM"@ {
        "Mid"@
    } else {
        "Turbo"@
    }
}

/// The tone that the channel table shows: `Off` for no tone.
pub open spec fn tone_label_of(tone: Seq<char>) -> Seq<char> {
    if tone == "None"@ || tone == "000.0"@ {
        "Off"@
    } else {
        tone
    }
}

/// The channel type for `mode`.
pub fn mode_label(mode: &str) -> (r: &'static str)
    ensures
        r@ == mode_label_of(mode@),
{
    if str_eq(mode, "DMR") {
        "D-Digital"
    } else {
        "A-Analog"
    }
}

/// The power level for `power`.
pub fn power_label(power: &str) -> (r: &'static str)
    ensures
        r@ == power_label_of(power@),
{
    if str_eq(power, "LOW") {
        "Low"
    } else if str_eq(power, "MEDIUM") {
        "Mid"
    } else {
        "Turbo"
    }
}

/// The tone for `tone`.
pub fn tone_label(tone: &str) -> (r: String)
    ensures
        r@ == tone_label_of(tone@),
{
    if str_eq(tone, "None") || str_eq(tone, "000.0") {
        String::from_str("Off")
    } else {
        String::from_str(tone)
    }
}

/// The headings of the contact table.
pub open spec fn contact_columns() -> Seq<Seq<char>> {
    seq![
        "No."@,
        "Radio ID"@,
        "Callsign"@,
        "Name"@,
        "City"@,
        "State"@,
        "Country"@,
        "Remarks"@,
        "Call Type"@,
        "Call Alert"@,
    ]
}

/// The fields of contact number `number`.
pub open spec fn contact_fields(number: nat, c: ContactView) -> Seq<Seq<char>> {
    seq![
        decimal(number),
        decimal(c.dmr_id as nat),
        call_sign_of(c.call_name),
        operator_of(c.call_name),
        ""@,
        ""@,
        ""@,
        ""@,
        c.call_type,
        "None"@,
    ]
}

/// The headings of the channel table.
pub open spec fn channel_columns() -> Seq<Seq<char>> {
    seq![
        "No."@,
        "Channel Name"@,
        "Receive Frequency"@,
        "Transmit Frequency"@,
        "Channel Type"@,
        "Transmit Power"@,
        "Band Width"@,
        "CTCSS/DCS Decode"@,
        "CTCSS/DCS Encode"@,
        "Contact"@,
        "Contact Call Type"@,
        "Contact TG/DMR ID"@,
        "Radio ID"@,
        "Busy Lock/TX Permit"@,
        "Squelch Mode"@,
        "Optional Signal"@,
        "DTMF ID"@,
        "2Tone ID"@,
        "5Tone ID"@,
        "PTT ID"@,
        "Color Code"@,
        "Slot"@,
        "Scan List"@,
        "Receive Group List"@,
        "TX Prohibit"@,
        "Reverse"@,
        "Simplex TDMA"@,
        "TDMA Adaptive"@,
        "Encryption Type"@,
        "Digital Encryption"@,
        "Call Confirmation"@,
        "Talk Around"@,
        "Work Alone"@,
        "Custom CTCSS"@,
        "2TONE Decode"@,
        "Ranging"@,
        "Through Mode"@,
    ]
}

/// The fields of channel number `number`, whose contact label is `contact`.
pub open spec fn channel_fields(number: nat, c: ChannelView, contact: Seq<char>) -> Seq<
    Seq<char>,
> {
    seq![
        decimal(number),
        c.name,
        c.rx_freq,
        c.tx_freq,
        mode_label_of(c.mode),
        power_label_of(c.power),
        c.bandwidth + "K"@,
        tone_label_of(c.ctcss_r),
        tone_label_of(c.ctcss_t),
        contact,
        "Group Call"@,
        c.group_id,
        ""@,
        "Always"@,
        "Carrier"@,
        "Off"@,
        "1"@,
        "1"@,
        "1"@,
        "Off"@,
        signed_decimal(c.colour as int),
        signed_decimal(c.slot as int),
        "None"@,
        "None"@,
        "Off"@,
        "Off"@,
        "Off"@,
        "Off"@,
        "Normal Encryption"@,
        "Off"@,
        "Off"@,
        "Off"@,
        "Off"@,
        "251.1"@,
        "0"@,
        "Off"@,
        "Off"@,
    ]
}

/// The headings of the contact group table.
pub open spec fn group_columns() -> Seq<Seq<char>> {
    seq!["No."@, "Radio ID"@, "Name"@, "Call Type"@, "Call Alert"@]
}

/// The fields of contact group number `number`.
pub open spec fn group_fields(number: nat, g: GroupView) -> Seq<Seq<char>> {
    seq![decimal(number), decimal(g.id as nat), g.label, "Group Call"@, "None"@]
}

/// The headings of the zone table.
pub open spec fn zone_columns() -> Seq<Seq<char>> {
    seq!["No."@, "Zone Name"@, "Zone Channel Member"@, "A Channel"@, "B Channel"@]
}

/// The fields of a row of the zone table.
pub open spec fn zone_fields(row: RowView) -> Seq<Seq<char>> {
    seq![
        decimal(row.index),
        row.key,
        joined(row.channels, seq!['|']),
        row.channel_a,
        row.channel_b,
    ]
}

/// The heading line of the contact table.
pub fn contact_heading() -> (r: String)
    ensures
        r@ == line_of(contact_columns()),
{
    let columns: Vec<&str> = vec![
        "No.",
        "Radio ID",
        "Callsign",
        "Name",
        "City",
        "State",
        "Country",
        "Remarks",
        "Call Type",
        "Call Alert",
    ];
    assert(texts(columns@) =~= contact_columns());
    quoted_line(columns.as_slice())
}

/// The line of contact number `number`.
pub fn contact_line(number: u64, contact: &Contact) -> (r: String)
    ensures
        r@ == line_of(contact_fields(number as nat, contact@)),
{
    let number_text = decimal_string(number);
    let id_text = decimal_string(contact.dmr_id as u64);
    let (sign, operator) = split_call_name(contact.call_name.as_str());
    let fields: Vec<&str> = vec![
        number_text.as_str(),
        id_text.as_str(),
        sign,
        operator,
        "",
        "",
        "",
        "",
        contact.call_type.as_str(),
        "None",
    ];
    assert(texts(fields@) =~= contact_fields(number as nat, contact@));
    quoted_line(fields.as_slice())
}

/// The heading line of the channel table.
pub fn channel_heading() -> (r: String)
    ensures
        r@ == line_of(channel_columns()),
{
    let columns: Vec<&str> = vec![
        "No.",
        "Channel Name",
        "Receive Frequency",
        "Transmit Frequency",
        "Channel Type",
        "Transmit Power",
        "Band Width",
        "CTCSS/DCS Decode",
        "CTCSS/DCS Encode",
        "Contact",
        "Contact Call Type",
        "Contact TG/DMR ID",
        "Radio ID",
        "Busy Lock/TX Permit",
        "Squelch Mode",
        "Optional Signal",
        "DTMF ID",
        "2Tone ID",
        "5Tone ID",
        "PTT ID",
        "Color Code",
        "Slot",
        "Scan List",
        "Receive Group List",
        "TX Prohibit",
        "Reverse",
        "Simplex TDMA",
        "TDMA Adaptive",
        "Encryption Type",
        "Digital Encryption",
        "Call Confirmation",
        "Talk Around",
        "Work Alone",
        "Custom CTCSS",
        "2TONE Decode",
        "Ranging",
        "Through Mode",
    ];
    assert(texts(columns@) =~= channel_columns());
    quoted_line(columns.as_slice())
}

/// The line of channel number `number`, whose contact label is `contact`.
pub fn channel_line(number: u64, channel: &Channel, contact: &str) -> (r: String)
    ensures
        r@ == line_of(channel_fields(number as nat, channel@, contact@)),
{
    let number_text = decimal_string(number);
    let mut bandwidth = String::from_str(channel.bandwidth.as_str());
    bandwidth.append("K");
    let decode = tone_label(channel.ctcss_r.as_str());
    let encode = tone_label(channel.ctcss_t.as_str());
    let colour = signed_decimal_string(channel.colour);
    let slot = signed_decimal_string(channel.slot);
    let fields: Vec<&str> = vec![
        number_text.as_str(),
        channel.name.as_str(),
        channel.rx_freq.as_str(),
        channel.tx_freq.as_str(),
        mode_label(channel.mode.as_str()),
        power_label(channel.power.as_str()),
        bandwidth.as_str(),
        decode.as_str(),
        encode.as_str(),
        contact,
        "Group Call",
        channel.group_id.as_str(),
        "",
        "Always",
        "Carrier",
        "Off",
        "1",
        "1",
        "1",
        "Off",
        colour.as_str(),
        slot.as_str(),
        "None",
        "None",
        "Off",
        "Off",
        "Off",
        "Off",
        "Normal Encryption",
        "Off",
        "Off",
        "Off",
        "Off",
        "251.1",
        "0",
        "Off",
        "Off",
    ];
    assert(texts(fields@) =~= channel_fields(number as nat, channel@, contact@));
    quoted_line(fields.as_slice())
}

/// The heading line of the contact group table.
pub fn group_heading() -> (r: String)
    ensures
        r@ == line_of(group_columns()),
{
    let columns: Vec<&str> = vec!["No.", "Radio ID", "Name", "Call Type", "Call Alert"];
    assert(texts(columns@) =~= group_columns());
    quoted_line(columns.as_slice())
}

/// The heading line of the zone table.
pub fn zone_heading() -> (r: String)
    ensures
        r@ == line_of(zone_columns()),
{
    let columns: Vec<&str> = vec![
        "No.",
        "Zone Name",
        "Zone Channel Member",
        "A Channel",
        "B Channel",
    ];
    assert(texts(columns@) =~= zone_columns());
    quoted_line(columns.as_slice())
}

/// The line of a row of the zone table.
pub fn zone_line(row: &ZoneRow) -> (r: String)
    ensures
        r@ == line_of(zone_fields(row@)),
{
    let number_text = decimal_string(row.index as u64);
    let members = row.members();
    let fields: Vec<&str> = vec![
        number_text.as_str(),
        row.key.as_str(),
        members.as_str(),
        row.channel_a.as_str(),
        row.channel_b.as_str(),
    ];
    assert(texts(fields@) =~= zone_fields(row@));
    quoted_line(fields.as_slice())
}

/// The line of contact group number `number`.
pub fn group_line(number: u64, group: &ContactGroup) -> (r: String)
    ensures
        r@ == line_of(group_fields(number as nat, group@)),
{
    let number_text = decimal_string(number);
    let id_text = decimal_string(group.id as u64);
    let fields: Vec<&str> = vec![
        number_text.as_str(),
        id_text.as_str(),
        group.label.as_str(),
        "Group Call",
        "None",
    ];
    assert(texts(fields@) =~= group_fields(number as nat, group@));
    quoted_line(fields.as_slice())
}

/// The models of `contacts`, in order.
pub open spec fn contact_views(contacts: Seq<Contact>) -> Seq<ContactView> {
    Seq::new(contacts.len(), |i: int| contacts[i]@)
}

/// The models of `channels`, in order.
pub open spec fn channel_views(channels: Seq<Channel>) -> Seq<ChannelView> {
    Seq::new(channels.len(), |i: int| channels[i]@)
}

/// The contact table: the heading, then the contacts numbered from 1.
pub open spec fn contacts_table_of(contacts: Seq<ContactView>) -> Seq<Seq<char>> {
    Seq::new(
        contacts.len() + 1,
        |i: int|
            if i == 0 {
                line_of(contact_columns())
            } else {
                line_of(contact_fields(i as nat, contacts[i - 1]))
            },
    )
}

/// The contact group table after the first `n` of `channels` were seen.
pub open spec fn groups_after(channels: Seq<ChannelView>, n: int) -> Seq<GroupView>
    decreases n,
{
    if n <= 0 {
        Seq::empty()
    } else {
        resolved(groups_after(channels, n - 1), channels[n - 1].group_id).0
    }
}

/// The contact label of channel `i` (counted from 0): what the group table
/// built from the channels before it gives for its group field.
pub open spec fn label_at(channels: Seq<ChannelView>, i: int) -> Seq<char> {
    resolved(groups_after(channels, i), channels[i].group_id).1
}

/// The channel table: the heading, then the channels numbered from 1, each
/// with its contact label.
pub open spec fn channels_table_of(channels: Seq<ChannelView>) -> Seq<Seq<char>> {
    Seq::new(
        channels.len() + 1,
        |i: int|
            if i == 0 {
                line_of(channel_columns())
            } else {
                line_of(channel_fields(i as nat, channels[i - 1], label_at(channels, i - 1)))
            },
    )
}

/// The contact group table: the heading, then the groups numbered from 1.
pub open spec fn groups_table_of(groups: Seq<GroupView>) -> Seq<Seq<char>> {
    Seq::new(
        groups.len() + 1,
        |i: int|
            if i == 0 {
                line_of(group_columns())
            } else {
                line_of(group_fields(i as nat, groups[i - 1]))
            },
    )
}

/// The zone table: the heading, then the rows.
pub open spec fn zones_table_of(rows: Seq<RowView>) -> Seq<Seq<char>> {
    Seq::new(
        rows.len() + 1,
        |i: int|
            if i == 0 {
                line_of(zone_columns())
            } else {
                line_of(zone_fields(rows[i - 1]))
            },
    )
}

/// What the zone engine reads of each channel: its name and group field.
pub open spec fn records_view_of(channels: Seq<ChannelView>) -> Seq<RecordView> {
    Seq::new(
        channels.len(),
        |i: int| RecordView { name: channels[i].name, group_field: channels[i].group_id },
    )
}

/// The lines of the contact table.
pub fn contacts_table(contacts: &Vec<Contact>) -> (lines: Vec<String>)
    ensures
        lines.deep_view() == contacts_table_of(contact_views(contacts@)),
{
    let mut lines: Vec<String> = Vec::new();
    lines.push(contact_heading());
    let mut i: usize = 0;
    while i < contacts.len()
        invariant
            i <= contacts@.len(),
            lines@.len() == i + 1,
            forall|j: int|
                0 <= j <= i ==> (#[trigger] lines@[j])@ == contacts_table_of(
                    contact_views(contacts@),
                )[j],
        decreases contacts@.len() - i,
    {
        lines.push(contact_line(i as u64 + 1, &contacts[i]));
        i = i + 1;
    }
    assert(lines.deep_view() =~= contacts_table_of(contact_views(contacts@)));
    lines
}

/// The channel table and the contact group table that it gives rise to.
pub struct ChannelTables {
    pub lines: Vec<String>,
    pub groups: ContactTable,
}

/// The lines of the channel table, and the table of the contact groups that
/// the channels name, in the order in which they are first named.
pub fn channels_table(channels: &Vec<Channel>) -> (tables: ChannelTables)
    ensures
        tables.lines.deep_view() == channels_table_of(channel_views(channels@)),
        tables.groups.wf(),
        tables.groups@ == groups_after(channel_views(channels@), channels@.len() as int),
{
    let mut lines: Vec<String> = Vec::new();
    let mut groups = ContactTable::new();
    lines.push(channel_heading());
    let mut i: usize = 0;
    while i < channels.len()
        invariant
            i <= channels@.len(),
            groups.wf(),
            groups@ == groups_after(channel_views(channels@), i as int),
            lines@.len() == i + 1,
            forall|j: int|
                0 <= j <= i ==> (#[trigger] lines@[j])@ == channels_table_of(
                    channel_views(channels@),
                )[j],
        decreases channels@.len() - i,
    {
        let channel = &channels[i];
        let label = groups.resolve(channel.group_id.as_str());
        lines.push(channel_line(i as u64 + 1, channel, label.as_str()));
        i = i + 1;
    }
    assert(lines.deep_view() =~= channels_table_of(channel_views(channels@)));
    ChannelTables { lines, groups }
}

/// The lines of the contact group table.
pub fn groups_table(groups: &ContactTable) -> (lines: Vec<String>)
    ensures
        lines.deep_view() == groups_table_of(groups@),
{
    let mut lines: Vec<String> = Vec::new();
    lines.push(group_heading());
    let n = groups.len();
    let mut i: usize = 0;
    while i < n
        invariant
            n == groups@.len(),
            i <= n,
            lines@.len() == i + 1,
            forall|j: int| 0 <= j <= i ==> (#[trigger] lines@[j])@ == groups_table_of(groups@)[j],
        decreases n - i,
    {
        lines.push(group_line(i as u64 + 1, groups.group(i)));
        i = i + 1;
    }
    assert(lines.deep_view() =~= groups_table_of(groups@));
    lines
}

/// The lines of the zone table.
pub fn zones_table(rows: &Vec<ZoneRow>) -> (lines: Vec<String>)
    ensures
        lines.deep_view() == zones_table_of(crate::rows::row_views(rows@)),
{
    let mut lines: Vec<String> = Vec::new();
    lines.push(zone_heading());
    let mut i: usize = 0;
    while i < rows.len()
        invariant
            i <= rows@.len(),
            lines@.len() == i + 1,
            forall|j: int|
                0 <= j <= i ==> (#[trigger] lines@[j])@ == zones_table_of(
                    crate::rows::row_views(rows@),
                )[j],
        decreases rows@.len() - i,
    {
        lines.push(zone_line(&rows[i]));
        i = i + 1;
    }
    assert(lines.deep_view() =~= zones_table_of(crate::rows::row_views(rows@)));
    lines
}

/// What the zone engine reads of `channels`.
pub fn records_of(channels: &Vec<Channel>) -> (records: Vec<ChannelRecord>)
    ensures
        record_views(records@) == records_view_of(channel_views(channels@)),
{
    let mut records: Vec<ChannelRecord> = Vec::new();
    let mut i: usize = 0;
    while i < channels.len()
        invariant
            i <= channels@.len(),
            records@.len() == i,
            forall|j: int|
                0 <= j < i ==> (#[trigger] records@[j])@ == records_view_of(
                    channel_views(channels@),
                )[j],
        decreases channels@.len() - i,
    {
        records.push(
            ChannelRecord {
                name: channels[i].name.clone(),
                group_field: channels[i].group_id.clone(),
            },
        );
        i = i + 1;
    }
    assert(record_views(records@) =~= records_view_of(channel_views(channels@)));
    records
}

} // verus!
