use djmd5::contacts::ContactTable;
use djmd5::export::{
    channel_heading, channel_line, channels_table, contact_heading, contact_line, contacts_table,
    group_heading, group_line, groups_table, mode_label, power_label, records_of,
    split_call_name, tone_label, zone_heading, zone_line, zones_table, Channel, Contact,
};
use djmd5::numbers::signed_decimal_string;
use djmd5::rows::ZoneRow;
use djmd5::text::{char_is_space, trim};

fn channel(name: &str, group_id: &str) -> Channel {
    Channel {
        name: name.to_string(),
        mode: "DMR".to_string(),
        bandwidth: "12.5".to_string(),
        tx_freq: "438.40000".to_string(),
        rx_freq: "433.40000".to_string(),
        power: "HIGH".to_string(),
        ctcss_r: "None".to_string(),
        ctcss_t: "88.5".to_string(),
        group_id: group_id.to_string(),
        colour: 1,
        slot: 2,
    }
}

#[test]
fn trim_removes_white_space_at_both_ends() {
    assert_eq!(trim("  LA5AUA Stefan \t\r\n"), "LA5AUA Stefan");
    assert_eq!(trim("abc"), "abc");
    assert_eq!(trim(""), "");
    assert_eq!(trim(" \t "), "");
    assert_eq!(trim("\u{3000}é x\u{00A0}\u{2003}"), "é x");
    assert_eq!(trim("x"), "x");
    assert_eq!(trim(" x"), "x");
    assert_eq!(trim("x "), "x");
}

#[test]
fn white_space_is_that_of_the_standard_library() {
    for code in 0..0x3100u32 {
        if let Some(c) = char::from_u32(code) {
            assert_eq!(char_is_space(c), c.is_whitespace(), "U+{:04X}", code);
        }
    }
    for s in ["", " a ", "\u{85}a\u{1680}", "\u{200B}a", "a\u{2028}\u{2029}\u{202F}\u{205F}"] {
        assert_eq!(trim(s), s.trim());
    }
}

#[test]
fn call_name_splits_at_the_first_space() {
    assert_eq!(split_call_name("LA5AUA Stefan "), ("LA5AUA", "Stefan"));
    assert_eq!(split_call_name("LA5AUA"), ("LA5AUA", "LA5AUA"));
    assert_eq!(split_call_name(" LA5AUA  Stefan Olsen"), ("LA5AUA", " Stefan Olsen"));
    assert_eq!(split_call_name(""), ("", ""));
    assert_eq!(split_call_name("   "), ("", ""));
}

#[test]
fn labels_of_mode_power_and_tone() {
    assert_eq!(mode_label("DMR"), "D-Digital");
    assert_eq!(mode_label("FM"), "A-Analog");
    assert_eq!(mode_label("dmr"), "A-Analog");
    assert_eq!(mode_label(""), "A-Analog");
    assert_eq!(power_label("LOW"), "Low");
    assert_eq!(power_label("MEDIUM"), "Mid");
    assert_eq!(power_label("HIGH"), "Turbo");
    assert_eq!(power_label(""), "Turbo");
    assert_eq!(tone_label("None"), "Off");
    assert_eq!(tone_label("000.0"), "Off");
    assert_eq!(tone_label("NONE"), "NONE");
    assert_eq!(tone_label("88.5"), "88.5");
}

#[test]
fn signed_numbers() {
    assert_eq!(signed_decimal_string(0), "0");
    assert_eq!(signed_decimal_string(12), "12");
    assert_eq!(signed_decimal_string(-1), "-1");
    assert_eq!(signed_decimal_string(i32::MAX), "2147483647");
    assert_eq!(signed_decimal_string(i32::MIN), "-2147483648");
}

#[test]
fn heading_lines() {
    assert_eq!(
        contact_heading(),
        "\"No.\",\"Radio ID\",\"Callsign\",\"Name\",\"City\",\"State\",\"Country\",\"Remarks\",\"Call Type\",\"Call Alert\"\r\n"
    );
    assert_eq!(
        group_heading(),
        "\"No.\",\"Radio ID\",\"Name\",\"Call Type\",\"Call Alert\"\r\n"
    );
    assert_eq!(
        zone_heading(),
        "\"No.\",\"Zone Name\",\"Zone Channel Member\",\"A Channel\",\"B Channel\"\r\n"
    );
    let heading = channel_heading();
    assert!(heading.starts_with("\"No.\",\"Channel Name\",\"Receive Frequency\","));
    assert!(heading.ends_with(",\"Ranging\",\"Through Mode\"\r\n"));
    assert_eq!(heading.matches(',').count(), 36);
}

#[test]
fn contact_lines() {
    let contact = Contact {
        dmr_id: 2429135,
        call_name: "LA5AUA Stefan ".to_string(),
        call_type: "Private Call".to_string(),
    };
    assert_eq!(
        contact_line(1, &contact),
        "\"1\",\"2429135\",\"LA5AUA\",\"Stefan\",\"\",\"\",\"\",\"\",\"Private Call\",\"None\"\r\n"
    );
    let table = contacts_table(&vec![
        contact,
        Contact { dmr_id: 7, call_name: "X".to_string(), call_type: "Group Call".to_string() },
    ]);
    assert_eq!(table.len(), 3);
    assert_eq!(table[0], contact_heading());
    assert_eq!(
        table[2],
        "\"2\",\"7\",\"X\",\"X\",\"\",\"\",\"\",\"\",\"Group Call\",\"None\"\r\n"
    );
}

#[test]
fn channel_lines() {
    let ch = channel("433.400 FMN", "42 Some Group");
    assert_eq!(
        channel_line(3, &ch, "42 Some Group"),
        "\"3\",\"433.400 FMN\",\"433.40000\",\"438.40000\",\"D-Digital\",\"Turbo\",\"12.5K\",\"Off\",\"88.5\",\"42 Some Group\",\"Group Call\",\"42 Some Group\",\"\",\"Always\",\"Carrier\",\"Off\",\"1\",\"1\",\"1\",\"Off\",\"1\",\"2\",\"None\",\"None\",\"Off\",\"Off\",\"Off\",\"Off\",\"Normal Encryption\",\"Off\",\"Off\",\"Off\",\"Off\",\"251.1\",\"0\",\"Off\",\"Off\"\r\n"
    );
}

#[test]
fn channel_table_carries_the_first_label_of_each_group() {
    let channels = vec![
        channel("a", "42 Some Group"),
        channel("b", ""),
        channel("c", "42 SomeGroupRenamed"),
        channel("d", "7 Seven"),
        channel("e", "NONE"),
    ];
    let tables = channels_table(&channels);
    assert_eq!(tables.lines.len(), 6);
    assert_eq!(tables.lines[0], channel_heading());
    assert_eq!(tables.lines[1], channel_line(1, &channels[0], "42 Some Group"));
    assert_eq!(tables.lines[2], channel_line(2, &channels[1], ""));
    assert_eq!(tables.lines[3], channel_line(3, &channels[2], "42 Some Group"));
    assert_eq!(tables.lines[4], channel_line(4, &channels[3], "7 Seven"));
    assert_eq!(tables.lines[5], channel_line(5, &channels[4], ""));
    assert_eq!(tables.groups.len(), 2);
    assert_eq!(
        groups_table(&tables.groups),
        vec![
            group_heading(),
            "\"1\",\"42\",\"42 Some Group\",\"Group Call\",\"None\"\r\n".to_string(),
            "\"2\",\"7\",\"7 Seven\",\"Group Call\",\"None\"\r\n".to_string(),
        ]
    );
}

#[test]
fn group_lines() {
    let mut table = ContactTable::new();
    table.resolve("2429135 Norway");
    assert_eq!(
        group_line(9, table.group(0)),
        "\"9\",\"2429135\",\"2429135 Norway\",\"Group Call\",\"None\"\r\n"
    );
    assert_eq!(groups_table(&ContactTable::new()), vec![group_heading()]);
}

#[test]
fn zone_lines() {
    let row = ZoneRow {
        index: 2,
        key: "20/30".to_string(),
        channels: vec!["ch3".to_string(), "ch5".to_string()],
        channel_a: "ch3".to_string(),
        channel_b: "ch5".to_string(),
    };
    assert_eq!(zone_line(&row), "\"2\",\"20/30\",\"ch3|ch5\",\"ch3\",\"ch5\"\r\n");
    let table = zones_table(&vec![row]);
    assert_eq!(table.len(), 2);
    assert_eq!(table[0], zone_heading());
    assert_eq!(table[1], "\"2\",\"20/30\",\"ch3|ch5\",\"ch3\",\"ch5\"\r\n");
}

#[test]
fn records_are_name_and_group_field() {
    let records = records_of(&vec![channel("a", "42 x"), channel("b", "")]);
    assert_eq!(records.len(), 2);
    assert_eq!(records[0].name, "a");
    assert_eq!(records[0].group_field, "42 x");
    assert_eq!(records[1].name, "b");
    assert_eq!(records[1].group_field, "");
}
