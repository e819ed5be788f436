use npnp::calendar::{civil_from_days, current_library_date_time, two_digit_text};
use npnp::error::AppError;
use npnp::params::{
    decode_utf8_parameter_value, encode_utf8_parameter_value, param_value, parse_param_pairs,
    parse_usize_param, requires_utf8_parameter, SchParams,
};
use npnp::sections::{
    collect_section_key_pairs, collect_sections, legacy_section_key_from_name,
    push_unique_section_key, section_key_candidates, section_key_from_name, unique_section_key,
};
use npnp::wire::{
    cstring_text, decode_single_byte_text, encode_ansi_lossy, first_param_block_pairs,
    first_schlib_param_block_pairs, parse_block_stream, parse_pascal_short_string, read_block,
    PcbWriter, SchWriter,
};

fn texts(items: &[&str]) -> Vec<String> {
    items.iter().map(|item| item.to_string()).collect()
}

#[test]
fn parameters_are_written_and_read() {
    let mut params = SchParams::default();
    params.push("NAME", "A");
    params.push("TEXT", "32\u{03A9}");
    let text = params.as_string();
    assert_eq!(text, "|NAME=A|TEXT=32\u{03A9}|%UTF8%TEXT=32\u{00CE}\u{00A9}");
    let pairs = parse_param_pairs(&text);
    assert_eq!(param_value(&pairs, "name"), Some("A"));
    assert_eq!(param_value(&pairs, "TEXT"), Some("32\u{03A9}"));
    assert_eq!(param_value(&pairs, "MISSING"), None);
}

#[test]
fn values_beyond_the_code_page_are_spelled_twice() {
    assert!(requires_utf8_parameter("\u{03A9}"));
    assert!(!requires_utf8_parameter("\u{20AC} and \u{00E9}"));
    let spelled = encode_utf8_parameter_value("32\u{03A9}");
    assert_eq!(spelled, "32\u{00CE}\u{00A9}");
    assert_eq!(decode_utf8_parameter_value(&spelled), "32\u{03A9}");
}

#[test]
fn counts_are_parsed_from_parameters() {
    let pairs = parse_param_pairs("|A= 12 |B=x|A2=99999999999999999999999|");
    assert_eq!(parse_usize_param(&pairs, "a"), Some(12));
    assert_eq!(parse_usize_param(&pairs, "B"), None);
    assert_eq!(parse_usize_param(&pairs, "A2"), None);
    assert_eq!(parse_usize_param(&pairs, "C"), None);
}

#[test]
fn blocks_are_framed_by_length_and_flags() {
    let mut child = SchWriter::default();
    child.write_u8(7);
    child.write_i32(-2);
    let mut writer = SchWriter::default();
    writer.write_block(1, child);
    writer.write_string_block("ab");
    let data = writer.into_inner();
    assert_eq!(
        data,
        vec![5, 0, 0, 1, 7, 254, 255, 255, 255, 3, 0, 0, 0, 2, b'a', b'b']
    );
    let mut offset = 0;
    let block = read_block(&data, &mut offset, "test").unwrap();
    assert_eq!((block.flags, block.payload.len(), offset), (1, 5, 9));
    assert_eq!(parse_block_stream(&data, "test").unwrap().len(), 2);
}

#[test]
fn torn_blocks_are_refused() {
    for data in [&[1u8, 0, 0][..], &[2, 0, 0, 0, 9][..]] {
        match parse_block_stream(data, "test") {
            Err(AppError::InvalidResponse(text)) => assert!(text.contains("test"), "{text}"),
            _ => panic!("expected an error"),
        }
    }
}

#[test]
fn texts_are_encoded_byte_by_byte() {
    assert_eq!(encode_ansi_lossy("a\u{20AC}\0"), vec![b'a', 0x80, b'?']);
    assert_eq!(encode_ansi_lossy("\u{03A9}"), b"&#937;".to_vec());
    assert_eq!(decode_single_byte_text(&[0x41, 0xE9]), "A\u{00E9}");
    assert_eq!(cstring_text(b"abc\0def"), "abc");
    assert_eq!(cstring_text(b"abc"), "abc");
}

#[test]
fn short_strings_are_written_and_read() {
    let mut writer = PcbWriter::default();
    writer.write_pascal_short_string("QFN");
    let data = writer.into_inner();
    assert_eq!(data, vec![3, b'Q', b'F', b'N']);
    assert_eq!(parse_pascal_short_string(&data), "QFN");
    assert_eq!(parse_pascal_short_string(&[]), "");
    let mut long = PcbWriter::default();
    long.write_pascal_short_string(&"x".repeat(300));
    assert_eq!(long.into_inner().len(), 256);
}

#[test]
fn the_first_block_holds_parameters() {
    let mut child = PcbWriter::default();
    child.write_cstring("|A=1|B=2|");
    let mut writer = PcbWriter::default();
    writer.write_block(0, child);
    writer.write_u32(99);
    let pairs = first_param_block_pairs(&writer.into_inner(), "test").unwrap();
    assert_eq!(param_value(&pairs, "B"), Some("2"));
    assert!(first_param_block_pairs(&[], "test").is_err());
}

#[test]
fn section_keys_are_plain_short_and_different() {
    assert_eq!(section_key_from_name(" a b/c\u{03A9}.1 "), "a_b_c_.1");
    assert_eq!(section_key_from_name(&"x".repeat(40)).len(), 31);
    let mut used = Vec::new();
    assert_eq!(unique_section_key("a b", &mut used), "a_b");
    assert_eq!(unique_section_key("a/b", &mut used), "a_b_2");
    assert_eq!(unique_section_key("a_b", &mut used), "a_b_3");
    let long = "y".repeat(31);
    assert_eq!(unique_section_key(&long, &mut used), long);
    assert_eq!(
        unique_section_key(&long, &mut used),
        format!("{}_2", "y".repeat(29))
    );
    let names = texts(&["a", "b c"]);
    let sections = collect_sections(&names);
    assert_eq!(sections, vec!["a", "b_c"]);
    assert_eq!(
        collect_section_key_pairs(&names, &sections),
        vec![("b c".to_string(), "b_c".to_string())]
    );
    let more = texts(&["b c", "d e", "f"]);
    assert_eq!(
        collect_section_key_pairs(&more, &texts(&["b_c"])),
        vec![("b c".to_string(), "b_c".to_string())]
    );
    assert_eq!(
        collect_section_key_pairs(&texts(&["b c"]), &texts(&["b_c", "d_e"])),
        vec![("b c".to_string(), "b_c".to_string())]
    );
    assert!(collect_section_key_pairs(&more, &Vec::new()).is_empty());
}

#[test]
fn sections_are_looked_for_under_several_keys() {
    assert_eq!(legacy_section_key_from_name("a b/c"), "a b_c");
    let candidates = section_key_candidates("a b", Some("KEY"), "a_b");
    assert_eq!(candidates[0], "KEY");
    assert!(candidates.contains(&"a_b".to_string()));
    assert!(candidates.contains(&"a b".to_string()));
    let mut keys = texts(&["x"]);
    push_unique_section_key(&mut keys, "x".to_string());
    push_unique_section_key(&mut keys, String::new());
    push_unique_section_key(&mut keys, "y".to_string());
    assert_eq!(keys, vec!["x", "y"]);
}

#[test]
fn parameter_blocks_are_read_back_pair_by_pair() {
    let mut params = SchParams::default();
    for (name, value) in [
        ("NAME", "A"),
        ("50%", "half"),
        ("%UTF8", "no mark"),
        ("x%UTF8%", "inside"),
        ("FORMULA", "a=b=c"),
        ("EMPTY", ""),
        ("NAME", "again"),
        ("", "no name"),
        ("EURO \u{20AC}", "\u{E9}"),
    ] {
        params.push(name, value);
    }
    let mut writer = SchWriter::default();
    writer.write_cstring_param_block(&params);
    let mut data = writer.into_inner();
    data.extend([1, 2, 3]);
    assert_eq!(first_param_block_pairs(&data, "test").unwrap(), params.0);
    assert_eq!(first_schlib_param_block_pairs(&data, "test").unwrap(), params.0);

    let mut writer = SchWriter::default();
    writer.write_cstring_param_block(&SchParams::default());
    let data = writer.into_inner();
    assert!(first_schlib_param_block_pairs(&data, "test").unwrap().is_empty());
}

#[test]
fn block_lists_are_read_back() {
    let lists: [&[(u8, &[u8])]; 3] = [
        &[],
        &[(0, b"")],
        &[(0, b"one"), (1, b""), (255, b"\0\0\0\0three")],
    ];
    for list in lists {
        let mut writer = SchWriter::default();
        for (flags, payload) in list {
            let mut child = SchWriter::default();
            for byte in *payload {
                child.write_u8(*byte);
            }
            writer.write_block(*flags, child);
        }
        let data = writer.into_inner();
        let blocks = parse_block_stream(&data, "test").unwrap();
        assert_eq!(blocks.len(), list.len());
        for (block, (flags, payload)) in blocks.iter().zip(list) {
            assert_eq!((block.flags, block.payload), (*flags, *payload));
        }
        for stray in 1..4 {
            let mut longer = data.clone();
            longer.extend(vec![0; stray]);
            match parse_block_stream(&longer, "test") {
                Err(AppError::InvalidResponse(text)) => {
                    assert_eq!(text, "truncated test block header")
                }
                other => panic!("expected an error, got {other:?}"),
            }
        }
    }
}

#[test]
fn days_succeed_each_other() {
    assert_eq!(civil_from_days(47_540), (2100, 2, 28));
    assert_eq!(civil_from_days(47_541), (2100, 3, 1));
    let months = [31, 28, 31, 30, 31, 30, 31, 31, 30, 31, 30, 31];
    for start in [-1_000_000_000_000i64, -720_000, -1_000, 10_000, 47_000, 1_000_000_000_000] {
        for day in start..start + 1_500 {
            let (y, m, d) = civil_from_days(day);
            let leap = y % 4 == 0 && (y % 100 != 0 || y % 400 == 0);
            let length = months[m as usize - 1] + i64::from(m == 2 && leap);
            let next = if d < length {
                (y, m, d + 1)
            } else if m < 12 {
                (y, m + 1, 1)
            } else {
                (y + 1, 1, 1)
            };
            assert_eq!(civil_from_days(day + 1), next);
        }
    }
}

#[test]
fn days_become_dates() {
    assert_eq!(civil_from_days(0), (1970, 1, 1));
    assert_eq!(civil_from_days(-1), (1969, 12, 31));
    assert_eq!(civil_from_days(19_782), (2024, 2, 29));
    assert_eq!(civil_from_days(11_016), (2000, 2, 29));
    assert_eq!(civil_from_days(-719_468), (0, 3, 1));
    assert_eq!(two_digit_text(7), "07");
    assert_eq!(two_digit_text(107), "107");
}

#[test]
fn moments_become_dates_and_times() {
    let (date, time) = current_library_date_time(19_782 * 86_400 + 13 * 3_600 + 5 * 60 + 9);
    assert_eq!((date.as_str(), time.as_str()), ("2/29/2024", "1:05:09 PM"));
    let (date, time) = current_library_date_time(0);
    assert_eq!((date.as_str(), time.as_str()), ("1/1/1970", "12:00:00 AM"));
    let (_, noon) = current_library_date_time(43_200);
    assert_eq!(noon, "12:00:00 PM");
}

#[test]
fn dates_follow_each_other() {
    let mut last = civil_from_days(-1_000);
    for day in -999..3_000 {
        let next = civil_from_days(day);
        assert!(next > last);
        assert!((1..=12).contains(&next.1) && (1..=31).contains(&next.2));
        last = next;
    }
    let year = |y: i64| (0..40_000).filter(|d| civil_from_days(*d).0 == y).count();
    assert_eq!((year(1999), year(2000), year(2001)), (365, 366, 365));
}
