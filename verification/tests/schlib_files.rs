use npnp::error::AppError;
use npnp::params::{param_value, parse_usize_param, SchParams};
use npnp::schlib::{
    captured_schlib_record, extract_lcsc_ids_from_schlib, extract_schlib_identity,
    matches_param_name, parse_schlib_record, read_schlib_records, schlib_file_header_bytes,
    schlib_has_room, schlib_section_keys_bytes, schlib_storage_bytes, write_schlib_records,
    SchlibRecord,
};
use npnp::wire::{first_schlib_param_block_pairs, parse_block_stream, read_block, SchWriter};
use std::io::{Cursor, Read, Write};

fn params(pairs: &[(&str, &str)]) -> SchParams {
    let mut params = SchParams::default();
    for (name, value) in pairs {
        params.push(name, value);
    }
    params
}

/// The data of a component: its own record, and one of a parameter.
fn component_data(name: &str, description: &str, id: &str) -> Vec<u8> {
    let mut writer = SchWriter::default();
    writer.write_cstring_param_block(&params(&[
        ("RECORD", "1"),
        ("LIBREFERENCE", name),
        ("COMPONENTDESCRIPTION", description),
        ("PARTCOUNT", "2"),
    ]));
    writer.write_cstring_param_block(&params(&[
        ("RECORD", "41"),
        ("NAME", "NPNP_COMPONENT_ID"),
        ("TEXT", id),
    ]));
    writer.into_inner()
}

fn record(name: &str, description: &str, id: &str) -> SchlibRecord {
    parse_schlib_record(name.to_string(), component_data(name, description, id)).unwrap()
}

fn stream_text(image: &[u8], path: &str) -> String {
    let mut compound = cfb::CompoundFile::open(Cursor::new(image.to_vec())).unwrap();
    let mut data = Vec::new();
    compound
        .open_stream(path)
        .unwrap()
        .read_to_end(&mut data)
        .unwrap();
    String::from_utf8_lossy(&data).into_owned()
}

fn put(compound: &mut cfb::CompoundFile<Cursor<Vec<u8>>>, path: &str, data: &[u8]) {
    let mut stream = compound.create_stream(path).unwrap();
    stream.write_all(data).unwrap();
}

#[test]
fn schlib_records_round_trip_component_identity() {
    let record_a = record("COMP_A", "Roundtrip component", "C2040");
    let record_b = record("COMP_B", "Roundtrip component", "C42");
    assert_eq!(record_a.identity.as_deref(), Some("C2040"));
    assert_eq!(record_b.identity.as_deref(), Some("C42"));

    let image = write_schlib_records(&[record_a, record_b]).expect("write merged SchLib");
    let records = read_schlib_records(&image).expect("read merged SchLib");
    assert_eq!(records.len(), 2);
    assert_eq!(records[0].name, "COMP_A");
    assert_eq!(records[0].identity.as_deref(), Some("C2040"));
    assert_eq!(records[1].name, "COMP_B");
    assert_eq!(records[1].identity.as_deref(), Some("C42"));
}

#[test]
fn schlib_records_round_trip_non_ascii_component_name() {
    let non_ascii_name = "SMD7525-32\u{03A9}";
    let record_a = record("COMP_A", "ASCII component", "C2040");
    let record_b = record(non_ascii_name, "Non ASCII component", "C50387083");
    assert_eq!(record_b.name, non_ascii_name);
    assert_eq!(record_b.identity.as_deref(), Some("C50387083"));

    let image = write_schlib_records(&[record_a, record_b]).expect("write merged SchLib");
    let records = read_schlib_records(&image).expect("read merged SchLib");
    assert_eq!(records.len(), 2);
    assert_eq!(records[0].name, "COMP_A");
    assert_eq!(records[0].identity.as_deref(), Some("C2040"));
    assert_eq!(records[1].name, non_ascii_name);
    assert_eq!(records[1].identity.as_deref(), Some("C50387083"));
}

#[test]
fn schlib_records_read_legacy_space_section_name_without_section_keys() {
    let name = "0.5-8P CTSJ-H2.0 119";
    let record = record(name, "Legacy space section", "C424242");
    let mut compound = cfb::CompoundFile::create(Cursor::new(Vec::new())).unwrap();
    let header = schlib_file_header_bytes(std::slice::from_ref(&record));
    put(&mut compound, "/FileHeader", &header);
    compound.create_storage(format!("/{name}/")).unwrap();
    put(&mut compound, &format!("/{name}/Data"), &record.data);
    put(&mut compound, "/Storage", &schlib_storage_bytes());
    compound.flush().unwrap();
    let image = compound.into_inner().into_inner();

    let records = read_schlib_records(&image).expect("read legacy SchLib");
    assert_eq!(records.len(), 1);
    assert_eq!(records[0].name, name);
    assert_eq!(records[0].identity.as_deref(), Some("C424242"));
}

#[test]
fn written_records_are_read_back_whole() {
    let written = vec![
        record("A", "first", "C1"),
        record("B", "second", "c2"),
        record("B.", "third", "C3"),
        record("A name that is longer than a section key may be", "fourth", "no id"),
    ];
    let image = write_schlib_records(&written).unwrap();
    let read = read_schlib_records(&image).unwrap();
    assert_eq!(read.len(), written.len());
    for (a, b) in read.iter().zip(&written) {
        assert_eq!(a.name, b.name);
        assert_eq!(a.description, b.description);
        assert_eq!(a.header_part_count, b.header_part_count);
        assert_eq!(a.weight, b.weight);
        assert_eq!(a.identity, b.identity);
        assert_eq!(a.data, b.data);
    }
}

#[test]
fn names_that_differ_in_case_alone_cannot_share_a_file() {
    let records = [record("A", "first", "C1"), record("a", "second", "C2")];
    assert!(matches!(
        write_schlib_records(&records),
        Err(AppError::Io(_))
    ));
}

#[test]
fn names_in_the_place_of_other_streams_cannot_be_written() {
    for name in ["FileHeader", "fileheader", "Storage", "STORAGE", ".", ".."] {
        assert!(matches!(
            write_schlib_records(&[record(name, "a part", "C1")]),
            Err(AppError::Io(_))
        ));
    }
    let one = [record("SectionKeys", "a part", "C1")];
    let image = write_schlib_records(&one).unwrap();
    assert_eq!(read_schlib_records(&image).unwrap()[0].name, "SectionKeys");
    let renamed = [record("SectionKeys", "a part", "C1"), record("B/C", "another", "C2")];
    assert!(matches!(
        write_schlib_records(&renamed),
        Err(AppError::Io(_))
    ));
}

#[test]
fn names_as_long_as_keys_may_be_are_written() {
    let long = "N".repeat(31);
    let longer = "N".repeat(32);
    let written = [record(&long, "first", "C1"), record(&longer, "second", "C2")];
    let read = read_schlib_records(&write_schlib_records(&written).unwrap()).unwrap();
    assert_eq!(read[0].name, long);
    assert_eq!(read[1].name, longer);
    assert_eq!(read[1].identity.as_deref(), Some("C2"));
}

#[test]
fn streams_of_every_size_are_read_back() {
    for len in [0usize, 1, 63, 64, 4095, 4096, 4097, 65535, 65536, 300_000] {
        let data: Vec<u8> = (0..len).map(|i| (i % 251) as u8).collect();
        let written = SchlibRecord {
            data: data.clone(),
            ..record("A", "a part", "C1")
        };
        let image = write_schlib_records(std::slice::from_ref(&written)).unwrap();
        let mut compound = cfb::CompoundFile::open_strict(Cursor::new(image)).unwrap();
        let mut read = Vec::new();
        compound
            .open_stream("/A/Data")
            .unwrap()
            .read_to_end(&mut read)
            .unwrap();
        assert_eq!(read, data);
    }
}

#[test]
fn ordinary_libraries_are_small_enough() {
    let light = record("A", "a part", "C1");
    assert!(schlib_has_room(&[]));
    assert!(schlib_has_room(std::slice::from_ref(&light)));
    let heavy = SchlibRecord {
        weight: usize::MAX,
        ..record("B", "a part", "C2")
    };
    assert!(!schlib_has_room(&[light, heavy]));
}

#[test]
fn the_header_lists_the_components() {
    let long = "L".repeat(300);
    let records = [
        record("A", "first \u{03A9}", "C1"),
        SchlibRecord {
            header_part_count: 7,
            weight: 40,
            ..record(&long, "second", "C2")
        },
    ];
    let header = schlib_file_header_bytes(&records);
    let pairs = first_schlib_param_block_pairs(&header, "SchLib file header").unwrap();
    let value = |key: &str| {
        pairs
            .iter()
            .rev()
            .find(|(name, _)| name.eq_ignore_ascii_case(key))
            .map(|(_, value)| value.as_str())
    };
    assert_eq!(value("COMPCOUNT"), Some("2"));
    assert_eq!(value("WEIGHT"), Some("42"));
    assert_eq!(value("LIBREF0"), Some("A"));
    assert_eq!(value("COMPDESCR0"), Some("first \u{03A9}"));
    assert_eq!(value("PARTCOUNT0"), Some("2"));
    assert_eq!(value("LIBREF1"), Some(long.as_str()));
    assert_eq!(value("COMPDESCR1"), Some("second"));
    assert_eq!(value("PARTCOUNT1"), Some("7"));

    let mut at = 0;
    read_block(&header, &mut at, "SchLib file header").unwrap();
    assert_eq!(header[at..at + 4], [2, 0, 0, 0]);
    let blocks = parse_block_stream(&header[at + 4..], "SchLib names").unwrap();
    assert_eq!(blocks.len(), 2);
    assert_eq!((blocks[0].flags, blocks[0].payload), (0, &[1, b'A'][..]));
    assert_eq!(blocks[1].flags, 0);
    assert_eq!(blocks[1].payload[0], 255);
    assert_eq!(blocks[1].payload[1..], long.as_bytes()[..255]);
}

#[test]
fn the_header_lists_repeated_names() {
    let records = [record("A", "first", "C1"), record("A", "second", "C2")];
    let header = schlib_file_header_bytes(&records);
    let pairs = first_schlib_param_block_pairs(&header, "SchLib file header").unwrap();
    assert_eq!(param_value(&pairs, "COMPCOUNT"), Some("2"));
    assert_eq!(param_value(&pairs, "LIBREF0"), Some("A"));
    assert_eq!(param_value(&pairs, "LIBREF1"), Some("A"));
    assert_eq!(param_value(&pairs, "COMPDESCR0"), Some("first"));
    assert_eq!(param_value(&pairs, "COMPDESCR1"), Some("second"));
}

#[test]
fn section_keys_are_read_back() {
    let pair = |a: &str, b: &str| (a.to_string(), b.to_string());
    for pairs in [
        vec![],
        vec![pair("A/B", "A_B"), pair("A/B", "A_B"), pair("", "=")],
    ] {
        let data = schlib_section_keys_bytes(&pairs);
        let read = first_schlib_param_block_pairs(&data, "SchLib section keys").unwrap();
        assert_eq!(read.len(), 1 + 2 * pairs.len());
        assert_eq!(parse_usize_param(&read, "KeyCount"), Some(pairs.len()));
        for (i, (name, key)) in pairs.iter().enumerate() {
            assert_eq!(param_value(&read, &format!("LibRef{i}")), Some(name.as_str()));
            assert_eq!(param_value(&read, &format!("SectionKey{i}")), Some(key.as_str()));
        }
    }
    let data = schlib_section_keys_bytes(&[pair("32\u{3a9}", "32_")]);
    let read = first_schlib_param_block_pairs(&data, "SchLib section keys").unwrap();
    assert_eq!(param_value(&read, "LibRef0"), Some("32\u{3a9}"));
}

#[test]
fn a_description_with_nul_hides_no_component() {
    let records = [
        SchlibRecord {
            description: "odd\0COMPCOUNT=9\u{03A9}".to_string(),
            ..record("A", "a part", "C1")
        },
        record("B", "a part", "C2"),
    ];
    let image = write_schlib_records(&records).unwrap();
    let read = read_schlib_records(&image).unwrap();
    assert_eq!(read.len(), 2);
    assert_eq!(read[1].name, "B");
}

#[test]
fn records_tell_what_their_data_says() {
    let record = record("A", "a part", " c77 ");
    assert_eq!(record.description, "a part");
    assert_eq!(record.header_part_count, 2);
    assert_eq!(record.weight, 2);
    assert_eq!(record.identity.as_deref(), Some("C77"));
    let bare = parse_schlib_record("B".to_string(), Vec::new()).unwrap();
    assert_eq!((bare.weight, bare.header_part_count), (0, 2));
    assert_eq!(bare.identity, None);
}

#[test]
fn torn_data_is_refused() {
    let mut data = component_data("A", "a part", "C1");
    data.pop();
    assert!(matches!(
        parse_schlib_record("A".to_string(), data),
        Err(AppError::InvalidResponse(_))
    ));
}

#[test]
fn streams_lie_where_they_are_looked_for() {
    let image = write_schlib_records(&[record("REGRESSION_QFN", "a part", "C1")]).unwrap();
    assert!(stream_text(&image, "/FileHeader").contains("|LIBREF0=REGRESSION_QFN|"));
    assert!(stream_text(&image, "/Storage").contains("|HEADER=Icon storage"));
    assert!(
        stream_text(&image, "/REGRESSION_QFN/Data").contains("|LIBREFERENCE=REGRESSION_QFN|")
    );
}

#[test]
fn renamed_sections_are_listed() {
    let image = write_schlib_records(&[record("A/B", "a part", "C1")]).unwrap();
    let keys = stream_text(&image, "/SectionKeys");
    assert!(keys.contains("|KeyCount=1|"));
    assert!(keys.contains("|LibRef0=A/B|"));
    assert_eq!(read_schlib_records(&image).unwrap()[0].name, "A/B");
}

#[test]
fn a_library_needs_records() {
    match write_schlib_records(&[]) {
        Err(AppError::Other(text)) => assert_eq!(text, "cannot write empty SchLib library"),
        _ => panic!("expected an error"),
    }
}

#[test]
fn other_files_are_refused() {
    assert!(matches!(
        read_schlib_records(b"not a compound file"),
        Err(AppError::Io(_))
    ));
    let mut compound = cfb::CompoundFile::create(Cursor::new(Vec::new())).unwrap();
    compound.flush().unwrap();
    let image = compound.into_inner().into_inner();
    assert!(matches!(read_schlib_records(&image), Err(AppError::Io(_))));
}

#[test]
fn a_listed_component_must_have_its_section() {
    let record = record("A B", "a part", "C1");
    let mut compound = cfb::CompoundFile::create(Cursor::new(Vec::new())).unwrap();
    let header = schlib_file_header_bytes(std::slice::from_ref(&record));
    put(&mut compound, "/FileHeader", &header);
    compound.flush().unwrap();
    let image = compound.into_inner().into_inner();
    match read_schlib_records(&image) {
        Err(AppError::Other(text)) => assert_eq!(
            text,
            "component \"A B\" has no Data stream; tried /A_B/Data, /A B/Data"
        ),
        other => panic!("expected an error, got {other:?}"),
    }
}

#[test]
fn a_record_is_captured_from_its_own_library() {
    let image = write_schlib_records(&[record("A", "a part", "C1")]).unwrap();
    assert_eq!(captured_schlib_record(&image).unwrap().name, "A");
    let mut header = SchWriter::default();
    header.write_cstring_param_block(&params(&[("COMPCOUNT", "0")]));
    let mut compound = cfb::CompoundFile::create(Cursor::new(Vec::new())).unwrap();
    put(&mut compound, "/FileHeader", &header.into_inner());
    compound.flush().unwrap();
    let empty = compound.into_inner().into_inner();
    match captured_schlib_record(&empty) {
        Err(AppError::Other(text)) => {
            assert_eq!(text, "failed to capture temporary SchLib component")
        }
        other => panic!("expected an error, got {other:?}"),
    }
}

#[test]
fn part_numbers_are_extracted_once() {
    let image = write_schlib_records(&[
        record("A", "a", "C2"),
        record("B", "b", "C1"),
        record("D", "d", "none"),
        record("C", "c", "c2"),
    ])
    .unwrap();
    assert_eq!(
        extract_lcsc_ids_from_schlib(&image).unwrap(),
        vec!["C2", "C1"]
    );
}

#[test]
fn a_refreshed_library_asks_for_what_it_carries() {
    let image = write_schlib_records(&[
        record("A", "a", "C2"),
        record("B", "b", "C12"),
        record("C", "c", "C2"),
    ])
    .unwrap();
    let ids = extract_lcsc_ids_from_schlib(&image).unwrap();
    let input = npnp::cli::refresh_input(&ids);
    assert_eq!(npnp::batch::parse_lcsc_ids(&input), ids);
}

#[test]
fn identities_come_from_known_parameters() {
    for name in ["NPNP_Component_ID", " supplier part ", "LCSC ID", "Supplier Part Number"] {
        assert!(matches_param_name(name));
    }
    assert!(!matches_param_name("Comment"));
    let pairs = vec![
        ("NAME".to_string(), "LCSC ID".to_string()),
        ("TEXT".to_string(), "c9".to_string()),
    ];
    assert_eq!(extract_schlib_identity(&pairs).as_deref(), Some("C9"));
    assert_eq!(extract_schlib_identity(&pairs[..1]), None);
}
