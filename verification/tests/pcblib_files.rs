use npnp::error::AppError;
use npnp::pcb_records::{
    pcblib_has_room, pcblib_library_data_params, read_pcblib_records, storage_header_bytes,
    write_pcblib_records,
    PcblibComponentRecord, PcblibModelRecord, PcblibRecordLibrary,
};
use npnp::wire::PcbWriter;
use std::io::{Cursor, Read};

fn component(name: &str, count: i32) -> PcblibComponentRecord {
    let mut child = PcbWriter::default();
    child.write_cstring("|PATTERN=X|");
    let mut parameters = PcbWriter::default();
    parameters.write_block(0, child);
    PcblibComponentRecord {
        name: name.to_string(),
        primitive_count: count,
        parameters: parameters.into_inner(),
        wide_strings: vec![1, 2, 3],
        data: vec![4, 5, 6, 7],
        unique_id_primitive_information: Vec::new(),
    }
}

fn model(entry: &[u8], stream: &[u8]) -> PcblibModelRecord {
    PcblibModelRecord {
        entry: entry.to_vec(),
        stream: stream.to_vec(),
    }
}

fn stream(image: &[u8], path: &str) -> Vec<u8> {
    let mut compound = cfb::CompoundFile::open(Cursor::new(image.to_vec())).unwrap();
    let mut data = Vec::new();
    compound
        .open_stream(path)
        .unwrap()
        .read_to_end(&mut data)
        .unwrap();
    data
}

#[test]
fn pcblib_records_round_trip_component_streams() {
    let records = PcblibRecordLibrary {
        components: vec![component("ROUNDTRIP_FOOTPRINT", 3)],
        models: vec![model(b"|ID=1|", b"step")],
    };
    let image = write_pcblib_records(&records, "|KIND=Library|").expect("write merged PcbLib");
    let round_trip = read_pcblib_records(&image).expect("read merged PcbLib");
    assert_eq!(round_trip.components.len(), 1);
    assert_eq!(round_trip.components[0].name, "ROUNDTRIP_FOOTPRINT");
    assert_eq!(round_trip.models.len(), 1);
}

#[test]
fn written_footprints_are_read_back_whole() {
    let mut second = component("name with spaces/and a slash", -1);
    second.unique_id_primitive_information = vec![9, 9];
    let written = PcblibRecordLibrary {
        components: vec![
            component("QFN", 7),
            second,
            component("A footprint whose name is longer than a section key may be", 0),
        ],
        models: vec![model(b"one", b"first step"), model(b"two", b"")],
    };
    let image = write_pcblib_records(&written, "|A=1|").unwrap();
    let read = read_pcblib_records(&image).unwrap();
    assert_eq!(read.components.len(), 3);
    for (a, b) in read.components.iter().zip(&written.components) {
        assert_eq!(a.name, b.name);
        assert_eq!(a.primitive_count, b.primitive_count);
        assert_eq!(a.parameters, b.parameters);
        assert_eq!(a.wide_strings, b.wide_strings);
        assert_eq!(a.data, b.data);
        assert_eq!(
            a.unique_id_primitive_information,
            b.unique_id_primitive_information
        );
    }
    assert_eq!(read.models.len(), 2);
    for (a, b) in read.models.iter().zip(&written.models) {
        assert_eq!(a.entry, b.entry);
        assert_eq!(a.stream, b.stream);
    }
}

#[test]
fn footprint_streams_lie_where_they_are_looked_for() {
    let library = PcblibRecordLibrary {
        components: vec![component("REGRESSION_QFN", 3)],
        models: vec![model(b"one", b"step")],
    };
    let image = write_pcblib_records(&library, "|A=1|").unwrap();
    assert!(!stream(&image, "/FileHeader").is_empty());
    assert!(String::from_utf8_lossy(&stream(&image, "/Library/Data")).contains("|A=1|"));
    assert_eq!(stream(&image, "/REGRESSION_QFN/Data"), vec![4, 5, 6, 7]);
    assert_eq!(
        stream(&image, "/REGRESSION_QFN/Header"),
        storage_header_bytes(3)
    );
    assert_eq!(stream(&image, "/Library/Models/0"), b"step".to_vec());
}

fn library(names: &[&str]) -> PcblibRecordLibrary {
    PcblibRecordLibrary {
        components: names.iter().map(|name| component(name, 1)).collect(),
        models: Vec::new(),
    }
}

#[test]
fn footprints_in_the_place_of_other_entries_cannot_be_written() {
    for names in [
        &["FileHeader"][..],
        &["LIBRARY"],
        &["."],
        &[".."],
        &["qfn", "QFN"],
        &["SectionKeys", "A/B"],
    ] {
        let library = library(names);
        assert!(pcblib_has_room(&library, ""));
        assert!(matches!(
            write_pcblib_records(&library, ""),
            Err(AppError::Io(_))
        ));
    }
    let image = write_pcblib_records(&library(&["SectionKeys", "Storage"]), "").unwrap();
    let read = read_pcblib_records(&image).unwrap();
    assert_eq!(read.components[0].name, "SectionKeys");
    assert_eq!(read.components[1].name, "Storage");
}

#[test]
fn models_are_numbered_in_order() {
    let library = PcblibRecordLibrary {
        components: vec![component("A", 1)],
        models: (0..12u8).map(|i| model(&[i], &vec![i; 5000])).collect(),
    };
    assert!(pcblib_has_room(&library, "|A=1|"));
    let image = write_pcblib_records(&library, "|A=1|").unwrap();
    for i in 0..12u8 {
        assert_eq!(stream(&image, &format!("/Library/Models/{i}")), vec![i; 5000]);
    }
    cfb::CompoundFile::open_strict(Cursor::new(image)).unwrap();
}

#[test]
fn a_library_without_footprints_is_written() {
    let image = write_pcblib_records(&PcblibRecordLibrary::default(), "").unwrap();
    assert!(read_pcblib_records(&image).unwrap().components.is_empty());
}

#[test]
fn other_files_are_no_footprint_libraries() {
    assert!(matches!(
        read_pcblib_records(b"not a compound file"),
        Err(AppError::Io(_))
    ));
    let mut compound = cfb::CompoundFile::create(Cursor::new(Vec::new())).unwrap();
    compound.flush().unwrap();
    let image = compound.into_inner().into_inner();
    assert!(matches!(read_pcblib_records(&image), Err(AppError::Io(_))));
}

#[test]
fn library_params_are_filled_in() {
    let text = pcblib_library_data_params(
        "|FILENAME=__FILE__|DATE=__DATE__|TIME=__TIME__|",
        "/tmp/out/Mine.PcbLib",
        "2024/2/29",
        "1:02:03 PM",
    );
    assert!(text.contains("\\tmp\\out\\Mine.PcbLib"), "{text}");
    assert!(text.contains("2024/2/29"), "{text}");
    assert!(text.contains("1:02:03 PM"), "{text}");
}
