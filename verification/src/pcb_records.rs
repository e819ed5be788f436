//! Footprint libraries as records: the streams of their components and models,
//! read from and written to compound files.

use vstd::prelude::*;
use crate::compound::{
    add_storage, add_stream, child_path, compound_streams, finish_tree, holds_tree, image_streams,
    is_free, is_plain_name, is_plain_path, is_rooted, keys_fit, lemma_depths_differ,
    lemma_fit_root, lemma_long_name_plain, lemma_places_differ_at, lemma_plain_child,
    lemma_plain_fits, lemma_plain_name_slash_free, lemma_plain_root, lemma_root_pieces,
    lemma_same_root, lemma_same_section, lemma_tree_read, open_compound, read_stream_bytes,
    root_path, root_path_text, same_place, start_tree, storage_in, stream_at, stream_in, Compound,
    Streams, Tree, CONTENT_LIMIT, ENTRY_COST,
};
use crate::error::{invalid_response, AppError, Failure};
use crate::params::{pair_views, Pair};
use crate::schlib::{indexed, indexed_word, name_blocks};
use crate::sections::{
    collect_section_key_pairs, collect_sections, explicit_key, is_key, key_for,
    law_section_key_lengths, lemma_section_keys_len, lemma_short_decimal, push_key, renamed_keys,
    resolve_section_key, section_keys, section_path, section_result, section_stream_path, with_key,
};
use crate::text::{
    decimal, is_digit, lemma_decimal, lemma_decimal_injective, replace_char, replace_text, replaced,
    text_of, chars_of, text_starts_with, upper_text, views, with_char,
};
use crate::wire::{
    ansi, block_bytes, block_result, first_pairs_result, first_param_block_pairs, le_bytes,
    le_value, parse_pascal_short_string, read_block, short_string, short_string_text, u32_at,
    PcbWriter,
};

verus! {

/// A component of a footprint library.
#[derive(Debug, Clone)]
pub struct PcblibComponentRecord {
    pub name: String,
    pub primitive_count: i32,
    pub parameters: Vec<u8>,
    pub wide_strings: Vec<u8>,
    pub data: Vec<u8>,
    pub unique_id_primitive_information: Vec<u8>,
}

/// A three-dimensional model of a footprint library.
#[derive(Debug, Clone)]
pub struct PcblibModelRecord {
    pub entry: Vec<u8>,
    pub stream: Vec<u8>,
}

/// The components and models of a footprint library.
#[derive(Debug, Clone)]
pub struct PcblibRecordLibrary {
    pub components: Vec<PcblibComponentRecord>,
    pub models: Vec<PcblibModelRecord>,
}

impl Default for PcblibRecordLibrary {
    fn default() -> (r: Self)
        ensures
            r.components@ == Seq::<PcblibComponentRecord>::empty(),
            r.models@ == Seq::<PcblibModelRecord>::empty(),
    {
        PcblibRecordLibrary { components: Vec::new(), models: Vec::new() }
    }
}

/// What a [`PcblibComponentRecord`] holds.
#[verifier::ext_equal]
pub struct FootprintModel {
    pub name: Seq<char>,
    pub primitive_count: i32,
    pub parameters: Seq<u8>,
    pub wide_strings: Seq<u8>,
    pub data: Seq<u8>,
    pub unique_id_primitive_information: Seq<u8>,
}

/// What a [`PcblibModelRecord`] holds.
#[verifier::ext_equal]
pub struct StepModel {
    pub entry: Seq<u8>,
    pub stream: Seq<u8>,
}

/// What a [`PcblibRecordLibrary`] holds.
#[verifier::ext_equal]
pub struct PcblibModel {
    pub components: Seq<FootprintModel>,
    pub models: Seq<StepModel>,
}

impl View for PcblibComponentRecord {
    type V = FootprintModel;

    open spec fn view(&self) -> FootprintModel {
        FootprintModel {
            name: self.name@,
            primitive_count: self.primitive_count,
            parameters: self.parameters@,
            wide_strings: self.wide_strings@,
            data: self.data@,
            unique_id_primitive_information: self.unique_id_primitive_information@,
        }
    }
}

impl View for PcblibModelRecord {
    type V = StepModel;

    open spec fn view(&self) -> StepModel {
        StepModel { entry: self.entry@, stream: self.stream@ }
    }
}

/// The views of a sequence of components.
pub open spec fn footprints(records: Seq<PcblibComponentRecord>) -> Seq<FootprintModel> {
    records.map_values(|record: PcblibComponentRecord| record@)
}

/// The views of a sequence of models.
pub open spec fn step_models(records: Seq<PcblibModelRecord>) -> Seq<StepModel> {
    records.map_values(|record: PcblibModelRecord| record@)
}

impl View for PcblibRecordLibrary {
    type V = PcblibModel;

    open spec fn view(&self) -> PcblibModel {
        PcblibModel {
            components: footprints(self.components@),
            models: step_models(self.models@),
        }
    }
}

/// The names of a sequence of components.
pub open spec fn footprint_names(components: Seq<FootprintModel>) -> Seq<Seq<char>> {
    components.map_values(|component: FootprintModel| component.name)
}

// Reading a library

/// `n` names read block by block from `at` on, behind those in `names`.
pub open spec fn names_from(data: Seq<u8>, at: int, n: nat, names: Seq<Seq<char>>) -> Result<
    Seq<Seq<char>>,
    Failure,
>
    decreases n,
{
    if n == 0 {
        Ok(names)
    } else {
        match block_result(data, at, "PcbLib component name"@) {
            Ok(block) => names_from(
                data,
                block.next,
                (n - 1) as nat,
                names.push(short_string_text(block.payload)),
            ),
            Err(failure) => Err(failure),
        }
    }
}

/// What reading the component names from the library data stream comes to: a
/// block of parameters, the number of names, and the names.
pub open spec fn component_names_result(data: Seq<u8>) -> Result<Seq<Seq<char>>, Failure> {
    match block_result(data, 0, "PcbLib library data params"@) {
        Ok(block) => if block.next + 4 > data.len() {
            Err(Failure::InvalidResponse("invalid PcbLib library data stream"@))
        } else {
            names_from(data, block.next + 4, le_value(data, block.next) as nat, Seq::empty())
        },
        Err(failure) => Err(failure),
    }
}

fn parse_component_names(data: &[u8]) -> (r: Result<Vec<String>, AppError>)
    ensures
        match r {
            Ok(names) => component_names_result(data@) == Ok::<Seq<Seq<char>>, Failure>(
                views(names@),
            ),
            Err(e) => component_names_result(data@) == Err::<Seq<Seq<char>>, Failure>(
                e.failure(),
            ),
        },
{
    let mut offset: usize = 0;
    if let Err(e) = read_block(data, &mut offset, "PcbLib library data params") {
        return Err(e);
    }
    if data.len() - offset < 4 {
        return Err(invalid_response("invalid PcbLib library data stream"));
    }
    let count: u32 = u32_at(data, offset);
    offset += 4;
    let mut names: Vec<String> = Vec::new();
    let mut i: u32 = 0;
    assert(views(names@) =~= Seq::<Seq<char>>::empty());
    while i < count
        invariant
            i <= count,
            component_names_result(data@) == names_from(
                data@,
                offset as int,
                (count - i) as nat,
                views(names@),
            ),
        decreases count - i,
    {
        let ghost before = views(names@);
        match read_block(data, &mut offset, "PcbLib component name") {
            Ok(block) => {
                let name = parse_pascal_short_string(block.payload);
                names.push(name);
                assert(views(names@) =~= before.push(name@));
            },
            Err(e) => {
                return Err(e);
            },
        }
        i += 1;
    }
    Ok(names)
}

/// What reading the component names comes to.
pub open spec fn pcblib_names_result(streams: Streams) -> Result<Seq<Seq<char>>, Failure> {
    match stream_at(streams, "/Library/Data"@) {
        Some(data) => component_names_result(data),
        None => Err(Failure::Io),
    }
}

pub(crate) fn read_pcblib_component_names(compound: &mut Compound) -> (r: Result<
    Vec<String>,
    AppError,
>)
    ensures
        compound_streams(*final(compound)) == compound_streams(*old(compound)),
        match r {
            Ok(names) => pcblib_names_result(compound_streams(*old(compound))) == Ok::<
                Seq<Seq<char>>,
                Failure,
            >(views(names@)),
            Err(e) => pcblib_names_result(compound_streams(*old(compound))) == Err::<
                Seq<Seq<char>>,
                Failure,
            >(e.failure()),
        },
{
    match read_stream_bytes(compound, "/Library/Data") {
        Ok(data) => parse_component_names(data.as_slice()),
        Err(e) => Err(e),
    }
}

/// `n` names with their section keys read block by block from `at` on, behind `keys`.
pub open spec fn keys_from(data: Seq<u8>, at: int, n: nat, keys: Seq<Pair>) -> Result<
    Seq<Pair>,
    Failure,
>
    decreases n,
{
    if n == 0 {
        Ok(keys)
    } else {
        match block_result(data, at, "PcbLib section key name"@) {
            Ok(name) => match block_result(data, name.next, "PcbLib section key value"@) {
                Ok(key) => keys_from(
                    data,
                    key.next,
                    (n - 1) as nat,
                    with_key(
                        keys,
                        short_string_text(name.payload),
                        short_string_text(key.payload),
                    ),
                ),
                Err(failure) => Err(failure),
            },
            Err(failure) => Err(failure),
        }
    }
}

/// A count that may be given as a negative number, which then means none.
pub open spec fn count_of(value: i32) -> nat {
    if value > 0 {
        value as nat
    } else {
        0
    }
}

/// What reading the section key stream of a footprint library comes to.
pub open spec fn section_stream_result(data: Seq<u8>) -> Result<Seq<Pair>, Failure> {
    if data.len() < 4 {
        Err(Failure::InvalidResponse("invalid PcbLib section keys stream"@))
    } else {
        keys_from(data, 4, count_of(le_value(data, 0) as i32), Seq::empty())
    }
}

fn parse_section_stream(data: &[u8]) -> (r: Result<Vec<(String, String)>, AppError>)
    ensures
        match r {
            Ok(keys) => section_stream_result(data@) == Ok::<Seq<Pair>, Failure>(
                pair_views(keys@),
            ),
            Err(e) => section_stream_result(data@) == Err::<Seq<Pair>, Failure>(e.failure()),
        },
{
    if data.len() < 4 {
        return Err(invalid_response("invalid PcbLib section keys stream"));
    }
    let count: i32 = u32_at(data, 0) as i32;
    let mut offset: usize = 4;
    let mut keys: Vec<(String, String)> = Vec::new();
    let mut i: i32 = 0;
    assert(pair_views(keys@) =~= Seq::<Pair>::empty());
    while i < count
        invariant
            0 <= i,
            i <= count || i == 0,
            section_stream_result(data@) == keys_from(
                data@,
                offset as int,
                count_of((count - i) as i32),
                pair_views(keys@),
            ),
        decreases count - i,
    {
        let name = match read_block(data, &mut offset, "PcbLib section key name") {
            Ok(block) => parse_pascal_short_string(block.payload),
            Err(e) => {
                return Err(e);
            },
        };
        let key = match read_block(data, &mut offset, "PcbLib section key value") {
            Ok(block) => parse_pascal_short_string(block.payload),
            Err(e) => {
                return Err(e);
            },
        };
        push_key(&mut keys, name, key);
        i += 1;
    }
    Ok(keys)
}

/// What reading the section keys of a footprint library comes to.
pub open spec fn pcblib_keys_result(streams: Streams) -> Result<Seq<Pair>, Failure> {
    match stream_at(streams, "/SectionKeys"@) {
        Some(data) => section_stream_result(data),
        None => Ok(Seq::empty()),
    }
}

pub(crate) fn read_pcblib_section_keys(compound: &mut Compound) -> (r: Result<
    Vec<(String, String)>,
    AppError,
>)
    ensures
        compound_streams(*final(compound)) == compound_streams(*old(compound)),
        match r {
            Ok(keys) => pcblib_keys_result(compound_streams(*old(compound))) == Ok::<
                Seq<Pair>,
                Failure,
            >(pair_views(keys@)),
            Err(e) => pcblib_keys_result(compound_streams(*old(compound))) == Err::<
                Seq<Pair>,
                Failure,
            >(e.failure()),
        },
{
    match read_stream_bytes(compound, "/SectionKeys") {
        Ok(data) => parse_section_stream(data.as_slice()),
        Err(_) => {
            let keys: Vec<(String, String)> = Vec::new();
            assert(pair_views(keys@) =~= Seq::<Pair>::empty());
            Ok(keys)
        },
    }
}

/// The section keys that a footprint library gives, none where they cannot be read.
pub open spec fn pcblib_keys(streams: Streams) -> Seq<Pair> {
    match pcblib_keys_result(streams) {
        Ok(keys) => keys,
        Err(_) => Seq::empty(),
    }
}

/// What reading a stream that opens with a count comes to.
pub open spec fn storage_header_result(
    streams: Streams,
    path: Seq<char>,
    label: Seq<char>,
) -> Result<i32, Failure> {
    match stream_at(streams, path) {
        Some(data) => if data.len() < 4 {
            Err(Failure::InvalidResponse("invalid "@ + label + " stream"@))
        } else {
            Ok(le_value(data, 0) as i32)
        },
        None => Err(Failure::Io),
    }
}

pub(crate) fn read_storage_header(compound: &mut Compound, path: &str, label: &str) -> (r: Result<
    i32,
    AppError,
>)
    ensures
        compound_streams(*final(compound)) == compound_streams(*old(compound)),
        match r {
            Ok(count) => storage_header_result(compound_streams(*old(compound)), path@, label@)
                == Ok::<i32, Failure>(count),
            Err(e) => storage_header_result(compound_streams(*old(compound)), path@, label@)
                == Err::<i32, Failure>(e.failure()),
        },
{
    match read_stream_bytes(compound, path) {
        Ok(data) => {
            if data.len() < 4 {
                let mut message = "invalid ".to_owned();
                message.append(label);
                message.append(" stream");
                Err(AppError::InvalidResponse(message))
            } else {
                Ok(u32_at(data.as_slice(), 0) as i32)
            }
        },
        Err(e) => Err(e),
    }
}

/// The path of the stream with the number `index` among the models.
pub open spec fn model_path(index: nat) -> Seq<char> {
    indexed("/Library/Models/"@, index)
}

/// `n` model entries read from `at` on, each with the stream that goes with it,
/// behind those in `models`.
pub open spec fn models_from(
    streams: Streams,
    data: Seq<u8>,
    at: int,
    n: nat,
    models: Seq<StepModel>,
) -> Result<Seq<StepModel>, Failure>
    decreases n,
{
    if n == 0 {
        Ok(models)
    } else if at + 4 > data.len() {
        Err(Failure::InvalidResponse("invalid PcbLib models data stream"@))
    } else {
        let len = le_value(data, at) as i32;
        if len < 0 {
            Err(Failure::InvalidResponse("invalid negative PcbLib model record length"@))
        } else if at + 4 + len > data.len() {
            Err(Failure::InvalidResponse("truncated PcbLib model record"@))
        } else {
            match stream_at(streams, model_path(models.len())) {
                Some(stream) => models_from(
                    streams,
                    data,
                    at + 4 + len,
                    (n - 1) as nat,
                    models.push(
                        StepModel { entry: data.subrange(at + 4, at + 4 + len), stream },
                    ),
                ),
                None => Err(Failure::Io),
            }
        }
    }
}

/// What reading `n` model entries comes to.
pub open spec fn model_entries_result(streams: Streams, n: nat) -> Result<
    Seq<StepModel>,
    Failure,
> {
    match stream_at(streams, "/Library/Models/Data"@) {
        Some(data) => models_from(streams, data, 0, n, Seq::empty()),
        None => Err(Failure::Io),
    }
}

pub(crate) fn read_pcblib_model_entries(compound: &mut Compound, count: usize) -> (r: Result<
    Vec<PcblibModelRecord>,
    AppError,
>)
    ensures
        compound_streams(*final(compound)) == compound_streams(*old(compound)),
        match r {
            Ok(models) => model_entries_result(compound_streams(*old(compound)), count as nat)
                == Ok::<Seq<StepModel>, Failure>(step_models(models@)),
            Err(e) => model_entries_result(compound_streams(*old(compound)), count as nat) == Err::<
                Seq<StepModel>,
                Failure,
            >(e.failure()),
        },
{
    let ghost streams = compound_streams(*compound);
    let data = match read_stream_bytes(compound, "/Library/Models/Data") {
        Ok(data) => data,
        Err(e) => {
            return Err(e);
        },
    };
    let mut offset: usize = 0;
    let mut models: Vec<PcblibModelRecord> = Vec::new();
    let mut index: usize = 0;
    assert(step_models(models@) =~= Seq::<StepModel>::empty());
    while index < count
        invariant
            index <= count,
            index == models@.len(),
            offset <= data@.len(),
            streams == compound_streams(*old(compound)),
            compound_streams(*compound) == streams,
            model_entries_result(streams, count as nat) == models_from(
                streams,
                data@,
                offset as int,
                (count - index) as nat,
                step_models(models@),
            ),
        decreases count - index,
    {
        if data.len() - offset < 4 {
            return Err(invalid_response("invalid PcbLib models data stream"));
        }
        let len: i32 = u32_at(data.as_slice(), offset) as i32;
        if len < 0 {
            return Err(invalid_response("invalid negative PcbLib model record length"));
        }
        let len: usize = len as usize;
        if data.len() - offset - 4 < len {
            return Err(invalid_response("truncated PcbLib model record"));
        }
        let entry = vstd::slice::slice_to_vec(
            vstd::slice::slice_subrange(data.as_slice(), offset + 4, offset + 4 + len),
        );
        let path = indexed_word("/Library/Models/", index);
        let stream = match read_stream_bytes(compound, path.as_str()) {
            Ok(stream) => stream,
            Err(e) => {
                return Err(e);
            },
        };
        let ghost before = step_models(models@);
        let record = PcblibModelRecord { entry, stream };
        models.push(record);
        assert(step_models(models@) =~= before.push(record@));
        offset = offset + 4 + len;
        index += 1;
    }
    Ok(models)
}

/// What reading the streams of the component `name` in the section `key` comes to.
pub open spec fn section_component_result(
    streams: Streams,
    name: Seq<char>,
    key: Seq<char>,
) -> Result<FootprintModel, Failure> {
    let header = storage_header_result(
        streams,
        section_path(key, "Header"@),
        "PcbLib component header"@,
    );
    match header {
        Ok(primitive_count) => match (
            stream_at(streams, section_path(key, "Parameters"@)),
            stream_at(streams, section_path(key, "WideStrings"@)),
            stream_at(streams, section_path(key, "Data"@)),
            stream_at(streams, section_path(key, "UniqueIdPrimitiveInformation/Data"@)),
        ) {
            (
                Some(parameters),
                Some(wide_strings),
                Some(data),
                Some(unique_id_primitive_information),
            ) => match first_pairs_result(parameters, "PcbLib parameters"@) {
                Ok(_) => Ok(
                    FootprintModel {
                        name,
                        primitive_count,
                        parameters,
                        wide_strings,
                        data,
                        unique_id_primitive_information,
                    },
                ),
                Err(failure) => Err(failure),
            },
            _ => Err(Failure::Io),
        },
        Err(failure) => Err(failure),
    }
}

fn read_section_component(compound: &mut Compound, name: String, key: &str) -> (r: Result<
    PcblibComponentRecord,
    AppError,
>)
    ensures
        compound_streams(*final(compound)) == compound_streams(*old(compound)),
        match r {
            Ok(record) => section_component_result(compound_streams(*old(compound)), name@, key@)
                == Ok::<FootprintModel, Failure>(record@),
            Err(e) => section_component_result(compound_streams(*old(compound)), name@, key@)
                == Err::<FootprintModel, Failure>(e.failure()),
        },
{
    let path = section_stream_path(key, "Header");
    let primitive_count: i32 = match read_storage_header(
        compound,
        path.as_str(),
        "PcbLib component header",
    ) {
        Ok(count) => count,
        Err(e) => {
            return Err(e);
        },
    };
    let path = section_stream_path(key, "Parameters");
    let parameters = match read_stream_bytes(compound, path.as_str()) {
        Ok(data) => data,
        Err(e) => {
            return Err(e);
        },
    };
    let path = section_stream_path(key, "WideStrings");
    let wide_strings = match read_stream_bytes(compound, path.as_str()) {
        Ok(data) => data,
        Err(e) => {
            return Err(e);
        },
    };
    let path = section_stream_path(key, "Data");
    let data = match read_stream_bytes(compound, path.as_str()) {
        Ok(data) => data,
        Err(e) => {
            return Err(e);
        },
    };
    let path = section_stream_path(key, "UniqueIdPrimitiveInformation/Data");
    let unique_id_primitive_information = match read_stream_bytes(compound, path.as_str()) {
        Ok(data) => data,
        Err(e) => {
            return Err(e);
        },
    };
    if let Err(e) = first_param_block_pairs(parameters.as_slice(), "PcbLib parameters") {
        return Err(e);
    }
    Ok(
        PcblibComponentRecord {
            name,
            primitive_count,
            parameters,
            wide_strings,
            data,
            unique_id_primitive_information,
        },
    )
}

/// What reading the component at `index` comes to.
pub open spec fn footprint_result(streams: Streams, names: Seq<Seq<char>>, index: int) -> Result<
    FootprintModel,
    Failure,
> {
    let section = section_result(
        streams,
        names[index],
        key_for(pcblib_keys(streams), names[index]),
        section_keys(names)[index],
        "Header"@,
    );
    match section {
        Ok(key) => section_component_result(streams, names[index], key),
        Err(failure) => Err(failure),
    }
}

/// What reading the first `n` components comes to: all of them, or the first failure.
pub open spec fn footprints_result(streams: Streams, names: Seq<Seq<char>>, n: int) -> Result<
    Seq<FootprintModel>,
    Failure,
>
    decreases n,
{
    if n <= 0 {
        Ok(Seq::empty())
    } else {
        match footprints_result(streams, names, n - 1) {
            Ok(before) => match footprint_result(streams, names, n - 1) {
                Ok(component) => Ok(before.push(component)),
                Err(failure) => Err(failure),
            },
            Err(failure) => Err(failure),
        }
    }
}

proof fn lemma_footprints_failure(streams: Streams, names: Seq<Seq<char>>, m: int, n: int)
    requires
        m <= n,
    ensures
        footprints_result(streams, names, m) is Err ==> footprints_result(streams, names, n)
            == footprints_result(streams, names, m),
    decreases n - m,
{
    if m < n {
        lemma_footprints_failure(streams, names, m, n - 1);
    }
}

/// What reading the models comes to.
pub open spec fn models_result(streams: Streams) -> Result<Seq<StepModel>, Failure> {
    match storage_header_result(
        streams,
        "/Library/Models/Header"@,
        "PcbLib models header"@,
    ) {
        Ok(count) => model_entries_result(streams, count_of(count)),
        Err(failure) => Err(failure),
    }
}

/// What reading a footprint library with the given streams comes to.
pub open spec fn pcblib_result(streams: Streams) -> Result<PcblibModel, Failure> {
    match pcblib_names_result(streams) {
        Ok(names) => match footprints_result(streams, names, names.len() as int) {
            Ok(components) => match models_result(streams) {
                Ok(models) => Ok(PcblibModel { components, models }),
                Err(failure) => Err(failure),
            },
            Err(failure) => Err(failure),
        },
        Err(failure) => Err(failure),
    }
}

/// What reading the bytes `image` as a footprint library comes to.
pub open spec fn pcblib_image_result(image: Seq<u8>) -> Result<PcblibModel, Failure> {
    match image_streams(image) {
        Some(streams) => pcblib_result(streams),
        None => Err(Failure::Io),
    }
}

/// Reads the records of the footprint library that the bytes `image` are.
pub fn read_pcblib_records(image: &[u8]) -> (r: Result<PcblibRecordLibrary, AppError>)
    ensures
        match r {
            Ok(library) => pcblib_image_result(image@) == Ok::<PcblibModel, Failure>(library@),
            Err(e) => pcblib_image_result(image@) == Err::<PcblibModel, Failure>(e.failure()),
        },
{
    let mut compound = match open_compound(image) {
        Ok(compound) => compound,
        Err(e) => {
            return Err(AppError::Io(e));
        },
    };
    let ghost streams = compound_streams(compound);
    let names = match read_pcblib_component_names(&mut compound) {
        Ok(names) => names,
        Err(e) => {
            return Err(e);
        },
    };
    let ghost all = views(names@);
    let derived_sections = collect_sections(&names);
    let explicit_sections = match read_pcblib_section_keys(&mut compound) {
        Ok(keys) => keys,
        Err(_) => Vec::new(),
    };
    assert(pair_views(explicit_sections@) =~= pcblib_keys(streams));
    let mut components: Vec<PcblibComponentRecord> = Vec::new();
    assert(footprints(components@) =~= Seq::<FootprintModel>::empty());
    proof {
        lemma_section_keys_len(all);
    }
    let mut i: usize = 0;
    while i < names.len()
        invariant
            i <= names@.len(),
            all == views(names@),
            image_streams(image@) == Some(streams),
            pcblib_names_result(streams) == Ok::<Seq<Seq<char>>, Failure>(all),
            compound_streams(compound) == streams,
            views(derived_sections@) == section_keys(all),
            derived_sections@.len() == all.len(),
            pair_views(explicit_sections@) == pcblib_keys(streams),
            footprints_result(streams, all, i as int) == Ok::<Seq<FootprintModel>, Failure>(
                footprints(components@),
            ),
        decreases names.len() - i,
    {
        let name = names[i].as_str();
        proof {
            lemma_footprints_failure(streams, all, i + 1, all.len() as int);
            assert(section_keys(all)[i as int] == derived_sections@[i as int]@);
        }
        let explicit = explicit_key(&explicit_sections, name);
        let key = match resolve_section_key(
            &mut compound,
            name,
            explicit,
            derived_sections[i].as_str(),
            "Header",
        ) {
            Ok(key) => key,
            Err(e) => {
                return Err(e);
            },
        };
        let record = match read_section_component(&mut compound, names[i].clone(), key.as_str()) {
            Ok(record) => record,
            Err(e) => {
                return Err(e);
            },
        };
        let ghost before = footprints(components@);
        components.push(record);
        assert(footprints(components@) =~= before.push(record@));
        i += 1;
    }
    let model_count: i32 = match read_storage_header(
        &mut compound,
        "/Library/Models/Header",
        "PcbLib models header",
    ) {
        Ok(count) => count,
        Err(e) => {
            return Err(e);
        },
    };
    let model_count: usize = if model_count > 0 {
        model_count as usize
    } else {
        0
    };
    let models = match read_pcblib_model_entries(&mut compound, model_count) {
        Ok(models) => models,
        Err(e) => {
            return Err(e);
        },
    };
    Ok(PcblibRecordLibrary { components, models })
}

// Writing a library

/// The file header stream of a footprint library.
pub open spec fn pcblib_header_stream() -> Seq<u8> {
    le_bytes(27) + short_string("PCB 6.0 Binary Library File"@)
}

pub fn pcblib_file_header_bytes() -> (r: Vec<u8>)
    ensures
        r@ == pcblib_header_stream(),
{
    let version = "PCB 6.0 Binary Library File";
    proof {
        reveal_strlit("PCB 6.0 Binary Library File");
        assert(vstd::utf8::is_ascii_chars(version@));
        vstd::utf8::is_ascii_chars_encode_utf8(version@);
    }
    let mut writer = PcbWriter::default();
    writer.write_i32(version.len() as i32);
    writer.write_pascal_short_string(version);
    assert(writer.data@ =~= pcblib_header_stream());
    writer.into_inner()
}

/// Names and section keys, block by block.
pub open spec fn key_blocks(pairs: Seq<Pair>) -> Seq<u8>
    decreases pairs.len(),
{
    if pairs.len() == 0 {
        Seq::empty()
    } else {
        key_blocks(pairs.drop_last()) + block_bytes(0, short_string(pairs.last().0).push(0))
            + block_bytes(0, short_string(pairs.last().1))
    }
}

/// The section key stream of a footprint library.
pub open spec fn pcblib_keys_stream(pairs: Seq<Pair>) -> Seq<u8> {
    le_bytes((pairs.len() as i32) as u32) + key_blocks(pairs)
}

pub fn pcblib_section_keys_bytes(pairs: &[(String, String)]) -> (r: Vec<u8>)
    ensures
        r@ == pcblib_keys_stream(pair_views(pairs@)),
{
    let ghost all = pair_views(pairs@);
    let mut writer = PcbWriter::default();
    writer.write_i32(pairs.len() as i32);
    let ghost start = le_bytes((all.len() as i32) as u32);
    assert(all.take(0) =~= Seq::<Pair>::empty());
    assert(writer.data@ =~= start + key_blocks(all.take(0)));
    let mut i: usize = 0;
    while i < pairs.len()
        invariant
            i <= pairs@.len(),
            all == pair_views(pairs@),
            writer.data@ == start + key_blocks(all.take(i as int)),
        decreases pairs.len() - i,
    {
        proof {
            assert(all.take(i + 1).drop_last() =~= all.take(i as int));
            assert(all.take(i + 1).last() == (pairs@[i as int].0@, pairs@[i as int].1@));
        }
        writer.write_pascal_string(pairs[i].0.as_str());
        writer.write_string_block(pairs[i].1.as_str());
        assert(writer.data@ =~= start + key_blocks(all.take(i + 1)));
        i += 1;
    }
    assert(all.take(i as int) =~= all);
    writer.into_inner()
}

pub fn storage_header_bytes(record_count: i32) -> (r: Vec<u8>)
    ensures
        r@ == le_bytes(record_count as u32),
{
    let mut writer = PcbWriter::default();
    writer.write_i32(record_count);
    assert(writer.data@ =~= le_bytes(record_count as u32));
    writer.into_inner()
}

/// The library data stream: the parameters, the number of components and their names.
pub open spec fn library_data_stream(params: Seq<char>, names: Seq<Seq<char>>) -> Seq<u8> {
    block_bytes(0, ansi(params) + seq![0u8]) + le_bytes(names.len() as u32) + name_blocks(names)
}

pub fn pcblib_library_data_bytes(library: &PcblibRecordLibrary, params: &str) -> (r: Vec<u8>)
    ensures
        r@ == library_data_stream(params@, footprint_names(library@.components)),
{
    let ghost names = footprint_names(library@.components);
    let mut writer = PcbWriter::default();
    let mut child = PcbWriter::default();
    child.write_cstring(params);
    assert(child.data@ =~= ansi(params@) + seq![0u8]);
    writer.write_block(0, child);
    writer.write_u32(library.components.len() as u32);
    let ghost start = writer.data@;
    assert(start =~= block_bytes(0, ansi(params@) + seq![0u8]) + le_bytes(names.len() as u32));
    assert(names.take(0) =~= Seq::<Seq<char>>::empty());
    assert(start + name_blocks(names.take(0)) =~= start);
    let mut i: usize = 0;
    while i < library.components.len()
        invariant
            i <= library.components@.len(),
            names == footprint_names(library@.components),
            writer.data@ == start + name_blocks(names.take(i as int)),
        decreases library.components.len() - i,
    {
        proof {
            assert(names.take(i + 1).drop_last() =~= names.take(i as int));
            assert(names.take(i + 1).last() == library.components@[i as int].name@);
        }
        writer.write_string_block(library.components[i].name.as_str());
        assert(writer.data@ =~= start + name_blocks(names.take(i + 1)));
        i += 1;
    }
    assert(names.take(i as int) =~= names);
    writer.into_inner()
}

/// The name of the library file as its parameters carry it: with backslashes,
/// and without the prefix of extended paths.
pub open spec fn file_name_param(path: Seq<char>) -> Seq<char> {
    let name = with_char(path, '/', '\\');
    if "\\\\?\\"@.is_prefix_of(name) {
        name.skip(4)
    } else {
        name
    }
}

/// The library parameters: the template with the file name, the date and the time filled in.
pub open spec fn library_params(
    template: Seq<char>,
    path: Seq<char>,
    date: Seq<char>,
    time: Seq<char>,
) -> Seq<char> {
    replaced(
        replaced(replaced(template, "__FILE__"@, file_name_param(path)), "__DATE__"@, date),
        "__TIME__"@,
        time,
    )
}

pub fn pcblib_library_data_params(template: &str, path: &str, date: &str, time: &str) -> (r: String)
    ensures
        r@ == library_params(template@, path@, date@, time@),
{
    let name = replace_char(path, '/', '\\');
    proof {
        reveal_strlit("\\\\?\\");
        reveal_strlit("__FILE__");
        reveal_strlit("__DATE__");
        reveal_strlit("__TIME__");
    }
    let file = if text_starts_with(name.as_str(), "\\\\?\\") {
        let chars = chars_of(name.as_str());
        assert(name@.subrange(4, name@.len() as int) =~= name@.skip(4));
        text_of(chars.as_slice(), 4, chars.len())
    } else {
        name
    };
    let text = replace_text(template, "__FILE__", file.as_str());
    let text = replace_text(text.as_str(), "__DATE__", date);
    replace_text(text.as_str(), "__TIME__", time)
}

/// The models data stream: each entry with its length in front.
pub open spec fn models_stream(models: Seq<StepModel>) -> Seq<u8>
    decreases models.len(),
{
    if models.len() == 0 {
        Seq::empty()
    } else {
        models_stream(models.drop_last()) + le_bytes((models.last().entry.len() as i32) as u32)
            + models.last().entry
    }
}

pub fn pcblib_models_data_bytes(models: &[PcblibModelRecord]) -> (r: Vec<u8>)
    ensures
        r@ == models_stream(step_models(models@)),
{
    let ghost all = step_models(models@);
    let mut writer = PcbWriter::default();
    assert(all.take(0) =~= Seq::<StepModel>::empty());
    assert(writer.data@ =~= models_stream(all.take(0)));
    let mut i: usize = 0;
    while i < models.len()
        invariant
            i <= models@.len(),
            all == step_models(models@),
            writer.data@ == models_stream(all.take(i as int)),
        decreases models.len() - i,
    {
        proof {
            assert(all.take(i + 1).drop_last() =~= all.take(i as int));
            assert(all.take(i + 1).last() == models@[i as int]@);
        }
        writer.write_i32(models[i].entry.len() as i32);
        writer.write_bytes(models[i].entry.as_slice());
        assert(writer.data@ =~= models_stream(all.take(i + 1)));
        i += 1;
    }
    assert(all.take(i as int) =~= all);
    writer.into_inner()
}

/// The paths that every footprint library has.
pub open spec fn fixed_path(j: int) -> Seq<char> {
    if j == 0 {
        "/FileHeader"@
    } else if j == 1 {
        "/SectionKeys"@
    } else if j == 2 {
        "/Library/Header"@
    } else if j == 3 {
        "/Library/Data"@
    } else if j == 4 {
        "/Library/Models/Header"@
    } else if j == 5 {
        "/Library/Models/Data"@
    } else if j == 6 {
        "/Library/Textures/Header"@
    } else if j == 7 {
        "/Library/Textures/Data"@
    } else if j == 8 {
        "/Library/ModelsNoEmbed/Header"@
    } else {
        "/Library/ModelsNoEmbed/Data"@
    }
}

/// The streams that every component has in its section.
pub open spec fn component_stream(x: int) -> Seq<char> {
    if x == 0 {
        "Header"@
    } else if x == 1 {
        "Parameters"@
    } else if x == 2 {
        "WideStrings"@
    } else if x == 3 {
        "Data"@
    } else if x == 4 {
        "UniqueIdPrimitiveInformation/Header"@
    } else {
        "UniqueIdPrimitiveInformation/Data"@
    }
}

/// A place in a footprint library: a stream or a storage of the library, a
/// model's stream, or a stream or storage of a component.
enum Place {
    Fixed(int),
    Model(nat),
    Component(int, int),
}

/// What the places of a library depend on: the keys, how many models there are,
/// how many components have their storage, and whether there is a list of keys.
struct Shape {
    keys: Seq<Seq<char>>,
    models: nat,
    components: int,
    has_keys: bool,
}

/// The paths at fixed places, those of the storages last.
spec fn fixed_spot(j: int) -> Seq<char> {
    if j < 10 {
        fixed_path(j)
    } else if j == 10 {
        "/Library"@
    } else if j == 11 {
        "/Library/Models"@
    } else if j == 12 {
        "/Library/Textures"@
    } else {
        "/Library/ModelsNoEmbed"@
    }
}

/// What a component has in its section.
spec fn component_part(x: int) -> Seq<char> {
    if x < 6 {
        component_stream(x)
    } else {
        "UniqueIdPrimitiveInformation"@
    }
}

spec fn place_path(place: Place, keys: Seq<Seq<char>>) -> Seq<char> {
    match place {
        Place::Fixed(j) => fixed_spot(j),
        Place::Model(i) => model_path(i),
        Place::Component(c, x) => if x == 6 {
            root_path(keys[c])
        } else {
            section_path(keys[c], component_part(x))
        },
    }
}

spec fn is_place(place: Place, shape: Shape) -> bool {
    match place {
        Place::Fixed(j) => 0 <= j < 14 && (j == 1 ==> shape.has_keys),
        Place::Model(i) => i < shape.models && i <= u64::MAX,
        Place::Component(c, x) => 0 <= c < shape.components && 0 <= x < 8,
    }
}

/// The storage that a place is in, where that is not the root.
spec fn parent_place(place: Place) -> Option<Place> {
    match place {
        Place::Fixed(j) => if j < 2 || j == 10 {
            None
        } else if j == 4 || j == 5 {
            Some(Place::Fixed(11))
        } else if j == 6 || j == 7 {
            Some(Place::Fixed(12))
        } else if j == 8 || j == 9 {
            Some(Place::Fixed(13))
        } else {
            Some(Place::Fixed(10))
        },
        Place::Model(_) => Some(Place::Fixed(11)),
        Place::Component(c, x) => if x == 6 {
            None
        } else if x == 4 || x == 5 {
            Some(Place::Component(c, 7))
        } else {
            Some(Place::Component(c, 6))
        },
    }
}

/// The last name in the path of a place.
spec fn place_name(place: Place, keys: Seq<Seq<char>>) -> Seq<char> {
    match place {
        Place::Fixed(j) => if j == 0 {
            "FileHeader"@
        } else if j == 1 {
            "SectionKeys"@
        } else if j == 10 {
            "Library"@
        } else if j == 11 {
            "Models"@
        } else if j == 12 {
            "Textures"@
        } else if j == 13 {
            "ModelsNoEmbed"@
        } else if j % 2 == 0 {
            "Header"@
        } else {
            "Data"@
        },
        Place::Model(i) => decimal(i),
        Place::Component(c, x) => if x == 6 {
            keys[c]
        } else if x == 4 {
            "Header"@
        } else if x == 5 {
            "Data"@
        } else {
            component_part(x)
        },
    }
}

/// Whether the keys with a storage are plain and lead to different storages,
/// none of them in the place of something else in the root.
spec fn keys_apart(shape: Shape) -> bool {
    &&& shape.components <= shape.keys.len()
    &&& forall|c: int|
        0 <= c < shape.components ==> {
            &&& is_plain_name(#[trigger] shape.keys[c])
            &&& !same_place(root_path("Library"@), root_path(shape.keys[c]))
            &&& !same_place(root_path("FileHeader"@), root_path(shape.keys[c]))
            &&& shape.has_keys ==> !same_place(
                root_path("SectionKeys"@),
                root_path(shape.keys[c]),
            )
        }
    &&& forall|c: int, d: int|
        0 <= c < d < shape.components ==> !same_place(
            root_path(#[trigger] shape.keys[c]),
            root_path(#[trigger] shape.keys[d]),
        )
}

proof fn lemma_library_names()
    ensures
        is_plain_name("Library"@),
        is_plain_name("Models"@),
        is_plain_name("Textures"@),
        is_plain_name("ModelsNoEmbed"@),
        is_plain_name("Header"@),
        is_plain_name("Data"@),
        is_plain_name("FileHeader"@),
        is_plain_name("SectionKeys"@),
        is_plain_name("Parameters"@),
        is_plain_name("WideStrings"@),
        is_plain_name("UniqueIdPrimitiveInformation"@),
        fixed_spot(0) == root_path("FileHeader"@),
        fixed_spot(1) == root_path("SectionKeys"@),
        fixed_spot(10) == root_path("Library"@),
{
    reveal_strlit("Library");
    reveal_strlit("Models");
    reveal_strlit("Textures");
    reveal_strlit("ModelsNoEmbed");
    reveal_strlit("Header");
    reveal_strlit("Data");
    reveal_strlit("FileHeader");
    reveal_strlit("SectionKeys");
    reveal_strlit("Parameters");
    reveal_strlit("WideStrings");
    reveal_strlit("UniqueIdPrimitiveInformation");
    reveal_strlit("/FileHeader");
    reveal_strlit("/SectionKeys");
    reveal_strlit("/Library");
    lemma_long_name_plain("Library"@);
    lemma_long_name_plain("Models"@);
    lemma_long_name_plain("Textures"@);
    lemma_long_name_plain("ModelsNoEmbed"@);
    lemma_long_name_plain("Header"@);
    lemma_long_name_plain("Data"@);
    lemma_long_name_plain("FileHeader"@);
    lemma_long_name_plain("SectionKeys"@);
    lemma_long_name_plain("Parameters"@);
    lemma_long_name_plain("WideStrings"@);
    lemma_long_name_plain("UniqueIdPrimitiveInformation"@);
    assert("/FileHeader"@ =~= root_path("FileHeader"@));
    assert("/SectionKeys"@ =~= root_path("SectionKeys"@));
    assert("/Library"@ =~= root_path("Library"@));
}

/// The part of a fixed path behind `/Library/`.
spec fn library_part(j: int) -> Seq<char> {
    if j == 2 {
        "Header"@
    } else if j == 3 {
        "Data"@
    } else if j == 4 {
        "Models/Header"@
    } else if j == 5 {
        "Models/Data"@
    } else if j == 6 {
        "Textures/Header"@
    } else if j == 7 {
        "Textures/Data"@
    } else if j == 8 {
        "ModelsNoEmbed/Header"@
    } else if j == 9 {
        "ModelsNoEmbed/Data"@
    } else if j == 11 {
        "Models"@
    } else if j == 12 {
        "Textures"@
    } else {
        "ModelsNoEmbed"@
    }
}

/// Whether the fixed place `j` is inside the library's storage.
spec fn is_inner(j: int) -> bool {
    2 <= j < 10 || 11 <= j < 14
}

proof fn lemma_library_parts()
    ensures
        forall|j: int|
            is_inner(j) ==> #[trigger] fixed_spot(j) == section_path("Library"@, library_part(j)),
        forall|j: int| #![trigger fixed_spot(j)] 0 <= j < 14 ==> fixed_spot(j).len() == fixed_len(j),
        fixed_spot(2)[9] == 'H',
        fixed_spot(4)[9] == 'M',
        fixed_spot(4)[15] == '/',
        fixed_spot(7)[9] == 'T',
        fixed_spot(11)[9] == 'M',
        fixed_spot(12)[9] == 'T',
        fixed_spot(13)[9] == 'M',
        fixed_spot(13)[15] == 'N',
{
    reveal_strlit("Library");
    reveal_strlit("/FileHeader");
    reveal_strlit("/SectionKeys");
    reveal_strlit("Header");
    reveal_strlit("Data");
    reveal_strlit("Models/Header");
    reveal_strlit("Models/Data");
    reveal_strlit("Textures/Header");
    reveal_strlit("Textures/Data");
    reveal_strlit("ModelsNoEmbed/Header");
    reveal_strlit("ModelsNoEmbed/Data");
    reveal_strlit("Models");
    reveal_strlit("Textures");
    reveal_strlit("ModelsNoEmbed");
    reveal_strlit("/Library/Header");
    reveal_strlit("/Library/Data");
    reveal_strlit("/Library/Models/Header");
    reveal_strlit("/Library/Models/Data");
    reveal_strlit("/Library/Textures/Header");
    reveal_strlit("/Library/Textures/Data");
    reveal_strlit("/Library/ModelsNoEmbed/Header");
    reveal_strlit("/Library/ModelsNoEmbed/Data");
    reveal_strlit("/Library");
    reveal_strlit("/Library/Models");
    reveal_strlit("/Library/Textures");
    reveal_strlit("/Library/ModelsNoEmbed");
    assert(fixed_spot(2) =~= section_path("Library"@, library_part(2)));
    assert(fixed_spot(3) =~= section_path("Library"@, library_part(3)));
    assert(fixed_spot(4) =~= section_path("Library"@, library_part(4)));
    assert(fixed_spot(5) =~= section_path("Library"@, library_part(5)));
    assert(fixed_spot(6) =~= section_path("Library"@, library_part(6)));
    assert(fixed_spot(7) =~= section_path("Library"@, library_part(7)));
    assert(fixed_spot(8) =~= section_path("Library"@, library_part(8)));
    assert(fixed_spot(9) =~= section_path("Library"@, library_part(9)));
    assert(fixed_spot(11) =~= section_path("Library"@, library_part(11)));
    assert(fixed_spot(12) =~= section_path("Library"@, library_part(12)));
    assert(fixed_spot(13) =~= section_path("Library"@, library_part(13)));
}

spec fn fixed_len(j: int) -> int {
    if j == 0 {
        11
    } else if j == 1 {
        12
    } else if j == 2 {
        15
    } else if j == 3 {
        13
    } else if j == 4 {
        22
    } else if j == 5 {
        20
    } else if j == 6 {
        24
    } else if j == 7 {
        22
    } else if j == 8 {
        29
    } else if j == 9 {
        27
    } else if j == 10 {
        8
    } else if j == 11 {
        15
    } else if j == 12 {
        17
    } else {
        22
    }
}

/// The path of the storage that a place is in.
spec fn parent_path(place: Place, keys: Seq<Seq<char>>) -> Seq<char> {
    match parent_place(place) {
        Some(parent) => place_path(parent, keys),
        None => Seq::empty(),
    }
}

proof fn lemma_fixed_parent(j: int, keys: Seq<Seq<char>>)
    requires
        0 <= j < 14,
    ensures
        is_plain_name(place_name(Place::Fixed(j), keys)),
        place_path(Place::Fixed(j), keys) == child_path(
            parent_path(Place::Fixed(j), keys),
            place_name(Place::Fixed(j), keys),
        ),
{
    lemma_library_names();
    reveal_strlit("Library");
    reveal_strlit("FileHeader");
    reveal_strlit("SectionKeys");
    reveal_strlit("Models");
    reveal_strlit("Textures");
    reveal_strlit("ModelsNoEmbed");
    reveal_strlit("Header");
    reveal_strlit("Data");
    reveal_strlit("/FileHeader");
    reveal_strlit("/SectionKeys");
    reveal_strlit("/Library");
    reveal_strlit("/Library/Header");
    reveal_strlit("/Library/Data");
    reveal_strlit("/Library/Models");
    reveal_strlit("/Library/Models/Header");
    reveal_strlit("/Library/Models/Data");
    reveal_strlit("/Library/Textures");
    reveal_strlit("/Library/Textures/Header");
    reveal_strlit("/Library/Textures/Data");
    reveal_strlit("/Library/ModelsNoEmbed");
    reveal_strlit("/Library/ModelsNoEmbed/Header");
    reveal_strlit("/Library/ModelsNoEmbed/Data");
    let place = Place::Fixed(j);
    assert(place_path(place, keys) =~= child_path(
        parent_path(place, keys),
        place_name(place, keys),
    ));
}

/// A model path ends in its number.
proof fn lemma_model_path(i: nat)
    ensures
        i <= u64::MAX ==> is_plain_name(decimal(i)),
        model_path(i) == section_path("Library"@, "Models/"@ + decimal(i)),
        model_path(i) == child_path("/Library/Models"@, decimal(i)),
        model_path(i).len() == 16 + decimal(i).len(),
        "/Library/Models/"@.is_prefix_of(model_path(i)),
        is_digit(model_path(i)[16]),
{
    lemma_decimal(i);
    let digits = decimal(i);
    reveal_strlit("Library");
    reveal_strlit("Models/");
    reveal_strlit("/Library/Models");
    reveal_strlit("/Library/Models/");
    assert(is_digit(digits[0]));
    assert(digits[0] == model_path(i)[16]);
    assert forall|k: int| 0 <= k < digits.len() implies crate::sections::is_key_char(
        #[trigger] digits[k],
    ) by {
        assert(is_digit(digits[k]));
    }
    assert(digits != seq!['.']) by {
        assert(seq!['.'][0] == '.');
    }
    assert(digits != seq!['.', '.']) by {
        assert(seq!['.', '.'][0] == '.');
    }
    if i <= u64::MAX {
        lemma_short_decimal(i);
    }
    assert(model_path(i) =~= section_path("Library"@, "Models/"@ + digits));
    assert(model_path(i) =~= child_path("/Library/Models"@, digits));
}

spec fn component_part_len(x: int) -> int {
    if x == 0 {
        6
    } else if x == 1 {
        10
    } else if x == 2 {
        11
    } else if x == 3 {
        4
    } else if x == 4 {
        35
    } else if x == 5 {
        33
    } else {
        28
    }
}

/// What a component has in its section has names of different lengths.
proof fn lemma_component_part(x: int)
    requires
        0 <= x < 8,
        x != 6,
    ensures
        component_part(x).len() == component_part_len(x),
{
    reveal_strlit("Header");
    reveal_strlit("Parameters");
    reveal_strlit("WideStrings");
    reveal_strlit("Data");
    reveal_strlit("UniqueIdPrimitiveInformation");
    reveal_strlit("UniqueIdPrimitiveInformation/Header");
    reveal_strlit("UniqueIdPrimitiveInformation/Data");
}

proof fn lemma_component_parent(c: int, x: int, keys: Seq<Seq<char>>)
    requires
        is_plain_name(keys[c]),
        0 <= x < 8,
    ensures
        is_plain_name(place_name(Place::Component(c, x), keys)),
        place_path(Place::Component(c, x), keys) == child_path(
            parent_path(Place::Component(c, x), keys),
            place_name(Place::Component(c, x), keys),
        ),
{
    lemma_library_names();
    reveal_strlit("Header");
    reveal_strlit("Data");
    reveal_strlit("UniqueIdPrimitiveInformation");
    reveal_strlit("UniqueIdPrimitiveInformation/Header");
    reveal_strlit("UniqueIdPrimitiveInformation/Data");
    let place = Place::Component(c, x);
    assert(place_path(place, keys) =~= child_path(
        parent_path(place, keys),
        place_name(place, keys),
    ));
}

/// A place is under its parent, by a plain name.
proof fn lemma_place_parent(place: Place, shape: Shape)
    requires
        is_place(place, shape),
        keys_apart(shape),
    ensures
        is_plain_name(place_name(place, shape.keys)),
        place_path(place, shape.keys) == child_path(
            parent_path(place, shape.keys),
            place_name(place, shape.keys),
        ),
        parent_place(place) matches Some(parent) ==> is_place(parent, shape),
{
    match place {
        Place::Fixed(j) => {
            lemma_fixed_parent(j, shape.keys);
        },
        Place::Model(i) => {
            lemma_model_path(i);
        },
        Place::Component(c, x) => {
            assert(is_plain_name(shape.keys[c]));
            lemma_component_parent(c, x, shape.keys);
        },
    }
}

/// How many storages there are above a place.
spec fn place_depth(place: Place) -> nat {
    match place {
        Place::Fixed(j) => if j < 2 || j == 10 {
            0
        } else if 4 <= j < 10 {
            2
        } else {
            1
        },
        Place::Model(_) => 2,
        Place::Component(_, x) => if x == 6 {
            0
        } else if x == 4 || x == 5 {
            2
        } else {
            1
        },
    }
}

proof fn lemma_place_plain(place: Place, shape: Shape)
    requires
        is_place(place, shape),
        keys_apart(shape),
    ensures
        is_plain_path(place_path(place, shape.keys)),
    decreases place_depth(place),
{
    lemma_place_parent(place, shape);
    let name = place_name(place, shape.keys);
    match parent_place(place) {
        Some(parent) => {
            lemma_place_plain(parent, shape);
            lemma_plain_child(place_path(parent, shape.keys), name);
        },
        None => {
            lemma_plain_root(name);
            assert(child_path(Seq::empty(), name) =~= root_path(name));
        },
    }
}

proof fn lemma_same_place_len(a: Seq<char>, b: Seq<char>)
    ensures
        same_place(a, b) ==> a.len() == b.len(),
        same_place(a, b) == same_place(b, a),
{
    assert(upper_text(a).len() == a.len());
    assert(upper_text(b).len() == b.len());
}

proof fn lemma_fixed_apart(i: int, j: int)
    requires
        0 <= i < j < 14,
    ensures
        !same_place(fixed_spot(i), fixed_spot(j)),
{
    lemma_library_parts();
    lemma_same_place_len(fixed_spot(i), fixed_spot(j));
    if (i == 4 && j == 7) || (i == 2 && j == 11) || (i == 7 && j == 13) {
        lemma_places_differ_at(fixed_spot(i), fixed_spot(j), 9);
    } else if i == 4 && j == 13 {
        lemma_places_differ_at(fixed_spot(i), fixed_spot(j), 15);
    } else {
        assert(fixed_len(i) != fixed_len(j));
    }
}

proof fn lemma_models_apart(i: nat, j: nat)
    requires
        same_place(model_path(i), model_path(j)),
    ensures
        i == j,
{
    lemma_model_path(i);
    lemma_model_path(j);
    let a = model_path(i);
    let b = model_path(j);
    reveal_strlit("/Library/Models/");
    lemma_same_place_len(a, b);
    lemma_decimal(i);
    lemma_decimal(j);
    assert forall|k: int| 0 <= k < decimal(i).len() implies decimal(i)[k] == decimal(j)[k] by {
        assert(upper_text(a)[16 + k] == upper_text(b)[16 + k]);
        assert(a[16 + k] == decimal(i)[k] && b[16 + k] == decimal(j)[k]);
        assert(is_digit(decimal(i)[k]) && is_digit(decimal(j)[k]));
    }
    assert(decimal(i) =~= decimal(j));
    lemma_decimal_injective(i, j);
}

proof fn lemma_fixed_model_apart(j: int, i: nat)
    requires
        0 <= j < 14,
    ensures
        !same_place(fixed_spot(j), model_path(i)),
{
    lemma_library_parts();
    lemma_model_path(i);
    let a = fixed_spot(j);
    let b = model_path(i);
    lemma_same_place_len(a, b);
    reveal_strlit("/Library/Models/");
    reveal_strlit("/Library/Models/Header");
    reveal_strlit("/Library/Models/Data");
    reveal_strlit("/Library/Textures/Header");
    reveal_strlit("/Library/Textures/Data");
    reveal_strlit("/Library/ModelsNoEmbed/Header");
    reveal_strlit("/Library/ModelsNoEmbed/Data");
    lemma_decimal(i);
    assert(b[9] == "/Library/Models/"@[9]);
    assert(b[15] == "/Library/Models/"@[15]);
    if j == 4 || j == 5 {
        lemma_places_differ_at(a, b, 16);
    } else if j == 6 || j == 7 || j == 12 {
        lemma_places_differ_at(a, b, 9);
    } else if j == 8 || j == 9 || j == 13 {
        lemma_places_differ_at(a, b, 15);
    }
}

/// The storage of a component is in the place of nothing that is deeper.
proof fn lemma_section_above(key: Seq<char>, other: Place, shape: Shape)
    requires
        !key.contains('/'),
        keys_apart(shape),
        is_place(other, shape),
        place_depth(other) > 0,
    ensures
        !same_place(place_path(other, shape.keys), root_path(key)),
{
    lemma_library_parts();
    match other {
        Place::Fixed(j) => {
            lemma_depths_differ(key, "Library"@, library_part(j));
        },
        Place::Model(i) => {
            lemma_model_path(i);
            lemma_depths_differ(key, "Library"@, "Models/"@ + decimal(i));
        },
        Place::Component(d, y) => {
            lemma_depths_differ(key, shape.keys[d], component_part(y));
        },
    }
}

/// What is in the section of a component is in the place of nothing else.
proof fn lemma_part_apart(c: int, x: int, other: Place, shape: Shape)
    requires
        keys_apart(shape),
        is_place(Place::Component(c, x), shape),
        x != 6,
        is_place(other, shape),
        other != Place::Component(c, x),
    ensures
        !same_place(place_path(other, shape.keys), place_path(Place::Component(c, x), shape.keys)),
{
    let key = shape.keys[c];
    let part = component_part(x);
    let a = section_path(key, part);
    let b = place_path(other, shape.keys);
    lemma_library_names();
    lemma_library_parts();
    assert(is_plain_name(key));
    lemma_plain_name_slash_free(key);
    lemma_plain_name_slash_free("Library"@);
    lemma_component_part(x);
    lemma_same_place_len(a, b);
    lemma_same_place_len(root_path("Library"@), root_path(key));
    match other {
        Place::Fixed(j) => {
            if j == 0 {
                lemma_plain_name_slash_free("FileHeader"@);
                lemma_depths_differ("FileHeader"@, key, part);
            } else if j == 1 {
                lemma_plain_name_slash_free("SectionKeys"@);
                lemma_depths_differ("SectionKeys"@, key, part);
            } else if j == 10 {
                lemma_depths_differ("Library"@, key, part);
            } else {
                assert(is_inner(j));
                if same_place(a, b) {
                    lemma_same_section(key, part, "Library"@, library_part(j));
                }
            }
        },
        Place::Model(i) => {
            lemma_model_path(i);
            if same_place(a, b) {
                lemma_same_section(key, part, "Library"@, "Models/"@ + decimal(i));
            }
        },
        Place::Component(d, y) => {
            assert(is_plain_name(shape.keys[d]));
            lemma_plain_name_slash_free(shape.keys[d]);
            if y == 6 {
                lemma_depths_differ(shape.keys[d], key, part);
            } else {
                lemma_component_part(y);
                if same_place(a, b) {
                    lemma_same_section(key, part, shape.keys[d], component_part(y));
                    lemma_same_place_len(part, component_part(y));
                    lemma_same_place_len(root_path(key), root_path(shape.keys[d]));
                    assert(x == y);
                    assert(c < d || d < c);
                }
            }
        },
    }
}

/// The storage of a component is in the place of nothing else.
proof fn lemma_section_apart(c: int, other: Place, shape: Shape)
    requires
        keys_apart(shape),
        is_place(Place::Component(c, 6), shape),
        is_place(other, shape),
        other != Place::Component(c, 6),
    ensures
        !same_place(place_path(other, shape.keys), root_path(shape.keys[c])),
{
    let key = shape.keys[c];
    lemma_library_names();
    assert(is_plain_name(key));
    lemma_plain_name_slash_free(key);
    if place_depth(other) > 0 {
        lemma_section_above(key, other, shape);
    } else {
        match other {
            Place::Fixed(j) => {},
            Place::Model(i) => {},
            Place::Component(d, y) => {
                lemma_same_place_len(root_path(key), root_path(shape.keys[d]));
                assert(c < d || d < c);
            },
        }
    }
}

/// Different places have different paths, whatever the case.
proof fn lemma_places_apart(a: Place, b: Place, shape: Shape)
    requires
        keys_apart(shape),
        is_place(a, shape),
        is_place(b, shape),
        a != b,
    ensures
        !same_place(place_path(a, shape.keys), place_path(b, shape.keys)),
{
    lemma_same_place_len(place_path(a, shape.keys), place_path(b, shape.keys));
    match (a, b) {
        (_, Place::Component(c, x)) => {
            if x == 6 {
                lemma_section_apart(c, a, shape);
            } else {
                lemma_part_apart(c, x, a, shape);
            }
        },
        (Place::Component(c, x), _) => {
            if x == 6 {
                lemma_section_apart(c, b, shape);
            } else {
                lemma_part_apart(c, x, b, shape);
            }
        },
        (Place::Fixed(i), Place::Fixed(j)) => {
            if i < j {
                lemma_fixed_apart(i, j);
            } else {
                lemma_fixed_apart(j, i);
                lemma_same_place_len(fixed_spot(i), fixed_spot(j));
            }
        },
        (Place::Fixed(j), Place::Model(i)) => {
            lemma_fixed_model_apart(j, i);
        },
        (Place::Model(i), Place::Fixed(j)) => {
            lemma_fixed_model_apart(j, i);
        },
        (Place::Model(i), Place::Model(j)) => {
            if same_place(model_path(i), model_path(j)) {
                lemma_models_apart(i, j);
            }
        },
    }
}

/// What the fixed stream `j` of a library holds.
pub open spec fn fixed_data(library: PcblibModel, params: Seq<char>, j: int) -> Seq<u8> {
    if j == 0 {
        pcblib_header_stream()
    } else if j == 2 {
        le_bytes(1)
    } else if j == 3 {
        library_data_stream(params, footprint_names(library.components))
    } else if j == 4 {
        le_bytes((library.models.len() as i32) as u32)
    } else if j == 5 {
        models_stream(library.models)
    } else if j == 6 || j == 8 {
        le_bytes(0)
    } else {
        Seq::empty()
    }
}

/// What the stream `x` of a component holds.
pub open spec fn component_data(component: FootprintModel, x: int) -> Seq<u8> {
    if x == 0 || x == 4 {
        le_bytes(component.primitive_count as u32)
    } else if x == 1 {
        component.parameters
    } else if x == 2 {
        component.wide_strings
    } else if x == 3 {
        component.data
    } else {
        component.unique_id_primitive_information
    }
}

/// Whether `streams` are those of a footprint library with these records and
/// this text of parameters.
pub open spec fn holds_pcblib(streams: Streams, library: PcblibModel, params: Seq<char>) -> bool {
    let names = footprint_names(library.components);
    let keys = section_keys(names);
    let renamed = renamed_keys(names, keys);
    &&& forall|j: int|
        0 <= j < 10 && j != 1 ==> stream_at(streams, #[trigger] fixed_path(j)) == Some(
            fixed_data(library, params, j),
        )
    &&& if renamed.len() > 0 {
        stream_at(streams, "/SectionKeys"@) == Some(pcblib_keys_stream(renamed))
    } else {
        !streams.contains_key("/SectionKeys"@)
    }
    &&& forall|i: int|
        0 <= i < library.models.len() ==> stream_at(
            streams,
            #[trigger] model_path(i as nat),
        ) == Some(library.models[i].stream)
    &&& forall|c: int, x: int|
        0 <= c < library.components.len() && 0 <= x < 6 ==> stream_at(
            streams,
            section_path(#[trigger] keys[c], #[trigger] component_stream(x)),
        ) == Some(component_data(library.components[c], x))
}

/// The names in the root of a footprint library besides those of the components.
pub open spec fn pcblib_taken(has_keys: bool) -> Seq<Seq<char>> {
    if has_keys {
        seq!["FileHeader"@, "Library"@, "SectionKeys"@]
    } else {
        seq!["FileHeader"@, "Library"@]
    }
}

/// Whether the names of the components are such that one file can hold them all.
pub open spec fn pcblib_fits(library: PcblibModel) -> bool {
    let names = footprint_names(library.components);
    let keys = section_keys(names);
    keys_fit(keys, pcblib_taken(renamed_keys(names, keys).len() > 0))
}

/// What a component counts for in a footprint library.
pub open spec fn component_size(component: FootprintModel) -> nat {
    8 * ENTRY_COST as nat + component_data(component, 0).len() + component_data(component, 1).len()
        + component_data(component, 2).len() + component_data(component, 3).len()
        + component_data(component, 4).len() + component_data(component, 5).len()
}

/// What components count for together.
pub open spec fn components_size(components: Seq<FootprintModel>) -> nat
    decreases components.len(),
{
    if components.len() == 0 {
        0
    } else {
        components_size(components.drop_last()) + component_size(components.last())
    }
}

/// What the streams of models count for together.
pub open spec fn models_size(models: Seq<StepModel>) -> nat
    decreases models.len(),
{
    if models.len() == 0 {
        0
    } else {
        models_size(models.drop_last()) + ENTRY_COST as nat + models.last().stream.len()
    }
}

/// What a footprint library counts for at most without its models and components.
pub open spec fn frame_size(library: PcblibModel, params: Seq<char>) -> nat {
    let names = footprint_names(library.components);
    let renamed = renamed_keys(names, section_keys(names));
    14 * ENTRY_COST as nat + fixed_data(library, params, 0).len() + pcblib_keys_stream(
        renamed,
    ).len() + fixed_data(library, params, 2).len() + fixed_data(library, params, 3).len()
        + fixed_data(library, params, 4).len() + fixed_data(library, params, 5).len() + fixed_data(
        library,
        params,
        6,
    ).len() + fixed_data(library, params, 7).len() + fixed_data(library, params, 8).len()
        + fixed_data(library, params, 9).len()
}

/// What a footprint library counts for at most as the content of a compound file.
pub open spec fn pcblib_size(library: PcblibModel, params: Seq<char>) -> nat {
    frame_size(library, params) + models_size(library.models) + components_size(library.components)
}

proof fn lemma_models_size(models: Seq<StepModel>, n: int)
    requires
        0 <= n <= models.len(),
    ensures
        models_size(models.take(n)) <= models_size(models),
    decreases models.len() - n,
{
    if n < models.len() {
        lemma_models_size(models, n + 1);
        assert(models.take(n + 1).drop_last() =~= models.take(n));
    } else {
        assert(models.take(n) =~= models);
    }
}

proof fn lemma_components_size(components: Seq<FootprintModel>, n: int)
    requires
        0 <= n <= components.len(),
    ensures
        components_size(components.take(n)) <= components_size(components),
    decreases components.len() - n,
{
    if n < components.len() {
        lemma_components_size(components, n + 1);
        assert(components.take(n + 1).drop_last() =~= components.take(n));
    } else {
        assert(components.take(n) =~= components);
    }
}

/// Whether a footprint library is small enough to be written.
pub fn pcblib_has_room(library: &PcblibRecordLibrary, params: &str) -> (r: bool)
    ensures
        r == (pcblib_size(library@, params@) <= CONTENT_LIMIT),
{
    let limit: u128 = CONTENT_LIMIT as u128;
    let entry: u128 = ENTRY_COST as u128;
    let names = footprint_name_list(library);
    let sections = collect_sections(&names);
    let section_pairs = collect_section_key_pairs(&names, &sections);
    let header: u128 = pcblib_file_header_bytes().len() as u128;
    let keys: u128 = pcblib_section_keys_bytes(section_pairs.as_slice()).len() as u128;
    let data: u128 = pcblib_library_data_bytes(library, params).len() as u128;
    let models: u128 = pcblib_models_data_bytes(library.models.as_slice()).len() as u128;
    let mut total: u128 = 14 * entry + header + keys + 4 + data + 4 + models + 4 + 4;
    assert(total == frame_size(library@, params@));
    let ghost all_models = library@.models;
    let ghost all_components = library@.components;
    let mut i: usize = 0;
    while i < library.models.len()
        invariant
            i <= library.models@.len(),
            limit == CONTENT_LIMIT,
            entry == ENTRY_COST,
            all_models == library@.models,
            all_components == library@.components,
            total == frame_size(library@, params@) + models_size(all_models.take(i as int)),
            total <= limit || i == 0 && total < 0x8_0000_0000_0000_0000,
        decreases library.models.len() - i,
    {
        proof {
            assert(all_models.take(i + 1).drop_last() =~= all_models.take(i as int));
            assert(all_models.take(i + 1).last() == library.models@[i as int]@);
            lemma_models_size(all_models, i + 1);
        }
        total += entry + library.models[i].stream.len() as u128;
        if total > limit {
            return false;
        }
        i += 1;
    }
    assert(all_models.take(i as int) =~= all_models);
    let mut i: usize = 0;
    while i < library.components.len()
        invariant
            i <= library.components@.len(),
            limit == CONTENT_LIMIT,
            entry == ENTRY_COST,
            all_models == library@.models,
            all_components == library@.components,
            total == frame_size(library@, params@) + models_size(all_models) + components_size(
                all_components.take(i as int),
            ),
            total <= limit || i == 0 && total < 0x8_0000_0000_0000_0000,
        decreases library.components.len() - i,
    {
        let component = &library.components[i];
        proof {
            assert(all_components.take(i + 1).drop_last() =~= all_components.take(i as int));
            assert(all_components.take(i + 1).last() == component@);
            lemma_components_size(all_components, i + 1);
        }
        total += 8 * entry + 4 + component.parameters.len() as u128
            + component.wide_strings.len() as u128 + component.data.len() as u128 + 4
            + component.unique_id_primitive_information.len() as u128;
        if total > limit {
            return false;
        }
        i += 1;
    }
    assert(all_components.take(i as int) =~= all_components);
    total <= limit
}

/// What belongs at `place` in a library: the data of a stream, or `None` for a
/// storage.
spec fn contents_at(
    library: PcblibModel,
    params: Seq<char>,
    keys: Seq<Seq<char>>,
    place: Place,
) -> Option<Seq<u8>> {
    match place {
        Place::Fixed(j) => if j == 1 {
            Some(pcblib_keys_stream(renamed_keys(footprint_names(library.components), keys)))
        } else if j < 10 {
            Some(fixed_data(library, params, j))
        } else {
            None
        },
        Place::Model(i) => Some(library.models[i as int].stream),
        Place::Component(c, x) => if x < 6 {
            Some(component_data(library.components[c], x))
        } else {
            None
        },
    }
}

/// A library under way: what is being written, under which keys, what of it is
/// done, the tree that this makes, how many components have their storage, and
/// how much there is in it.
struct Job {
    library: PcblibModel,
    params: Seq<char>,
    keys: Seq<Seq<char>>,
    done: Set<Place>,
    tree: Tree,
    components: int,
    content: nat,
}

spec fn shape_of(job: Job) -> Shape {
    Shape {
        keys: job.keys,
        models: job.library.models.len(),
        components: job.components,
        has_keys: renamed_keys(footprint_names(job.library.components), job.keys).len() > 0,
    }
}

spec fn contents_of(job: Job, place: Place) -> Option<Seq<u8>> {
    contents_at(job.library, job.params, job.keys, place)
}

/// Whether the tree holds what belongs at the places that are done, and no more.
spec fn in_order(job: Job) -> bool {
    &&& keys_apart(shape_of(job))
    &&& forall|p: Seq<char>| #[trigger]
        job.tree.contains_key(p) ==> exists|place: Place| #[trigger]
            job.done.contains(place) && place_path(place, job.keys) == p
    &&& forall|place: Place| #[trigger]
        job.done.contains(place) ==> {
            &&& is_place(place, shape_of(job))
            &&& job.tree.contains_key(place_path(place, job.keys))
            &&& job.tree[place_path(place, job.keys)] == contents_of(job, place)
        }
}

spec fn on_track(compound: Compound, job: Job) -> bool {
    in_order(job) && holds_tree(compound, job.tree, job.content)
}

/// What a place counts for.
spec fn place_size(job: Job, place: Place) -> nat {
    ENTRY_COST as nat + match contents_of(job, place) {
        Some(data) => data.len(),
        None => 0,
    }
}

/// The library with one place more done.
spec fn with_place(job: Job, place: Place) -> Job {
    Job {
        done: job.done.insert(place),
        tree: job.tree.insert(place_path(place, job.keys), contents_of(job, place)),
        content: job.content + place_size(job, place),
        ..job
    }
}

/// Whether `place` can be done next.
spec fn is_next(job: Job, place: Place) -> bool {
    &&& is_place(place, shape_of(job))
    &&& !job.done.contains(place)
    &&& parent_place(place) matches Some(parent) ==> job.done.contains(parent)
    &&& job.content + place_size(job, place) <= CONTENT_LIMIT
}

/// A place that can be done next is free, and doing it keeps the order.
proof fn lemma_place_done(job: Job, place: Place)
    requires
        in_order(job),
        is_next(job, place),
    ensures
        is_plain_path(place_path(place, job.keys)),
        is_rooted(job.tree, place_path(place, job.keys)),
        is_free(job.tree, place_path(place, job.keys)),
        in_order(with_place(job, place)),
{
    let shape = shape_of(job);
    let path = place_path(place, job.keys);
    let next = with_place(job, place);
    lemma_place_plain(place, shape);
    lemma_place_parent(place, shape);
    assert(is_rooted(job.tree, path)) by {
        let parent = parent_path(place, job.keys);
        let name = place_name(place, job.keys);
        assert(path == child_path(parent, name));
        if let Some(above) = parent_place(place) {
            assert(job.done.contains(above));
        }
    }
    assert forall|p: Seq<char>| #[trigger] job.tree.contains_key(p) implies !same_place(p, path) by {
        let other = choose|other: Place| #[trigger]
            job.done.contains(other) && place_path(other, job.keys) == p;
        lemma_places_apart(other, place, shape);
    }
    assert forall|p: Seq<char>| #[trigger] next.tree.contains_key(p) implies exists|other: Place|
        #[trigger] next.done.contains(other) && place_path(other, next.keys) == p by {
        if p == path {
            assert(next.done.contains(place));
        } else {
            let other = choose|other: Place| #[trigger]
                job.done.contains(other) && place_path(other, job.keys) == p;
            assert(next.done.contains(other));
        }
    }
    assert forall|other: Place| #[trigger] next.done.contains(other) implies {
        &&& is_place(other, shape_of(next))
        &&& next.tree.contains_key(place_path(other, next.keys))
        &&& next.tree[place_path(other, next.keys)] == contents_of(next, other)
    } by {
        if other != place {
            assert(job.done.contains(other));
            lemma_places_apart(other, place, shape);
        }
    }
}

/// Writes `data` at a place where it belongs.
fn put(compound: &mut Compound, path: &str, data: &[u8], job: Ghost<Job>, place: Ghost<Place>) -> (r:
    Result<(), AppError>)
    requires
        on_track(*old(compound), job@),
        is_next(job@, place@),
        path@ == place_path(place@, job@.keys),
        contents_of(job@, place@) == Some(data@),
    ensures
        r is Ok,
        on_track(*final(compound), with_place(job@, place@)),
{
    proof {
        lemma_place_done(job@, place@);
    }
    let r = add_stream(compound, path, data, Ghost(job@.tree), Ghost(job@.content));
    assert(!storage_in(job@.tree, path@));
    r
}

/// Creates a storage of the library itself, or one inside a component's.
fn make_storage(compound: &mut Compound, path: &str, job: Ghost<Job>, place: Ghost<Place>) -> (r:
    Result<(), AppError>)
    requires
        on_track(*old(compound), job@),
        is_next(job@, place@),
        path@ == place_path(place@, job@.keys),
        contents_of(job@, place@) is None,
    ensures
        r is Ok,
        on_track(*final(compound), with_place(job@, place@)),
{
    proof {
        lemma_place_done(job@, place@);
        lemma_plain_fits(path@);
    }
    add_storage(compound, path, Ghost(job@.tree), Ghost(job@.content))
}

fn footprint_name_list(library: &PcblibRecordLibrary) -> (names: Vec<String>)
    ensures
        views(names@) == footprint_names(library@.components),
{
    let mut names: Vec<String> = Vec::new();
    let mut i: usize = 0;
    while i < library.components.len()
        invariant
            i <= library.components@.len(),
            views(names@) == footprint_names(library@.components).take(i as int),
        decreases library.components.len() - i,
    {
        let ghost before = views(names@);
        names.push(library.components[i].name.clone());
        assert(views(names@) =~= before.push(library.components@[i as int].name@));
        i += 1;
    }
    assert(views(names@) =~= footprint_names(library@.components));
    names
}

/// Whether everything in the root is done, as far as the components go that have
/// their storage.
spec fn root_done(job: Job) -> bool {
    &&& job.done.contains(Place::Fixed(0))
    &&& job.done.contains(Place::Fixed(10))
    &&& shape_of(job).has_keys ==> job.done.contains(Place::Fixed(1))
    &&& forall|d: int|
        0 <= d < job.components ==> #[trigger] job.done.contains(Place::Component(d, 6))
}

/// With its place in the root free, the next component joins those that are apart.
proof fn lemma_component_joins(job: Job)
    requires
        in_order(job),
        root_done(job),
        0 <= job.components < job.keys.len(),
        is_plain_name(job.keys[job.components]),
        is_free(job.tree, root_path(job.keys[job.components])),
    ensures
        in_order(Job { components: job.components + 1, ..job }),
{
    let c = job.components;
    let next = Job { components: c + 1, ..job };
    let shape = shape_of(next);
    lemma_library_names();
    assert forall|d: int| 0 <= d < c + 1 implies {
        &&& is_plain_name(#[trigger] shape.keys[d])
        &&& !same_place(root_path("Library"@), root_path(shape.keys[d]))
        &&& !same_place(root_path("FileHeader"@), root_path(shape.keys[d]))
        &&& shape.has_keys ==> !same_place(root_path("SectionKeys"@), root_path(shape.keys[d]))
    } by {
        if d == c {
            assert(job.done.contains(Place::Fixed(0)));
            assert(job.done.contains(Place::Fixed(10)));
            assert(job.tree.contains_key(place_path(Place::Fixed(0), job.keys)));
            assert(job.tree.contains_key(place_path(Place::Fixed(10), job.keys)));
            if shape.has_keys {
                assert(job.done.contains(Place::Fixed(1)));
                assert(job.tree.contains_key(place_path(Place::Fixed(1), job.keys)));
            }
        } else {
            assert(is_plain_name(shape_of(job).keys[d]));
        }
    }
    assert forall|d: int, e: int| 0 <= d < e < c + 1 implies !same_place(
        root_path(#[trigger] shape.keys[d]),
        root_path(#[trigger] shape.keys[e]),
    ) by {
        if e == c {
            assert(job.done.contains(Place::Component(d, 6)));
            assert(job.tree.contains_key(place_path(Place::Component(d, 6), job.keys)));
        } else {
            assert(!same_place(root_path(shape_of(job).keys[d]), root_path(shape_of(job).keys[e])));
        }
    }
    assert forall|place: Place| #[trigger] next.done.contains(place) implies {
        &&& is_place(place, shape)
        &&& next.tree.contains_key(place_path(place, next.keys))
        &&& next.tree[place_path(place, next.keys)] == contents_of(next, place)
    } by {
        assert(job.done.contains(place));
        assert(contents_of(next, place) == contents_of(job, place));
    }
    assert forall|p: Seq<char>| #[trigger] next.tree.contains_key(p) implies exists|place: Place|
        #[trigger] next.done.contains(place) && place_path(place, next.keys) == p by {
        let place = choose|place: Place| #[trigger]
            job.done.contains(place) && place_path(place, job.keys) == p;
        assert(next.done.contains(place));
    }
}

/// A key whose place is taken keeps the components from fitting in one file.
proof fn lemma_key_clashes(job: Job, c: int)
    requires
        in_order(job),
        0 <= job.components <= c < job.keys.len(),
        is_plain_name(job.keys[c]),
        !is_free(job.tree, root_path(job.keys[c])),
    ensures
        !keys_fit(job.keys, pcblib_taken(shape_of(job).has_keys)),
{
    let key = job.keys[c];
    let path = root_path(key);
    let shape = shape_of(job);
    let taken = pcblib_taken(shape.has_keys);
    lemma_library_names();
    lemma_plain_name_slash_free(key);
    let p = choose|p: Seq<char>| #[trigger] job.tree.contains_key(p) && same_place(p, path);
    let place = choose|place: Place| #[trigger]
        job.done.contains(place) && place_path(place, job.keys) == p;
    assert(is_place(place, shape));
    if place_depth(place) > 0 {
        lemma_section_above(key, place, shape);
    }
    match place {
        Place::Fixed(j) => {
            if j == 0 {
                lemma_same_root("FileHeader"@, key);
                assert(same_place(taken[0], job.keys[c]));
            } else if j == 1 {
                lemma_same_root("SectionKeys"@, key);
                assert(same_place(taken[2], job.keys[c]));
            } else {
                lemma_same_root("Library"@, key);
                assert(same_place(taken[1], job.keys[c]));
            }
        },
        Place::Model(i) => {},
        Place::Component(d, x) => {
            lemma_same_root(job.keys[d], key);
            assert(same_place(job.keys[d], job.keys[c]));
        },
    }
}

/// Components that all have a storage fit in one file.
proof fn lemma_keys_fit(job: Job)
    requires
        in_order(job),
        job.components == job.keys.len(),
    ensures
        keys_fit(job.keys, pcblib_taken(shape_of(job).has_keys)),
{
    let keys = job.keys;
    let shape = shape_of(job);
    let taken = pcblib_taken(shape.has_keys);
    assert forall|i: int| 0 <= i < keys.len() implies #[trigger] keys[i] != seq!['.'] && keys[i]
        != seq!['.', '.'] by {
        assert(is_plain_name(shape.keys[i]));
    }
    assert forall|i: int, t: int| 0 <= i < keys.len() && 0 <= t < taken.len() implies !same_place(
        #[trigger] taken[t],
        #[trigger] keys[i],
    ) by {
        assert(is_plain_name(shape.keys[i]));
        lemma_same_root(taken[t], keys[i]);
    }
    assert forall|i: int, j: int| 0 <= i < j < keys.len() implies !same_place(
        #[trigger] keys[i],
        #[trigger] keys[j],
    ) by {
        assert(!same_place(root_path(shape.keys[i]), root_path(shape.keys[j])));
        lemma_same_root(keys[i], keys[j]);
    }
}

/// Creates the storage of the next component.
fn make_section(compound: &mut Compound, key: &str, job: Ghost<Job>) -> (r: Result<
    Ghost<Job>,
    AppError,
>)
    requires
        on_track(*old(compound), job@),
        root_done(job@),
        0 <= job@.components < job@.keys.len(),
        is_key(key@),
        key@.len() <= 31,
        key@ == job@.keys[job@.components],
        job@.content + ENTRY_COST <= CONTENT_LIMIT,
    ensures
        match r {
            Ok(next) => {
                &&& on_track(*final(compound), next@)
                &&& next@ == with_place(
                    Job { components: job@.components + 1, ..job@ },
                    Place::Component(job@.components, 6),
                )
            },
            Err(e) => e.failure() == Failure::Io && !keys_fit(
                job@.keys,
                pcblib_taken(shape_of(job@).has_keys),
            ),
        },
{
    let ghost c = job@.components;
    let ghost wider = Job { components: c + 1, ..job@ };
    let ghost place = Place::Component(c, 6);
    let path = root_path_text(key);
    proof {
        lemma_fit_root(key@);
        assert(root_path(seq!['.']) =~= seq!['/', '.']);
        assert(root_path(seq!['.', '.']) =~= seq!['/', '.', '.']);
        if is_plain_name(key@) {
            lemma_plain_root(key@);
            assert(path@ =~= child_path(Seq::empty(), key@));
        } else {
            assert(!is_plain_path(path@)) by {
                lemma_root_pieces(key@);
            }
        }
    }
    match add_storage(compound, path.as_str(), Ghost(job@.tree), Ghost(job@.content)) {
        Ok(_) => {
            proof {
                lemma_component_joins(job@);
                assert(!job@.done.contains(place)) by {
                    if job@.done.contains(place) {
                        assert(is_place(place, shape_of(job@)));
                    }
                }
                assert(is_next(wider, place));
                lemma_place_done(wider, place);
            }
            Ok(Ghost(with_place(wider, place)))
        },
        Err(e) => {
            proof {
                if is_plain_name(key@) {
                    lemma_key_clashes(job@, c);
                } else {
                    assert(job@.keys[c] == seq!['.'] || job@.keys[c] == seq!['.', '.']);
                }
            }
            Err(e)
        },
    }
}

/// Writes the storage and the streams of one component.
fn write_component(
    compound: &mut Compound,
    component: &PcblibComponentRecord,
    key: &str,
    job: Ghost<Job>,
) -> (r: Result<Ghost<Job>, AppError>)
    requires
        on_track(*old(compound), job@),
        root_done(job@),
        0 <= job@.components < job@.keys.len() == job@.library.components.len(),
        is_key(key@),
        key@.len() <= 31,
        key@ == job@.keys[job@.components],
        component@ == job@.library.components[job@.components],
        job@.content + component_size(component@) <= CONTENT_LIMIT,
    ensures
        match r {
            Ok(next) => {
                &&& on_track(*final(compound), next@)
                &&& root_done(next@)
                &&& next@.library == job@.library
                &&& next@.params == job@.params
                &&& next@.keys == job@.keys
                &&& next@.components == job@.components + 1
                &&& next@.content == job@.content + component_size(component@)
                &&& job@.done.subset_of(next@.done)
                &&& forall|x: int|
                    0 <= x < 6 ==> #[trigger] next@.done.contains(Place::Component(job@.components, x))
            },
            Err(e) => e.failure() == Failure::Io && !keys_fit(
                job@.keys,
                pcblib_taken(shape_of(job@).has_keys),
            ),
        },
{
    let ghost c = job@.components;
    let ghost before = job@;
    let job = make_section(compound, key, job)?;
    let ghost mut now = job@;
    proof {
        assert forall|x: int| x != 6 implies !#[trigger] now.done.contains(
            Place::Component(c, x),
        ) by {
            if before.done.contains(Place::Component(c, x)) {
                assert(is_place(Place::Component(c, x), shape_of(before)));
            }
        }
    }
    let header = storage_header_bytes(component.primitive_count);
    let path = section_stream_path(key, "Header");
    let ghost place = Place::Component(c, 0);
    put(compound, path.as_str(), header.as_slice(), Ghost(now), Ghost(place))?;
    proof {
        now = with_place(now, place);
    }
    let path = section_stream_path(key, "Parameters");
    let ghost place = Place::Component(c, 1);
    put(compound, path.as_str(), component.parameters.as_slice(), Ghost(now), Ghost(place))?;
    proof {
        now = with_place(now, place);
    }
    let path = section_stream_path(key, "WideStrings");
    let ghost place = Place::Component(c, 2);
    put(compound, path.as_str(), component.wide_strings.as_slice(), Ghost(now), Ghost(place))?;
    proof {
        now = with_place(now, place);
    }
    let path = section_stream_path(key, "Data");
    let ghost place = Place::Component(c, 3);
    put(compound, path.as_str(), component.data.as_slice(), Ghost(now), Ghost(place))?;
    proof {
        now = with_place(now, place);
    }
    let path = section_stream_path(key, "UniqueIdPrimitiveInformation");
    let ghost place = Place::Component(c, 7);
    make_storage(compound, path.as_str(), Ghost(now), Ghost(place))?;
    proof {
        now = with_place(now, place);
    }
    let path = section_stream_path(key, "UniqueIdPrimitiveInformation/Header");
    let ghost place = Place::Component(c, 4);
    put(compound, path.as_str(), header.as_slice(), Ghost(now), Ghost(place))?;
    proof {
        now = with_place(now, place);
    }
    let path = section_stream_path(key, "UniqueIdPrimitiveInformation/Data");
    let ghost place = Place::Component(c, 5);
    put(
        compound,
        path.as_str(),
        component.unique_id_primitive_information.as_slice(),
        Ghost(now),
        Ghost(place),
    )?;
    proof {
        now = with_place(now, place);
        assert(root_done(now)) by {
            assert forall|d: int| 0 <= d < c + 1 implies #[trigger] now.done.contains(
                Place::Component(d, 6),
            ) by {
                if d < c {
                    assert(before.done.contains(Place::Component(d, 6)));
                }
            }
        }
    }
    Ok(Ghost(now))
}

/// Writes the stream at a fixed place.
fn put_fixed(compound: &mut Compound, path: &str, data: &[u8], job: Ghost<Job>, j: Ghost<int>) -> (r:
    Result<Ghost<Job>, AppError>)
    requires
        on_track(*old(compound), job@),
        is_next(job@, Place::Fixed(j@)),
        path@ == fixed_path(j@),
        contents_of(job@, Place::Fixed(j@)) == Some(data@),
    ensures
        r matches Ok(next) && on_track(*final(compound), next@) && next@ == with_place(
            job@,
            Place::Fixed(j@),
        ),
{
    put(compound, path, data, job, Ghost(Place::Fixed(j@)))?;
    Ok(Ghost(with_place(job@, Place::Fixed(j@))))
}

/// Creates a storage of the library, with the two streams that each of them has.
fn put_group(
    compound: &mut Compound,
    storage_path: &str,
    header_path: &str,
    header: &[u8],
    data_path: &str,
    data: &[u8],
    job: Ghost<Job>,
    g: Ghost<int>,
) -> (r: Result<Ghost<Job>, AppError>)
    requires
        on_track(*old(compound), job@),
        0 <= g@ < 4,
        storage_path@ == fixed_spot(10 + g@),
        header_path@ == fixed_path(2 + 2 * g@),
        data_path@ == fixed_path(3 + 2 * g@),
        header@ == fixed_data(job@.library, job@.params, 2 + 2 * g@),
        data@ == fixed_data(job@.library, job@.params, 3 + 2 * g@),
        g@ > 0 ==> job@.done.contains(Place::Fixed(10)),
        !job@.done.contains(Place::Fixed(10 + g@)),
        !job@.done.contains(Place::Fixed(2 + 2 * g@)),
        !job@.done.contains(Place::Fixed(3 + 2 * g@)),
        job@.content + 3 * ENTRY_COST + header@.len() + data@.len() <= CONTENT_LIMIT,
    ensures
        r matches Ok(next) && on_track(*final(compound), next@) && next@ == (Job {
            done: job@.done.insert(Place::Fixed(10 + g@)).insert(Place::Fixed(2 + 2 * g@)).insert(
                Place::Fixed(3 + 2 * g@),
            ),
            tree: next@.tree,
            content: job@.content + 3 * ENTRY_COST as nat + header@.len() + data@.len(),
            ..job@
        }),
{
    let ghost place = Place::Fixed(10 + g@);
    let ghost mut now = job@;
    make_storage(compound, storage_path, Ghost(now), Ghost(place))?;
    proof {
        now = with_place(now, place);
    }
    let ghost place = Place::Fixed(2 + 2 * g@);
    put(compound, header_path, header, Ghost(now), Ghost(place))?;
    proof {
        now = with_place(now, place);
    }
    let ghost place = Place::Fixed(3 + 2 * g@);
    put(compound, data_path, data, Ghost(now), Ghost(place))?;
    proof {
        now = with_place(now, place);
    }
    Ok(Ghost(now))
}

/// Writes the models' streams.
fn put_models(compound: &mut Compound, models: &[PcblibModelRecord], job: Ghost<Job>) -> (r: Result<
    Ghost<Job>,
    AppError,
>)
    requires
        on_track(*old(compound), job@),
        step_models(models@) == job@.library.models,
        job@.done.contains(Place::Fixed(11)),
        forall|m: nat| !#[trigger] job@.done.contains(Place::Model(m)),
        job@.content + models_size(job@.library.models) <= CONTENT_LIMIT,
    ensures
        match r {
            Ok(next) => {
                &&& on_track(*final(compound), next@)
                &&& next@ == (Job {
                    done: next@.done,
                    tree: next@.tree,
                    content: job@.content + models_size(job@.library.models),
                    ..job@
                })
                &&& forall|m: nat| #[trigger]
                    next@.done.contains(Place::Model(m)) == (m < models@.len())
                &&& forall|place: Place|
                    !(place is Model) ==> #[trigger] next@.done.contains(place)
                        == job@.done.contains(place)
            },
            Err(_) => false,
        },
{
    let ghost before = job@;
    let ghost all = job@.library.models;
    let mut job = job;
    let mut i: usize = 0;
    while i < models.len()
        invariant
            i <= models@.len(),
            all == step_models(models@),
            all == before.library.models,
            before.content + models_size(all) <= CONTENT_LIMIT,
            before.done.contains(Place::Fixed(11)),
            on_track(*compound, job@),
            job@ == (Job {
                done: job@.done,
                tree: job@.tree,
                content: before.content + models_size(all.take(i as int)),
                ..before
            }),
            forall|m: nat| #[trigger] job@.done.contains(Place::Model(m)) == (m < i),
            forall|place: Place|
                !(place is Model) ==> #[trigger] job@.done.contains(place) == before.done.contains(
                    place,
                ),
        decreases models.len() - i,
    {
        let ghost place = Place::Model(i as nat);
        proof {
            assert(all.take(i + 1).drop_last() =~= all.take(i as int));
            assert(all.take(i + 1).last() == models@[i as int]@);
            lemma_models_size(all, i + 1);
            assert(job@.done.contains(Place::Fixed(11)));
        }
        let path = indexed_word("/Library/Models/", i);
        put(compound, path.as_str(), models[i].stream.as_slice(), job, Ghost(place))?;
        job = Ghost(with_place(job@, place));
        i += 1;
    }
    assert(all.take(i as int) =~= all);
    Ok(job)
}

/// Writes everything but the components, in a compound file with nothing in it.
fn put_frame(compound: &mut Compound, library: &PcblibRecordLibrary, params: &str, pairs: &[(
    String,
    String,
)], job: Ghost<Job>) -> (r: Result<Ghost<Job>, AppError>)
    requires
        on_track(*old(compound), job@),
        job@.library == library@,
        job@.params == params@,
        job@.keys == section_keys(footprint_names(library@.components)),
        pair_views(pairs@) == renamed_keys(footprint_names(library@.components), job@.keys),
        job@.done == Set::<Place>::empty(),
        job@.components == 0,
        job@.content == 0,
        frame_size(library@, params@) + models_size(library@.models) <= CONTENT_LIMIT,
    ensures
        match r {
            Ok(next) => {
                &&& on_track(*final(compound), next@)
                &&& frame_done(next@)
                &&& next@ == (Job {
                    done: next@.done,
                    tree: next@.tree,
                    content: next@.content,
                    ..job@
                })
                &&& next@.content <= frame_size(library@, params@) + models_size(library@.models)
            },
            Err(_) => false,
        },
{
    let header = pcblib_file_header_bytes();
    let mut job = put_fixed(compound, "/FileHeader", header.as_slice(), job, Ghost(0))?;
    if pairs.len() > 0 {
        let bytes = pcblib_section_keys_bytes(pairs);
        job = put_fixed(compound, "/SectionKeys", bytes.as_slice(), job, Ghost(1))?;
    }
    let one = storage_header_bytes(1);
    let bytes = pcblib_library_data_bytes(library, params);
    let job = put_group(
        compound,
        "/Library",
        "/Library/Header",
        one.as_slice(),
        "/Library/Data",
        bytes.as_slice(),
        job,
        Ghost(0),
    )?;
    let count = storage_header_bytes(library.models.len() as i32);
    let bytes = pcblib_models_data_bytes(library.models.as_slice());
    let job = put_group(
        compound,
        "/Library/Models",
        "/Library/Models/Header",
        count.as_slice(),
        "/Library/Models/Data",
        bytes.as_slice(),
        job,
        Ghost(1),
    )?;
    let job = put_models(compound, library.models.as_slice(), job)?;
    let none: Vec<u8> = Vec::new();
    let zero = storage_header_bytes(0);
    assert(none@ =~= Seq::<u8>::empty());
    let job = put_group(
        compound,
        "/Library/Textures",
        "/Library/Textures/Header",
        zero.as_slice(),
        "/Library/Textures/Data",
        none.as_slice(),
        job,
        Ghost(2),
    )?;
    put_group(
        compound,
        "/Library/ModelsNoEmbed",
        "/Library/ModelsNoEmbed/Header",
        zero.as_slice(),
        "/Library/ModelsNoEmbed/Data",
        none.as_slice(),
        job,
        Ghost(3),
    )
}

/// Whether everything but the components is done.
spec fn frame_done(job: Job) -> bool {
    &&& root_done(job)
    &&& forall|j: int| 0 <= j < 10 && j != 1 ==> #[trigger] job.done.contains(Place::Fixed(j))
    &&& forall|m: nat|
        m < job.library.models.len() ==> #[trigger] job.done.contains(Place::Model(m))
}

/// Whether the streams of the first `n` components are done.
spec fn sections_done(job: Job, n: int) -> bool {
    forall|c: int, x: int|
        0 <= c < n && 0 <= x < 6 ==> #[trigger] job.done.contains(Place::Component(c, x))
}

/// Writes the components.
fn put_components(
    compound: &mut Compound,
    components: &[PcblibComponentRecord],
    sections: &[String],
    job: Ghost<Job>,
) -> (r: Result<Ghost<Job>, AppError>)
    requires
        on_track(*old(compound), job@),
        frame_done(job@),
        footprints(components@) == job@.library.components,
        views(sections@) == job@.keys,
        job@.keys == section_keys(footprint_names(job@.library.components)),
        job@.components == 0,
        job@.content + components_size(job@.library.components) <= CONTENT_LIMIT,
    ensures
        match r {
            Ok(next) => {
                &&& on_track(*final(compound), next@)
                &&& frame_done(next@)
                &&& sections_done(next@, components@.len() as int)
                &&& next@.library == job@.library
                &&& next@.params == job@.params
                &&& next@.keys == job@.keys
                &&& next@.components == components@.len()
            },
            Err(e) => e.failure() == Failure::Io && !pcblib_fits(job@.library),
        },
{
    let ghost before = job@;
    let ghost keys = job@.keys;
    let ghost all = job@.library.components;
    proof {
        lemma_section_keys_len(footprint_names(all));
    }
    let mut now = job;
    let mut i: usize = 0;
    while i < components.len()
        invariant
            i <= components@.len(),
            all == footprints(components@),
            before == job@,
            all == before.library.components,
            keys == before.keys,
            keys == section_keys(footprint_names(all)),
            keys.len() == all.len(),
            views(sections@) == keys,
            before.content + components_size(all) <= CONTENT_LIMIT,
            on_track(*compound, now@),
            frame_done(now@),
            sections_done(now@, i as int),
            now@.library == before.library,
            now@.params == before.params,
            now@.keys == keys,
            now@.components == i,
            now@.content == before.content + components_size(all.take(i as int)),
        decreases components.len() - i,
    {
        proof {
            assert(sections@[i as int]@ == keys[i as int]);
            law_section_key_lengths(footprint_names(all), i as int);
            assert(all.take(i + 1).drop_last() =~= all.take(i as int));
            assert(all.take(i + 1).last() == components@[i as int]@);
            lemma_components_size(all, i + 1);
        }
        let ghost last = now@;
        now = write_component(compound, &components[i], sections[i].as_str(), now)?;
        assert(sections_done(now@, i + 1)) by {
            assert forall|c: int, x: int| 0 <= c < i + 1 && 0 <= x < 6 implies #[trigger] now@.done.contains(
                Place::Component(c, x),
            ) by {
                if c < i {
                    assert(last.done.contains(Place::Component(c, x)));
                }
            }
        }
        i += 1;
    }
    Ok(now)
}

/// Writes a footprint library with these records and this text of parameters,
/// and gives its bytes.
pub fn write_pcblib_records(library: &PcblibRecordLibrary, params: &str) -> (r: Result<
    Vec<u8>,
    AppError,
>)
    requires
        pcblib_size(library@, params@) <= CONTENT_LIMIT,
    ensures
        r is Ok <==> pcblib_fits(library@),
        match r {
            Ok(image) => image_streams(image@) matches Some(streams) && holds_pcblib(
                streams,
                library@,
                params@,
            ),
            Err(e) => e.failure() == Failure::Io,
        },
{
    let mut compound = start_tree()?;
    let names = footprint_name_list(library);
    let sections = collect_sections(&names);
    proof {
        lemma_section_keys_len(footprint_names(library@.components));
    }
    let section_pairs = collect_section_key_pairs(&names, &sections);
    let job = Ghost(
        Job {
            library: library@,
            params: params@,
            keys: section_keys(footprint_names(library@.components)),
            done: Set::empty(),
            tree: Tree::empty(),
            components: 0,
            content: 0,
        },
    );
    let job = put_frame(&mut compound, library, params, section_pairs.as_slice(), job)?;
    let job = put_components(
        &mut compound,
        library.components.as_slice(),
        sections.as_slice(),
        job,
    )?;
    proof {
        lemma_keys_fit(job@);
        lemma_filled_holds(compound, job@);
    }
    finish_tree(compound, Ghost(job@.tree), Ghost(job@.content))
}

proof fn lemma_filled_holds(compound: Compound, job: Job)
    requires
        on_track(compound, job),
        job.keys == section_keys(footprint_names(job.library.components)),
        frame_done(job),
        sections_done(job, job.library.components.len() as int),
    ensures
        holds_pcblib(compound_streams(compound), job.library, job.params),
{
    let streams = compound_streams(compound);
    let keys = job.keys;
    assert forall|j: int| 0 <= j < 10 && j != 1 implies stream_at(
        streams,
        #[trigger] fixed_path(j),
    ) == Some(fixed_data(job.library, job.params, j)) by {
        assert(job.done.contains(Place::Fixed(j)));
        lemma_tree_read(compound, job.tree, job.content, fixed_path(j));
    }
    let listed = Place::Fixed(1);
    if shape_of(job).has_keys {
        assert(job.done.contains(listed));
        assert(place_path(listed, keys) == "/SectionKeys"@);
        lemma_tree_read(compound, job.tree, job.content, "/SectionKeys"@);
    } else {
        lemma_keys_absent(compound, job);
    }
    assert forall|i: int| 0 <= i < job.library.models.len() implies stream_at(
        streams,
        #[trigger] model_path(i as nat),
    ) == Some(job.library.models[i].stream) by {
        assert(job.done.contains(Place::Model(i as nat)));
        assert(place_path(Place::Model(i as nat), keys) == model_path(i as nat));
        lemma_tree_read(compound, job.tree, job.content, model_path(i as nat));
    }
    assert forall|c: int, x: int|
        0 <= c < job.library.components.len() && 0 <= x < 6 implies stream_at(
        streams,
        section_path(#[trigger] keys[c], #[trigger] component_stream(x)),
    ) == Some(component_data(job.library.components[c], x)) by {
        let path = section_path(keys[c], component_stream(x));
        assert(job.done.contains(Place::Component(c, x)));
        assert(place_path(Place::Component(c, x), keys) == path);
        lemma_tree_read(compound, job.tree, job.content, path);
    }
}

/// Where no key is renamed, there is no list of keys.
proof fn lemma_keys_absent(compound: Compound, job: Job)
    requires
        on_track(compound, job),
        !shape_of(job).has_keys,
    ensures
        !compound_streams(compound).contains_key("/SectionKeys"@),
{
    let path = "/SectionKeys"@;
    lemma_library_names();
    lemma_plain_root("SectionKeys"@);
    lemma_plain_name_slash_free("SectionKeys"@);
    if compound_streams(compound).contains_key(path) {
        assert(stream_in(job.tree, path));
        let p = choose|p: Seq<char>| #[trigger]
            job.tree.contains_key(p) && job.tree[p] is Some && same_place(p, path);
        let place = choose|place: Place| #[trigger]
            job.done.contains(place) && place_path(place, job.keys) == p;
        if place_depth(place) > 0 {
            lemma_section_above("SectionKeys"@, place, shape_of(job));
        } else {
            assert(place == Place::Fixed(0));
            lemma_fixed_apart(0, 1);
        }
    }
}

} // verus!
