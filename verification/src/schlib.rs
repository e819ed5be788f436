//! Schematic libraries: the records of their components, read from and written
//! to compound files.

use vstd::prelude::*;
use crate::compound::{
    add_storage, add_stream, child_path, compound_streams, finish_tree, holds_tree, image_streams,
    is_free, is_plain_name, is_plain_path, keys_fit, lemma_depths_differ, lemma_fit_root,
    lemma_long_name_plain, lemma_plain_child, lemma_plain_name_slash_free, lemma_plain_root,
    lemma_root_pieces, lemma_same_root, lemma_same_section, lemma_tree_read, open_compound,
    read_stream_bytes, root_path, root_path_text, same_place, start_tree, storage_in, stream_at,
    stream_in, Compound, Streams, Tree, CONTENT_LIMIT, ENTRY_COST,
};
use crate::error::{other_error, AppError, Failure};
use crate::params::{
    fitting, lookup, lookup_number, pair_views, param_value, params_text, parse_param_pairs,
    parse_usize_param, text_pairs, Pair, SchParams,
};
use crate::sections::{
    collect_section_key_pairs, collect_sections, explicit_key, is_key, key_for,
    law_section_key_lengths, lemma_section_keys_len, push_key, renamed_keys,
    resolve_section_key, section_keys, section_path, section_result, section_stream_path, with_key,
};
use crate::text::{
    all_digits, char_is_digit, chars_of, decimal, decimal_text, distinct, has_text, is_digit,
    lower_text, lowercased, parse_number, parsed_number, same_text, text_of, trim, trimmed, upper_text, views,
};
use crate::wire::{
    ansi, block_bytes, blocks_match, blocks_result, cstring, cstring_text, first_pairs_result,
    first_schlib_param_block_pairs, le_bytes, parse_block_stream, short_string, BlockAt, SchWriter,
};

verus! {

/// A component of a schematic library.
#[derive(Debug, Clone)]
pub struct SchlibRecord {
    pub name: String,
    pub description: String,
    pub header_part_count: usize,
    /// How many blocks `data` is made of.
    pub weight: usize,
    /// The part number, where the component carries one.
    pub identity: Option<String>,
    pub data: Vec<u8>,
}

/// What a [`SchlibRecord`] holds.
#[verifier::ext_equal]
pub struct SchlibModel {
    pub name: Seq<char>,
    pub description: Seq<char>,
    pub header_part_count: usize,
    pub weight: usize,
    pub identity: Option<Seq<char>>,
    pub data: Seq<u8>,
}

/// The view of an optional string.
pub open spec fn optional(text: Option<String>) -> Option<Seq<char>> {
    match text {
        Some(text) => Some(text@),
        None => None,
    }
}

impl View for SchlibRecord {
    type V = SchlibModel;

    open spec fn view(&self) -> SchlibModel {
        SchlibModel {
            name: self.name@,
            description: self.description@,
            header_part_count: self.header_part_count,
            weight: self.weight,
            identity: optional(self.identity),
            data: self.data@,
        }
    }
}

/// The views of a sequence of records.
pub open spec fn models(records: Seq<SchlibRecord>) -> Seq<SchlibModel> {
    records.map_values(|record: SchlibRecord| record@)
}

/// The names of a sequence of records.
pub open spec fn model_names(records: Seq<SchlibModel>) -> Seq<Seq<char>> {
    records.map_values(|record: SchlibModel| record.name)
}

// Part numbers

/// The part number that `value` writes: a `C` in either case and at least one
/// digit, white space around it aside. Its normal form has a capital `C`.
pub open spec fn lcsc_id(value: Seq<char>) -> Option<Seq<char>> {
    let bare = trim(value);
    if bare.len() >= 2 && (bare[0] == 'C' || bare[0] == 'c') && all_digits(bare.skip(1)) {
        Some(seq!['C'] + bare.skip(1))
    } else {
        None
    }
}

pub fn normalize_lcsc_id(value: &str) -> (r: Option<String>)
    ensures
        optional(r) == lcsc_id(value@),
{
    let bare = trimmed(value);
    let chars = chars_of(bare.as_str());
    if chars.len() < 2 || (chars[0] != 'C' && chars[0] != 'c') {
        return None;
    }
    let mut i: usize = 1;
    while i < chars.len()
        invariant
            1 <= i <= chars@.len(),
            chars@ == bare@,
            bare@ == trim(value@),
            forall|k: int| 0 <= k < i - 1 ==> char_digit_at(bare@.skip(1), k),
        decreases chars.len() - i,
    {
        if !char_is_digit(chars[i]) {
            assert(!char_digit_at(bare@.skip(1), i - 1));
            return None;
        }
        i += 1;
    }
    proof {
        let digits = bare@.skip(1);
        assert forall|k: int| 0 <= k < digits.len() implies crate::text::is_digit(
            #[trigger] digits[k],
        ) by {
            assert(char_digit_at(digits, k));
        }
    }
    let digits = text_of(chars.as_slice(), 1, chars.len());
    assert(digits@ =~= bare@.skip(1));
    let mut id = String::new();
    id.push('C');
    id.append(digits.as_str());
    assert(id@ =~= seq!['C'] + bare@.skip(1));
    Some(id)
}

/// A part number in its normal form stays as it is.
pub proof fn law_lcsc_id_normal(value: Seq<char>)
    ensures
        lcsc_id(value) matches Some(id) ==> lcsc_id(id) == Some(id),
{
    if let Some(id) = lcsc_id(value) {
        let digits = trim(value).skip(1);
        assert(id.last() == digits.last());
        assert(is_digit(digits.last()));
        assert(trim(id) == id);
        assert(id.skip(1) =~= digits);
    }
}

spec fn char_digit_at(text: Seq<char>, i: int) -> bool {
    crate::text::is_digit(text[i])
}

/// Whether a parameter of the name `name` holds a part number.
pub open spec fn is_identity_name(name: Seq<char>) -> bool {
    let name = lower_text(trim(name));
    ||| name == "npnp_component_id"@
    ||| name == "supplier part"@
    ||| name == "supplier part number"@
    ||| name == "lcsc id"@
}

pub fn matches_param_name(name: &str) -> (r: bool)
    ensures
        r == is_identity_name(name@),
{
    let bare = trimmed(name);
    let small = lowercased(bare.as_str());
    let small = small.as_str();
    same_text(small, "npnp_component_id") || same_text(small, "supplier part") || same_text(
        small,
        "supplier part number",
    ) || same_text(small, "lcsc id")
}

/// The part number that the parameters of one block give.
pub open spec fn pairs_identity(pairs: Seq<Pair>) -> Option<Seq<char>> {
    match (lookup(pairs, "NAME"@), lookup(pairs, "TEXT"@)) {
        (Some(name), Some(value)) => if is_identity_name(name) {
            lcsc_id(value)
        } else {
            None
        },
        _ => None,
    }
}

pub fn extract_schlib_identity(pairs: &[(String, String)]) -> (r: Option<String>)
    ensures
        optional(r) == pairs_identity(pair_views(pairs@)),
{
    match param_value(pairs, "NAME") {
        Some(name) => match param_value(pairs, "TEXT") {
            Some(value) => if matches_param_name(name) {
                normalize_lcsc_id(value)
            } else {
                None
            },
            None => None,
        },
        None => None,
    }
}

// The data of one component

/// The parameters of a block of component data.
pub open spec fn block_pairs(block: BlockAt) -> Seq<Pair> {
    text_pairs(cstring(block.payload))
}

/// Whether a block holds the parameters of the component itself.
pub open spec fn is_component_block(block: BlockAt) -> bool {
    block.flags == 0 && lookup(block_pairs(block), "RECORD"@) == Some("1"@)
}

/// The description that the last component block with one gives, or an empty one.
pub open spec fn blocks_description(blocks: Seq<BlockAt>) -> Seq<char>
    decreases blocks.len(),
{
    if blocks.len() == 0 {
        Seq::empty()
    } else {
        let description = lookup(block_pairs(blocks.last()), "COMPONENTDESCRIPTION"@);
        if is_component_block(blocks.last()) && description is Some {
            description->0
        } else {
            blocks_description(blocks.drop_last())
        }
    }
}

/// The part count that a component block gives.
pub open spec fn block_part_count(block: BlockAt) -> Option<usize> {
    match lookup(block_pairs(block), "PARTCOUNT"@) {
        Some(value) => fitting(parsed_number(value)),
        None => None,
    }
}

/// The part count that the last component block with one gives, or 2.
pub open spec fn blocks_part_count(blocks: Seq<BlockAt>) -> usize
    decreases blocks.len(),
{
    if blocks.len() == 0 {
        2
    } else if is_component_block(blocks.last()) && block_part_count(blocks.last()) is Some {
        block_part_count(blocks.last())->0
    } else {
        blocks_part_count(blocks.drop_last())
    }
}

/// The part number that the first block with one gives.
pub open spec fn blocks_identity(blocks: Seq<BlockAt>) -> Option<Seq<char>>
    decreases blocks.len(),
{
    if blocks.len() == 0 {
        None
    } else {
        let before = blocks_identity(blocks.drop_last());
        if before is None && blocks.last().flags == 0 {
            pairs_identity(block_pairs(blocks.last()))
        } else {
            before
        }
    }
}

/// What reading the data of the component `name` comes to.
pub open spec fn record_result(name: Seq<char>, data: Seq<u8>) -> Result<SchlibModel, Failure> {
    match blocks_result(data, 0, "SchLib component data"@) {
        Ok(blocks) => Ok(
            SchlibModel {
                name,
                description: blocks_description(blocks),
                header_part_count: blocks_part_count(blocks),
                weight: blocks.len() as usize,
                identity: blocks_identity(blocks),
                data,
            },
        ),
        Err(failure) => Err(failure),
    }
}

pub fn parse_schlib_record(name: String, data: Vec<u8>) -> (r: Result<SchlibRecord, AppError>)
    ensures
        match r {
            Ok(record) => record_result(name@, data@) == Ok::<SchlibModel, Failure>(record@),
            Err(e) => record_result(name@, data@) == Err::<SchlibModel, Failure>(e.failure()),
        },
{
    let mut description = String::new();
    let mut header_part_count: usize = 2;
    let mut identity: Option<String> = None;
    let weight: usize;
    let ghost blocks_model: Seq<BlockAt>;
    match parse_block_stream(data.as_slice(), "SchLib component data") {
        Ok(blocks) => {
            proof {
                blocks_model = blocks_result(data@, 0, "SchLib component data"@)->Ok_0;
                assert(blocks_model.take(0) =~= Seq::<BlockAt>::empty());
                assert(description@ =~= Seq::<char>::empty());
            }
            weight = blocks.len();
            let mut i: usize = 0;
            while i < blocks.len()
                invariant
                    i <= blocks@.len(),
                    blocks_match(blocks@, blocks_model),
                    description@ == blocks_description(blocks_model.take(i as int)),
                    header_part_count == blocks_part_count(blocks_model.take(i as int)),
                    optional(identity) == blocks_identity(blocks_model.take(i as int)),
                decreases blocks.len() - i,
            {
                let ghost next = blocks_model.take(i + 1);
                assert(next.drop_last() =~= blocks_model.take(i as int));
                assert(next.last() == blocks_model[i as int]);
                let block = blocks[i];
                assert(crate::wire::block_matches(blocks@[i as int], blocks_model[i as int]));
                i += 1;
                if block.flags == 0 {
                    let text = cstring_text(block.payload);
                    let pairs = parse_param_pairs(text.as_str());
                    let is_component = match param_value(pairs.as_slice(), "RECORD") {
                        Some(value) => same_text(value, "1"),
                        None => false,
                    };
                    if is_component {
                        if let Some(value) = param_value(
                            pairs.as_slice(),
                            "COMPONENTDESCRIPTION",
                        ) {
                            description = value.to_owned();
                        }
                        if let Some(value) = param_value(pairs.as_slice(), "PARTCOUNT") {
                            if let Some(count) = parse_number(value) {
                                header_part_count = count;
                            }
                        }
                    }
                    if identity.is_none() {
                        identity = extract_schlib_identity(pairs.as_slice());
                    }
                }
            }
            assert(blocks_model.take(i as int) =~= blocks_model);
        },
        Err(e) => {
            return Err(e);
        },
    }
    Ok(SchlibRecord { name, description, header_part_count, weight, identity, data })
}

// Reading a library

/// `word` with the number `index` behind it.
pub open spec fn indexed(word: Seq<char>, index: nat) -> Seq<char> {
    word + decimal(index)
}

pub fn indexed_word(word: &str, index: usize) -> (r: String)
    ensures
        r@ == indexed(word@, index as nat),
{
    let mut r = word.to_owned();
    let digits = decimal_text(index as u128);
    r.append(digits.as_str());
    r
}

/// The names under `LIBREF0`, `LIBREF1` and so on up to `n` of them, as far as
/// they are there.
pub open spec fn listed_names(pairs: Seq<Pair>, n: nat) -> Seq<Seq<char>>
    decreases n,
{
    if n == 0 {
        Seq::empty()
    } else {
        let before = listed_names(pairs, (n - 1) as nat);
        match lookup(pairs, indexed("LIBREF"@, (n - 1) as nat)) {
            Some(name) => before.push(name),
            None => before,
        }
    }
}

/// The number of components that a file header gives.
pub open spec fn component_count(pairs: Seq<Pair>) -> nat {
    match fitting(lookup_number(pairs, "COMPCOUNT"@)) {
        Some(count) => count as nat,
        None => 0,
    }
}

fn read_listed_names(pairs: &Vec<(String, String)>) -> (names: Vec<String>)
    ensures
        views(names@) == listed_names(pair_views(pairs@), component_count(pair_views(pairs@))),
{
    let count: usize = match parse_usize_param(pairs.as_slice(), "COMPCOUNT") {
        Some(count) => count,
        None => 0,
    };
    let mut names: Vec<String> = Vec::new();
    let mut i: usize = 0;
    assert(views(names@) =~= Seq::<Seq<char>>::empty());
    while i < count
        invariant
            i <= count,
            views(names@) == listed_names(pair_views(pairs@), i as nat),
        decreases count - i,
    {
        let ghost before = views(names@);
        let key = indexed_word("LIBREF", i);
        if let Some(name) = param_value(pairs.as_slice(), key.as_str()) {
            names.push(name.to_owned());
            assert(views(names@) =~= before.push(name@));
        }
        i += 1;
    }
    names
}

/// The names and section keys under `LibRef0` and `SectionKey0` and so on, up
/// to `n` of them, as far as both are there.
pub open spec fn listed_keys(pairs: Seq<Pair>, n: nat) -> Seq<Pair>
    decreases n,
{
    if n == 0 {
        Seq::empty()
    } else {
        let before = listed_keys(pairs, (n - 1) as nat);
        match (
            lookup(pairs, indexed("LibRef"@, (n - 1) as nat)),
            lookup(pairs, indexed("SectionKey"@, (n - 1) as nat)),
        ) {
            (Some(name), Some(key)) => with_key(before, name, key),
            _ => before,
        }
    }
}

/// The number of section keys that a stream of them gives.
pub open spec fn key_count(pairs: Seq<Pair>) -> nat {
    match fitting(lookup_number(pairs, "KeyCount"@)) {
        Some(count) => count as nat,
        None => 0,
    }
}

/// What reading the section keys of a schematic library comes to.
pub open spec fn schlib_keys_result(streams: Streams) -> Result<Seq<Pair>, Failure> {
    match stream_at(streams, "/SectionKeys"@) {
        Some(data) => match first_pairs_result(data, "SchLib section keys"@) {
            Ok(pairs) => Ok(listed_keys(pairs, key_count(pairs))),
            Err(failure) => Err(failure),
        },
        None => Ok(Seq::empty()),
    }
}

pub(crate) fn read_schlib_section_keys(compound: &mut Compound) -> (r: Result<
    Vec<(String, String)>,
    AppError,
>)
    ensures
        compound_streams(*final(compound)) == compound_streams(*old(compound)),
        match r {
            Ok(keys) => schlib_keys_result(compound_streams(*old(compound))) == Ok::<
                Seq<Pair>,
                Failure,
            >(pair_views(keys@)),
            Err(e) => schlib_keys_result(compound_streams(*old(compound))) == Err::<
                Seq<Pair>,
                Failure,
            >(e.failure()),
        },
{
    let mut keys: Vec<(String, String)> = Vec::new();
    assert(pair_views(keys@) =~= Seq::<Pair>::empty());
    let data = match read_stream_bytes(compound, "/SectionKeys") {
        Ok(data) => data,
        Err(_) => {
            return Ok(keys);
        },
    };
    let pairs = match first_schlib_param_block_pairs(data.as_slice(), "SchLib section keys") {
        Ok(pairs) => pairs,
        Err(e) => {
            return Err(e);
        },
    };
    let count: usize = match parse_usize_param(pairs.as_slice(), "KeyCount") {
        Some(count) => count,
        None => 0,
    };
    let mut i: usize = 0;
    while i < count
        invariant
            i <= count,
            pair_views(keys@) == listed_keys(pair_views(pairs@), i as nat),
        decreases count - i,
    {
        let name_key = indexed_word("LibRef", i);
        let section_key = indexed_word("SectionKey", i);
        if let Some(name) = param_value(pairs.as_slice(), name_key.as_str()) {
            if let Some(key) = param_value(pairs.as_slice(), section_key.as_str()) {
                push_key(&mut keys, name.to_owned(), key.to_owned());
            }
        }
        i += 1;
    }
    Ok(keys)
}

/// The section keys that a schematic library gives, none where they cannot be read.
pub open spec fn schlib_keys(streams: Streams) -> Seq<Pair> {
    match schlib_keys_result(streams) {
        Ok(keys) => keys,
        Err(_) => Seq::empty(),
    }
}

/// What reading the component at `index` comes to.
pub open spec fn component_result(streams: Streams, names: Seq<Seq<char>>, index: int) -> Result<
    SchlibModel,
    Failure,
> {
    let section = section_result(
        streams,
        names[index],
        key_for(schlib_keys(streams), names[index]),
        section_keys(names)[index],
        "Data"@,
    );
    match section {
        Ok(key) => match stream_at(streams, section_path(key, "Data"@)) {
            Some(data) => record_result(names[index], data),
            None => Err(Failure::Io),
        },
        Err(failure) => Err(failure),
    }
}

/// What reading the first `n` components comes to: all of them, or the first failure.
pub open spec fn components_result(streams: Streams, names: Seq<Seq<char>>, n: int) -> Result<
    Seq<SchlibModel>,
    Failure,
>
    decreases n,
{
    if n <= 0 {
        Ok(Seq::empty())
    } else {
        match components_result(streams, names, n - 1) {
            Ok(before) => match component_result(streams, names, n - 1) {
                Ok(record) => Ok(before.push(record)),
                Err(failure) => Err(failure),
            },
            Err(failure) => Err(failure),
        }
    }
}

/// What reading a schematic library with the given streams comes to.
pub open spec fn schlib_result(streams: Streams) -> Result<Seq<SchlibModel>, Failure> {
    match stream_at(streams, "/FileHeader"@) {
        Some(header) => match first_pairs_result(header, "SchLib file header"@) {
            Ok(pairs) => {
                let names = listed_names(pairs, component_count(pairs));
                components_result(streams, names, names.len() as int)
            },
            Err(failure) => Err(failure),
        },
        None => Err(Failure::Io),
    }
}

/// What reading the bytes `image` as a schematic library comes to.
pub open spec fn schlib_image_result(image: Seq<u8>) -> Result<Seq<SchlibModel>, Failure> {
    match image_streams(image) {
        Some(streams) => schlib_result(streams),
        None => Err(Failure::Io),
    }
}

/// Reads the records of the schematic library that the bytes `image` are.
pub fn read_schlib_records(image: &[u8]) -> (r: Result<Vec<SchlibRecord>, AppError>)
    ensures
        match r {
            Ok(records) => schlib_image_result(image@) == Ok::<Seq<SchlibModel>, Failure>(
                models(records@),
            ),
            Err(e) => schlib_image_result(image@) == Err::<Seq<SchlibModel>, Failure>(e.failure()),
        },
{
    let mut compound = match open_compound(image) {
        Ok(compound) => compound,
        Err(e) => {
            return Err(AppError::Io(e));
        },
    };
    let ghost streams = compound_streams(compound);
    let header = match read_stream_bytes(&mut compound, "/FileHeader") {
        Ok(header) => header,
        Err(e) => {
            return Err(e);
        },
    };
    let header_pairs = match first_schlib_param_block_pairs(
        header.as_slice(),
        "SchLib file header",
    ) {
        Ok(pairs) => pairs,
        Err(e) => {
            return Err(e);
        },
    };
    let names = read_listed_names(&header_pairs);
    let ghost all = views(names@);
    let derived_sections = collect_sections(&names);
    let explicit_sections = match read_schlib_section_keys(&mut compound) {
        Ok(keys) => keys,
        Err(_) => Vec::new(),
    };
    assert(pair_views(explicit_sections@) =~= schlib_keys(streams));
    let mut records: Vec<SchlibRecord> = Vec::new();
    assert(models(records@) =~= Seq::<SchlibModel>::empty());
    proof {
        crate::sections::lemma_section_keys_len(all);
    }
    let mut i: usize = 0;
    while i < names.len()
        invariant
            i <= names@.len(),
            all == views(names@),
            image_streams(image@) == Some(streams),
            schlib_result(streams) == components_result(streams, all, all.len() as int),
            compound_streams(compound) == streams,
            views(derived_sections@) == section_keys(all),
            derived_sections@.len() == all.len(),
            pair_views(explicit_sections@) == schlib_keys(streams),
            components_result(streams, all, i as int) == Ok::<Seq<SchlibModel>, Failure>(
                models(records@),
            ),
        decreases names.len() - i,
    {
        let name = names[i].as_str();
        proof {
            lemma_components_failure(streams, all, i + 1, all.len() as int);
            assert(section_keys(all)[i as int] == derived_sections@[i as int]@);
        }
        let explicit = explicit_key(&explicit_sections, name);
        let key = match resolve_section_key(
            &mut compound,
            name,
            explicit,
            derived_sections[i].as_str(),
            "Data",
        ) {
            Ok(key) => key,
            Err(e) => {
                return Err(e);
            },
        };
        let path = section_stream_path(key.as_str(), "Data");
        let data = match read_stream_bytes(&mut compound, path.as_str()) {
            Ok(data) => data,
            Err(e) => {
                return Err(e);
            },
        };
        let record = match parse_schlib_record(names[i].clone(), data) {
            Ok(record) => record,
            Err(e) => {
                return Err(e);
            },
        };
        let ghost before = models(records@);
        records.push(record);
        assert(models(records@) =~= before.push(record@));
        i += 1;
    }
    Ok(records)
}

proof fn lemma_components_failure(streams: Streams, names: Seq<Seq<char>>, m: int, n: int)
    requires
        m <= n,
    ensures
        components_result(streams, names, m) is Err ==> components_result(streams, names, n)
            == components_result(streams, names, m),
    decreases n - m,
{
    if m < n {
        lemma_components_failure(streams, names, m, n - 1);
    }
}

// Writing a library

/// The weights of a sequence of records, added up.
pub open spec fn total_weight(records: Seq<SchlibModel>) -> nat
    decreases records.len(),
{
    if records.len() == 0 {
        0
    } else {
        total_weight(records.drop_last()) + records.last().weight as nat
    }
}

/// The parameters that open the file header.
pub open spec fn sheet_params(weight: nat, count: nat) -> Seq<Pair> {
    seq![
        ("HEADER"@, "Protel for Windows - Schematic Library Editor Binary File Version 5.0"@),
        ("WEIGHT"@, decimal(weight)),
        ("MINORVERSION"@, "2"@),
        ("FONTIDCOUNT"@, "1"@),
        ("SIZE1"@, "10"@),
        ("FONTNAME1"@, "Times New Roman"@),
        ("USEMBCS"@, "T"@),
        ("ISBOC"@, "T"@),
        ("SHEETSTYLE"@, "9"@),
        ("SYSTEMFONT"@, "1"@),
        ("BORDERON"@, "T"@),
        ("SHEETNUMBERSPACESIZE"@, "12"@),
        ("AREACOLOR"@, "16317695"@),
        ("SNAPGRIDON"@, "T"@),
        ("SNAPGRIDSIZE"@, "10"@),
        ("VISIBLEGRIDON"@, "T"@),
        ("VISIBLEGRIDSIZE"@, "10"@),
        ("CUSTOMX"@, "18000"@),
        ("CUSTOMY"@, "18000"@),
        ("USECUSTOMSHEET"@, "T"@),
        ("REFERENCEZONESON"@, "T"@),
        ("DISPLAY_UNIT"@, "0"@),
        ("COMPCOUNT"@, decimal(count)),
    ]
}

/// The three parameters of each record.
pub open spec fn record_params(records: Seq<SchlibModel>) -> Seq<Pair>
    decreases records.len(),
{
    if records.len() == 0 {
        Seq::empty()
    } else {
        let i = (records.len() - 1) as nat;
        record_params(records.drop_last()) + seq![
            (indexed("LIBREF"@, i), records.last().name),
            (indexed("COMPDESCR"@, i), records.last().description),
            (indexed("PARTCOUNT"@, i), decimal(records.last().header_part_count as nat)),
        ]
    }
}

/// The parameters of the file header.
pub open spec fn header_params(records: Seq<SchlibModel>) -> Seq<Pair> {
    sheet_params(total_weight(records), records.len()) + record_params(records)
}

/// A text block with the given parameters.
pub open spec fn params_block(params: Seq<Pair>) -> Seq<u8> {
    block_bytes(0, ansi(params_text(params)) + seq![0u8])
}

/// A string block for each name.
pub open spec fn name_blocks(names: Seq<Seq<char>>) -> Seq<u8>
    decreases names.len(),
{
    if names.len() == 0 {
        Seq::empty()
    } else {
        name_blocks(names.drop_last()) + block_bytes(0, short_string(names.last()))
    }
}

/// The file header stream of a schematic library.
pub open spec fn header_stream(records: Seq<SchlibModel>) -> Seq<u8> {
    params_block(header_params(records)) + le_bytes((records.len() as i32) as u32) + name_blocks(
        model_names(records),
    )
}

fn push_sheet_params(params: &mut SchParams, weight: usize, count: usize)
    ensures
        final(params).pairs() == old(params).pairs() + sheet_params(weight as nat, count as nat),
{
    let weight_text = decimal_text(weight as u128);
    let count_text = decimal_text(count as u128);
    params.push("HEADER", "Protel for Windows - Schematic Library Editor Binary File Version 5.0");
    params.push("WEIGHT", weight_text.as_str());
    params.push("MINORVERSION", "2");
    params.push("FONTIDCOUNT", "1");
    params.push("SIZE1", "10");
    params.push("FONTNAME1", "Times New Roman");
    params.push("USEMBCS", "T");
    params.push("ISBOC", "T");
    params.push("SHEETSTYLE", "9");
    params.push("SYSTEMFONT", "1");
    params.push("BORDERON", "T");
    params.push("SHEETNUMBERSPACESIZE", "12");
    params.push("AREACOLOR", "16317695");
    params.push("SNAPGRIDON", "T");
    params.push("SNAPGRIDSIZE", "10");
    params.push("VISIBLEGRIDON", "T");
    params.push("VISIBLEGRIDSIZE", "10");
    params.push("CUSTOMX", "18000");
    params.push("CUSTOMY", "18000");
    params.push("USECUSTOMSHEET", "T");
    params.push("REFERENCEZONESON", "T");
    params.push("DISPLAY_UNIT", "0");
    params.push("COMPCOUNT", count_text.as_str());
    assert(params.pairs() =~= old(params).pairs() + sheet_params(weight as nat, count as nat));
}

proof fn lemma_weight_bound(records: Seq<SchlibModel>, n: int)
    requires
        0 <= n <= records.len(),
    ensures
        total_weight(records.take(n)) <= total_weight(records),
    decreases records.len() - n,
{
    if n < records.len() {
        lemma_weight_bound(records, n + 1);
        assert(records.take(n + 1).drop_last() =~= records.take(n));
    } else {
        assert(records.take(n) =~= records);
    }
}

/// The file header stream of a schematic library with these records.
pub fn schlib_file_header_bytes(records: &[SchlibRecord]) -> (r: Vec<u8>)
    requires
        total_weight(models(records@)) <= usize::MAX,
    ensures
        r@ == header_stream(models(records@)),
{
    let ghost all = models(records@);
    let mut weight: usize = 0;
    let mut i: usize = 0;
    assert(all.take(0) =~= Seq::<SchlibModel>::empty());
    while i < records.len()
        invariant
            i <= records@.len(),
            all == models(records@),
            total_weight(all) <= usize::MAX,
            weight == total_weight(all.take(i as int)),
        decreases records.len() - i,
    {
        proof {
            assert(all.take(i + 1).drop_last() =~= all.take(i as int));
            assert(all.take(i + 1).last() == records@[i as int]@);
            lemma_weight_bound(all, i + 1);
        }
        weight = weight + records[i].weight;
        i += 1;
    }
    assert(all.take(i as int) =~= all);
    let mut params = SchParams::default();
    push_sheet_params(&mut params, weight, records.len());
    let ghost sheet = sheet_params(total_weight(all), all.len());
    assert(params.pairs() =~= sheet + record_params(all.take(0)));
    let mut i: usize = 0;
    while i < records.len()
        invariant
            i <= records@.len(),
            all == models(records@),
            params.pairs() == sheet + record_params(all.take(i as int)),
        decreases records.len() - i,
    {
        let ghost before = params.pairs();
        proof {
            assert(all.take(i + 1).drop_last() =~= all.take(i as int));
            assert(all.take(i + 1).last() == records@[i as int]@);
        }
        let name_key = indexed_word("LIBREF", i);
        let description_key = indexed_word("COMPDESCR", i);
        let count_key = indexed_word("PARTCOUNT", i);
        let count = decimal_text(records[i].header_part_count as u128);
        params.push(name_key.as_str(), records[i].name.as_str());
        params.push(description_key.as_str(), records[i].description.as_str());
        params.push(count_key.as_str(), count.as_str());
        assert(params.pairs() =~= sheet + record_params(all.take(i + 1)));
        i += 1;
    }
    assert(all.take(i as int) =~= all);
    let mut writer = SchWriter::default();
    writer.write_cstring_param_block(&params);
    writer.write_i32(records.len() as i32);
    let ghost start = writer.data@;
    assert(start =~= params_block(header_params(all)) + le_bytes((all.len() as i32) as u32));
    let ghost names = model_names(all);
    assert(names.take(0) =~= Seq::<Seq<char>>::empty());
    assert(start + name_blocks(names.take(0)) =~= start);
    let mut i: usize = 0;
    while i < records.len()
        invariant
            i <= records@.len(),
            names == model_names(models(records@)),
            writer.data@ == start + name_blocks(names.take(i as int)),
        decreases records.len() - i,
    {
        proof {
            assert(names.take(i + 1).drop_last() =~= names.take(i as int));
            assert(names.take(i + 1).last() == records@[i as int].name@);
        }
        writer.write_string_block(records[i].name.as_str());
        assert(writer.data@ =~= start + name_blocks(names.take(i + 1)));
        i += 1;
    }
    assert(names.take(i as int) =~= names);
    writer.into_inner()
}

/// The parameters that list section keys.
pub open spec fn key_params(pairs: Seq<Pair>) -> Seq<Pair>
    decreases pairs.len(),
{
    if pairs.len() == 0 {
        Seq::empty()
    } else {
        let i = (pairs.len() - 1) as nat;
        key_params(pairs.drop_last()) + seq![
            (indexed("LibRef"@, i), pairs.last().0),
            (indexed("SectionKey"@, i), pairs.last().1),
        ]
    }
}

/// The section key stream of a schematic library.
pub open spec fn keys_stream(pairs: Seq<Pair>) -> Seq<u8> {
    params_block(seq![("KeyCount"@, decimal(pairs.len()))] + key_params(pairs))
}

pub fn schlib_section_keys_bytes(pairs: &[(String, String)]) -> (r: Vec<u8>)
    ensures
        r@ == keys_stream(pair_views(pairs@)),
{
    let ghost all = pair_views(pairs@);
    let mut params = SchParams::default();
    let count = decimal_text(pairs.len() as u128);
    params.push("KeyCount", count.as_str());
    let ghost first = seq![("KeyCount"@, decimal(all.len()))];
    assert(all.take(0) =~= Seq::<Pair>::empty());
    assert(params.pairs() =~= first + key_params(all.take(0)));
    let mut i: usize = 0;
    while i < pairs.len()
        invariant
            i <= pairs@.len(),
            all == pair_views(pairs@),
            params.pairs() == first + key_params(all.take(i as int)),
        decreases pairs.len() - i,
    {
        proof {
            assert(all.take(i + 1).drop_last() =~= all.take(i as int));
            assert(all.take(i + 1).last() == (pairs@[i as int].0@, pairs@[i as int].1@));
        }
        let name_key = indexed_word("LibRef", i);
        let section_key = indexed_word("SectionKey", i);
        params.push(name_key.as_str(), pairs[i].0.as_str());
        params.push(section_key.as_str(), pairs[i].1.as_str());
        assert(params.pairs() =~= first + key_params(all.take(i + 1)));
        i += 1;
    }
    assert(all.take(i as int) =~= all);
    let mut writer = SchWriter::default();
    writer.write_cstring_param_block(&params);
    assert(writer.data@ =~= keys_stream(all));
    writer.into_inner()
}

/// The icon storage stream of a schematic library.
pub open spec fn storage_stream() -> Seq<u8> {
    params_block(seq![("HEADER"@, "Icon storage"@)])
}

pub fn schlib_storage_bytes() -> (r: Vec<u8>)
    ensures
        r@ == storage_stream(),
{
    let mut params = SchParams::default();
    params.push("HEADER", "Icon storage");
    assert(params.pairs() =~= seq![("HEADER"@, "Icon storage"@)]);
    let mut writer = SchWriter::default();
    writer.write_cstring_param_block(&params);
    assert(writer.data@ =~= storage_stream());
    writer.into_inner()
}

/// Whether `streams` are those of a schematic library with these records.
pub open spec fn holds_schlib(streams: Streams, records: Seq<SchlibModel>) -> bool {
    let names = model_names(records);
    let keys = section_keys(names);
    let renamed = renamed_keys(names, keys);
    &&& stream_at(streams, "/FileHeader"@) == Some(header_stream(records))
    &&& if renamed.len() > 0 {
        stream_at(streams, "/SectionKeys"@) == Some(keys_stream(renamed))
    } else {
        !streams.contains_key("/SectionKeys"@)
    }
    &&& forall|i: int|
        0 <= i < records.len() ==> stream_at(
            streams,
            section_path(#[trigger] keys[i], "Data"@),
        ) == Some(records[i].data)
    &&& stream_at(streams, "/Storage"@) == Some(storage_stream())
}

fn record_names(records: &[SchlibRecord]) -> (names: Vec<String>)
    ensures
        views(names@) == model_names(models(records@)),
{
    let mut names: Vec<String> = Vec::new();
    let mut i: usize = 0;
    while i < records.len()
        invariant
            i <= records@.len(),
            views(names@) == model_names(models(records@)).take(i as int),
        decreases records.len() - i,
    {
        let ghost before = views(names@);
        names.push(records[i].name.clone());
        assert(views(names@) =~= before.push(records@[i as int].name@));
        i += 1;
    }
    assert(views(names@) =~= model_names(models(records@)));
    names
}

/// The names in the root of a schematic library besides those of the components.
pub open spec fn schlib_taken(has_keys: bool) -> Seq<Seq<char>> {
    if has_keys {
        seq!["FileHeader"@, "Storage"@, "SectionKeys"@]
    } else {
        seq!["FileHeader"@, "Storage"@]
    }
}

/// Whether the names of the components are such that one file can hold them all.
pub open spec fn schlib_fits(records: Seq<SchlibModel>) -> bool {
    let names = model_names(records);
    let keys = section_keys(names);
    keys_fit(keys, schlib_taken(renamed_keys(names, keys).len() > 0))
}

/// What components count for together.
pub open spec fn records_size(records: Seq<SchlibModel>) -> nat
    decreases records.len(),
{
    if records.len() == 0 {
        0
    } else {
        records_size(records.drop_last()) + 2 * ENTRY_COST as nat + records.last().data.len()
    }
}

/// What a schematic library counts for at most as the content of a compound file.
pub open spec fn schlib_size(records: Seq<SchlibModel>) -> nat {
    let names = model_names(records);
    let renamed = renamed_keys(names, section_keys(names));
    3 * ENTRY_COST as nat + header_stream(records).len() + keys_stream(renamed).len()
        + storage_stream().len() + records_size(records)
}

proof fn lemma_records_size(records: Seq<SchlibModel>, n: int)
    requires
        0 <= n <= records.len(),
    ensures
        records_size(records.take(n)) <= records_size(records),
    decreases records.len() - n,
{
    if n < records.len() {
        lemma_records_size(records, n + 1);
        assert(records.take(n + 1).drop_last() =~= records.take(n));
    } else {
        assert(records.take(n) =~= records);
    }
}

/// Whether a schematic library is small enough to be written, and its weights
/// can be added up.
pub fn schlib_has_room(records: &[SchlibRecord]) -> (r: bool)
    ensures
        r == (total_weight(models(records@)) <= usize::MAX && schlib_size(models(records@))
            <= CONTENT_LIMIT),
{
    let ghost all = models(records@);
    let mut weight: usize = 0;
    let mut i: usize = 0;
    while i < records.len()
        invariant
            i <= records@.len(),
            all == models(records@),
            weight == total_weight(all.take(i as int)),
        decreases records.len() - i,
    {
        proof {
            assert(all.take(i + 1).drop_last() =~= all.take(i as int));
            assert(all.take(i + 1).last() == records@[i as int]@);
            lemma_weight_bound(all, i + 1);
        }
        match weight.checked_add(records[i].weight) {
            Some(sum) => {
                weight = sum;
            },
            None => {
                return false;
            },
        }
        i += 1;
    }
    assert(all.take(i as int) =~= all);
    let names = record_names(records);
    let sections = collect_sections(&names);
    let section_pairs = collect_section_key_pairs(&names, &sections);
    let limit: u128 = CONTENT_LIMIT as u128;
    let entry: u128 = ENTRY_COST as u128;
    let header: u128 = schlib_file_header_bytes(records).len() as u128;
    let keys: u128 = schlib_section_keys_bytes(section_pairs.as_slice()).len() as u128;
    let storage: u128 = schlib_storage_bytes().len() as u128;
    let mut total: u128 = 3 * entry + header + keys + storage;
    let ghost frame = total as nat;
    let mut i: usize = 0;
    while i < records.len()
        invariant
            i <= records@.len(),
            all == models(records@),
            limit == CONTENT_LIMIT,
            entry == ENTRY_COST,
            schlib_size(all) == frame + records_size(all),
            total == frame + records_size(all.take(i as int)),
            total <= limit || i == 0 && total < 0x8_0000_0000_0000_0000,
        decreases records.len() - i,
    {
        proof {
            assert(all.take(i + 1).drop_last() =~= all.take(i as int));
            assert(all.take(i + 1).last() == records@[i as int]@);
            lemma_records_size(all, i + 1);
        }
        total += 2 * entry + records[i].data.len() as u128;
        if total > limit {
            return false;
        }
        i += 1;
    }
    assert(all.take(i as int) =~= all);
    total <= limit
}

/// The streams directly under the root have plain names without slashes.
proof fn lemma_root_streams()
    ensures
        "/FileHeader"@ == root_path("FileHeader"@),
        "/SectionKeys"@ == root_path("SectionKeys"@),
        "/Storage"@ == root_path("Storage"@),
        is_plain_name("FileHeader"@),
        is_plain_name("SectionKeys"@),
        is_plain_name("Storage"@),
        is_plain_name("Data"@),
        is_plain_path("/FileHeader"@),
        is_plain_path("/SectionKeys"@),
        is_plain_path("/Storage"@),
        !"FileHeader"@.contains('/'),
        !"SectionKeys"@.contains('/'),
        !"Storage"@.contains('/'),
        !same_place("/FileHeader"@, "/SectionKeys"@),
        !same_place("/FileHeader"@, "/Storage"@),
        !same_place("/SectionKeys"@, "/Storage"@),
{
    reveal_strlit("/FileHeader");
    reveal_strlit("FileHeader");
    reveal_strlit("/SectionKeys");
    reveal_strlit("SectionKeys");
    reveal_strlit("/Storage");
    reveal_strlit("Storage");
    reveal_strlit("Data");
    assert("/FileHeader"@ =~= root_path("FileHeader"@));
    assert("/SectionKeys"@ =~= root_path("SectionKeys"@));
    assert("/Storage"@ =~= root_path("Storage"@));
    lemma_long_name_plain("FileHeader"@);
    lemma_long_name_plain("SectionKeys"@);
    lemma_long_name_plain("Storage"@);
    lemma_long_name_plain("Data"@);
    lemma_plain_root("FileHeader"@);
    lemma_plain_root("SectionKeys"@);
    lemma_plain_root("Storage"@);
    lemma_plain_name_slash_free("FileHeader"@);
    lemma_plain_name_slash_free("SectionKeys"@);
    lemma_plain_name_slash_free("Storage"@);
    assert(upper_text("/FileHeader"@).len() == 11);
    assert(upper_text("/SectionKeys"@).len() == 12);
    assert(upper_text("/Storage"@).len() == 8);
}

/// The tree of a schematic library in the making, without the last stream: the
/// header, the list of keys where there is one, and the first `n` components.
spec fn tree_under_way(records: Seq<SchlibModel>, keys: Seq<Seq<char>>, n: int) -> Tree
    decreases n,
{
    let renamed = renamed_keys(model_names(records), keys);
    if n <= 0 {
        let tree = Tree::empty().insert("/FileHeader"@, Some(header_stream(records)));
        if renamed.len() > 0 {
            tree.insert("/SectionKeys"@, Some(keys_stream(renamed)))
        } else {
            tree
        }
    } else {
        tree_under_way(records, keys, n - 1).insert(root_path(keys[n - 1]), None).insert(
            section_path(keys[n - 1], "Data"@),
            Some(records[n - 1].data),
        )
    }
}

/// Whether `p` is one of the paths in such a tree.
spec fn is_path_of(p: Seq<char>, keys: Seq<Seq<char>>, n: int, has_keys: bool) -> bool {
    ||| p == "/FileHeader"@
    ||| has_keys && p == "/SectionKeys"@
    ||| exists|i: int|
        0 <= i < n && (p == root_path(#[trigger] keys[i]) || p == section_path(keys[i], "Data"@))
}

/// Whether the first `n` keys are plain and in places of their own.
spec fn first_apart(keys: Seq<Seq<char>>, n: int, has_keys: bool) -> bool {
    &&& forall|i: int|
        0 <= i < n ==> {
            &&& is_plain_name(#[trigger] keys[i])
            &&& !same_place("/FileHeader"@, root_path(keys[i]))
            &&& has_keys ==> !same_place("/SectionKeys"@, root_path(keys[i]))
        }
    &&& forall|i: int, j: int|
        0 <= i < j < n ==> !same_place(
            root_path(#[trigger] keys[i]),
            root_path(#[trigger] keys[j]),
        )
}

/// What a tree under way holds, and at which paths.
proof fn lemma_tree_under_way(records: Seq<SchlibModel>, keys: Seq<Seq<char>>, n: int)
    requires
        0 <= n <= records.len() == keys.len(),
        first_apart(keys, n, renamed_keys(model_names(records), keys).len() > 0),
    ensures
        ({
            let renamed = renamed_keys(model_names(records), keys);
            let tree = tree_under_way(records, keys, n);
            &&& forall|p: Seq<char>| #[trigger]
                tree.contains_key(p) <==> is_path_of(p, keys, n, renamed.len() > 0)
            &&& tree["/FileHeader"@] == Some(header_stream(records))
            &&& renamed.len() > 0 ==> tree["/SectionKeys"@] == Some(keys_stream(renamed))
            &&& forall|i: int|
                0 <= i < n ==> {
                    &&& tree[root_path(#[trigger] keys[i])] is None
                    &&& tree[section_path(keys[i], "Data"@)] == Some(records[i].data)
                }
        }),
    decreases n,
{
    lemma_root_streams();
    let renamed = renamed_keys(model_names(records), keys);
    let has_keys = renamed.len() > 0;
    let tree = tree_under_way(records, keys, n);
    if n > 0 {
        let before = tree_under_way(records, keys, n - 1);
        let key = keys[n - 1];
        let path = section_path(key, "Data"@);
        lemma_tree_under_way(records, keys, n - 1);
        assert(is_plain_name(key));
        lemma_plain_name_slash_free(key);
        lemma_depths_differ("FileHeader"@, key, "Data"@);
        lemma_depths_differ("SectionKeys"@, key, "Data"@);
        lemma_depths_differ(key, key, "Data"@);
        assert(same_place(path, path) && same_place(root_path(key), root_path(key)));
        assert forall|p: Seq<char>| #[trigger] tree.contains_key(p) implies is_path_of(
            p,
            keys,
            n,
            has_keys,
        ) by {
            if p == root_path(key) || p == path {
                assert(p == root_path(keys[n - 1]) || p == section_path(keys[n - 1], "Data"@));
            } else {
                assert(before.contains_key(p));
            }
        }
        assert forall|p: Seq<char>| is_path_of(p, keys, n, has_keys) implies #[trigger] tree.contains_key(
            p,
        ) by {
            if is_path_of(p, keys, n - 1, has_keys) {
                assert(before.contains_key(p));
            } else {
                let i = choose|i: int|
                    0 <= i < n && (p == root_path(#[trigger] keys[i]) || p == section_path(
                        keys[i],
                        "Data"@,
                    ));
                assert(i == n - 1);
            }
        }
        assert forall|i: int| 0 <= i < n implies {
            &&& tree[root_path(#[trigger] keys[i])] is None
            &&& tree[section_path(keys[i], "Data"@)] == Some(records[i].data)
        } by {
            if i < n - 1 {
                assert(is_plain_name(keys[i]));
                lemma_plain_name_slash_free(keys[i]);
                lemma_depths_differ(key, keys[i], "Data"@);
                lemma_depths_differ(keys[i], key, "Data"@);
                assert(!same_place(root_path(keys[i]), root_path(keys[n - 1])));
                if path == section_path(keys[i], "Data"@) {
                    lemma_same_section(keys[i], "Data"@, key, "Data"@);
                }
                assert(before[root_path(keys[i])] is None);
            }
        }
    } else {
        assert(tree.contains_key("/FileHeader"@));
        assert forall|p: Seq<char>| is_path_of(p, keys, n, has_keys) implies #[trigger] tree.contains_key(
            p,
        ) by {}
    }
}

/// A free place in the root is one that no key and no other name is in.
proof fn lemma_root_place(
    records: Seq<SchlibModel>,
    keys: Seq<Seq<char>>,
    n: int,
    name: Seq<char>,
)
    requires
        0 <= n <= records.len() == keys.len(),
        first_apart(keys, n, renamed_keys(model_names(records), keys).len() > 0),
        is_plain_name(name),
    ensures
        ({
            let has_keys = renamed_keys(model_names(records), keys).len() > 0;
            is_free(tree_under_way(records, keys, n), root_path(name)) <==> {
                &&& !same_place("/FileHeader"@, root_path(name))
                &&& has_keys ==> !same_place("/SectionKeys"@, root_path(name))
                &&& forall|i: int|
                    0 <= i < n ==> !same_place(root_path(#[trigger] keys[i]), root_path(name))
            }
        }),
{
    let has_keys = renamed_keys(model_names(records), keys).len() > 0;
    let tree = tree_under_way(records, keys, n);
    let path = root_path(name);
    lemma_tree_under_way(records, keys, n);
    lemma_plain_name_slash_free(name);
    if is_free(tree, path) {
        assert(tree.contains_key("/FileHeader"@));
        if has_keys {
            assert(tree.contains_key("/SectionKeys"@));
        }
        assert forall|i: int| 0 <= i < n implies !same_place(root_path(#[trigger] keys[i]), path) by {
            assert(tree.contains_key(root_path(keys[i])));
        }
    } else {
        let p = choose|p: Seq<char>| #[trigger] tree.contains_key(p) && same_place(p, path);
        assert(is_path_of(p, keys, n, has_keys));
        if p != "/FileHeader"@ && !(has_keys && p == "/SectionKeys"@) {
            let i = choose|i: int|
                0 <= i < n && (p == root_path(#[trigger] keys[i]) || p == section_path(
                    keys[i],
                    "Data"@,
                ));
            lemma_depths_differ(name, keys[i], "Data"@);
        }
    }
}

/// With its storage just created, a component's stream has its place free.
proof fn lemma_data_free(records: Seq<SchlibModel>, keys: Seq<Seq<char>>, n: int)
    requires
        0 <= n < records.len() == keys.len(),
        first_apart(keys, n + 1, renamed_keys(model_names(records), keys).len() > 0),
    ensures
        is_free(
            tree_under_way(records, keys, n).insert(root_path(keys[n]), None),
            section_path(keys[n], "Data"@),
        ),
{
    let has_keys = renamed_keys(model_names(records), keys).len() > 0;
    let tree = tree_under_way(records, keys, n).insert(root_path(keys[n]), None);
    let key = keys[n];
    let path = section_path(key, "Data"@);
    lemma_root_streams();
    assert(first_apart(keys, n, has_keys));
    lemma_tree_under_way(records, keys, n);
    assert(is_plain_name(key));
    lemma_plain_name_slash_free(key);
    assert forall|p: Seq<char>| #[trigger] tree.contains_key(p) implies !same_place(p, path) by {
        lemma_depths_differ("FileHeader"@, key, "Data"@);
        lemma_depths_differ("SectionKeys"@, key, "Data"@);
        lemma_depths_differ(key, key, "Data"@);
        if p != root_path(key) {
            assert(is_path_of(p, keys, n, has_keys));
            if p != "/FileHeader"@ && !(has_keys && p == "/SectionKeys"@) {
                let i = choose|i: int|
                    0 <= i < n && (p == root_path(#[trigger] keys[i]) || p == section_path(
                        keys[i],
                        "Data"@,
                    ));
                assert(is_plain_name(keys[i]));
                lemma_plain_name_slash_free(keys[i]);
                lemma_depths_differ(keys[i], key, "Data"@);
                if same_place(section_path(keys[i], "Data"@), path) {
                    lemma_same_section(keys[i], "Data"@, key, "Data"@);
                    assert(!same_place(root_path(keys[i]), root_path(keys[n])));
                }
            }
        }
    }
}

/// Writes the storage and the stream of the component at `n`.
fn put_record(
    compound: &mut Compound,
    key: &str,
    data: &[u8],
    records: Ghost<Seq<SchlibModel>>,
    keys: Ghost<Seq<Seq<char>>>,
    n: Ghost<int>,
    content: Ghost<nat>,
) -> (r: Result<(), AppError>)
    requires
        0 <= n@ < records@.len() == keys@.len(),
        holds_tree(*old(compound), tree_under_way(records@, keys@, n@), content@),
        first_apart(keys@, n@, renamed_keys(model_names(records@), keys@).len() > 0),
        key@ == keys@[n@],
        is_key(key@),
        key@.len() <= 31,
        data@ == records@[n@].data,
        content@ + 2 * ENTRY_COST + data@.len() <= CONTENT_LIMIT,
    ensures
        match r {
            Ok(_) => {
                &&& holds_tree(
                    *final(compound),
                    tree_under_way(records@, keys@, n@ + 1),
                    content@ + 2 * ENTRY_COST as nat + data@.len(),
                )
                &&& first_apart(
                    keys@,
                    n@ + 1,
                    renamed_keys(model_names(records@), keys@).len() > 0,
                )
            },
            Err(e) => e.failure() == Failure::Io && !keys_fit(
                keys@,
                schlib_taken(renamed_keys(model_names(records@), keys@).len() > 0),
            ),
        },
{
    let ghost tree = tree_under_way(records@, keys@, n@);
    let ghost has_keys = renamed_keys(model_names(records@), keys@).len() > 0;
    let storage = root_path_text(key);
    proof {
        lemma_root_streams();
        lemma_fit_root(key@);
        assert(root_path(seq!['.']) =~= seq!['/', '.']);
        assert(root_path(seq!['.', '.']) =~= seq!['/', '.', '.']);
        if is_plain_name(key@) {
            lemma_plain_root(key@);
            assert(storage@ =~= child_path(Seq::empty(), key@));
            lemma_root_place(records@, keys@, n@, key@);
        } else {
            lemma_root_pieces(key@);
        }
    }
    if let Err(e) = add_storage(compound, storage.as_str(), Ghost(tree), content) {
        proof {
            if is_plain_name(key@) {
                lemma_key_taken(keys@, n@, has_keys);
            } else {
                assert(keys@[n@] == seq!['.'] || keys@[n@] == seq!['.', '.']);
            }
        }
        return Err(e);
    }
    let ghost made = tree.insert(storage@, None);
    let path = section_stream_path(key, "Data");
    proof {
        lemma_data_free(records@, keys@, n@);
        lemma_plain_child(root_path(key@), "Data"@);
        assert(made.contains_key(root_path(key@)));
        assert(path@ == child_path(root_path(key@), "Data"@));
        assert(!storage_in(made, path@));
    }
    add_stream(
        compound,
        path.as_str(),
        data,
        Ghost(made),
        Ghost(content@ + ENTRY_COST as nat),
    )
}

/// A key in a place that is taken keeps the components from fitting in one file.
proof fn lemma_key_taken(keys: Seq<Seq<char>>, n: int, has_keys: bool)
    requires
        0 <= n < keys.len(),
        ({
            ||| same_place("/FileHeader"@, root_path(keys[n]))
            ||| has_keys && same_place("/SectionKeys"@, root_path(keys[n]))
            ||| exists|i: int|
                0 <= i < n && same_place(root_path(#[trigger] keys[i]), root_path(keys[n]))
        }),
    ensures
        !keys_fit(keys, schlib_taken(has_keys)),
{
    let taken = schlib_taken(has_keys);
    lemma_root_streams();
    lemma_same_root("FileHeader"@, keys[n]);
    lemma_same_root("SectionKeys"@, keys[n]);
    if same_place("/FileHeader"@, root_path(keys[n])) {
        assert(same_place(taken[0], keys[n]));
    } else if has_keys && same_place("/SectionKeys"@, root_path(keys[n])) {
        assert(same_place(taken[2], keys[n]));
    } else {
        let i = choose|i: int|
            0 <= i < n && same_place(root_path(#[trigger] keys[i]), root_path(keys[n]));
        lemma_same_root(keys[i], keys[n]);
        assert(same_place(keys[i], keys[n]));
    }
}

/// Components that are apart from each other and from the last stream fit in one file.
proof fn lemma_all_fit(keys: Seq<Seq<char>>, has_keys: bool)
    requires
        first_apart(keys, keys.len() as int, has_keys),
    ensures
        keys_fit(keys, schlib_taken(has_keys)) <==> forall|i: int|
            0 <= i < keys.len() ==> !same_place(root_path(#[trigger] keys[i]), "/Storage"@),
{
    let taken = schlib_taken(has_keys);
    lemma_root_streams();
    if forall|i: int|
        0 <= i < keys.len() ==> !same_place(root_path(#[trigger] keys[i]), "/Storage"@) {
        assert forall|i: int| 0 <= i < keys.len() implies #[trigger] keys[i] != seq!['.'] && keys[i]
            != seq!['.', '.'] by {
            assert(is_plain_name(keys[i]));
        }
        assert forall|i: int, t: int|
            0 <= i < keys.len() && 0 <= t < taken.len() implies !same_place(
            #[trigger] taken[t],
            #[trigger] keys[i],
        ) by {
            assert(is_plain_name(keys[i]));
            assert(!same_place(root_path(keys[i]), "/Storage"@));
            lemma_same_root(taken[t], keys[i]);
        }
        assert forall|i: int, j: int| 0 <= i < j < keys.len() implies !same_place(
            #[trigger] keys[i],
            #[trigger] keys[j],
        ) by {
            assert(!same_place(root_path(keys[i]), root_path(keys[j])));
            lemma_same_root(keys[i], keys[j]);
        }
        assert(keys_fit(keys, taken));
    } else {
        let i = choose|i: int|
            0 <= i < keys.len() && same_place(root_path(#[trigger] keys[i]), "/Storage"@);
        lemma_same_root("Storage"@, keys[i]);
        assert(same_place(taken[1], keys[i]));
    }
}

/// The last stream fails just where a component has its place, and completes
/// the file otherwise.
proof fn lemma_storage_place(records: Seq<SchlibModel>, keys: Seq<Seq<char>>)
    requires
        records.len() == keys.len(),
        first_apart(
            keys,
            keys.len() as int,
            renamed_keys(model_names(records), keys).len() > 0,
        ),
    ensures
        ({
            let has_keys = renamed_keys(model_names(records), keys).len() > 0;
            let tree = tree_under_way(records, keys, keys.len() as int);
            &&& storage_in(tree, "/Storage"@) <==> !keys_fit(keys, schlib_taken(has_keys))
            &&& is_free(tree, "/Storage"@) <==> keys_fit(keys, schlib_taken(has_keys))
        }),
{
    let has_keys = renamed_keys(model_names(records), keys).len() > 0;
    let n = keys.len() as int;
    let tree = tree_under_way(records, keys, n);
    lemma_root_streams();
    lemma_tree_under_way(records, keys, n);
    lemma_root_place(records, keys, n, "Storage"@);
    lemma_all_fit(keys, has_keys);
    if !keys_fit(keys, schlib_taken(has_keys)) {
        let i = choose|i: int|
            0 <= i < keys.len() && same_place(root_path(#[trigger] keys[i]), "/Storage"@);
        assert(is_path_of(root_path(keys[i]), keys, n, has_keys));
        assert(tree.contains_key(root_path(keys[i])));
    }
}

/// A whole tree holds a schematic library.
proof fn lemma_tree_holds(
    compound: Compound,
    records: Seq<SchlibModel>,
    keys: Seq<Seq<char>>,
    content: nat,
)
    requires
        records.len() == keys.len(),
        keys == section_keys(model_names(records)),
        first_apart(
            keys,
            keys.len() as int,
            renamed_keys(model_names(records), keys).len() > 0,
        ),
        is_free(tree_under_way(records, keys, keys.len() as int), "/Storage"@),
        holds_tree(
            compound,
            tree_under_way(records, keys, keys.len() as int).insert(
                "/Storage"@,
                Some(storage_stream()),
            ),
            content,
        ),
    ensures
        holds_schlib(compound_streams(compound), records),
{
    let renamed = renamed_keys(model_names(records), keys);
    let has_keys = renamed.len() > 0;
    let n = keys.len() as int;
    let before = tree_under_way(records, keys, n);
    let tree = before.insert("/Storage"@, Some(storage_stream()));
    let streams = compound_streams(compound);
    lemma_root_streams();
    lemma_tree_under_way(records, keys, n);
    assert(same_place("/Storage"@, "/Storage"@));
    lemma_tree_read(compound, tree, content, "/Storage"@);
    assert(before.contains_key("/FileHeader"@));
    lemma_tree_read(compound, tree, content, "/FileHeader"@);
    if has_keys {
        assert(before.contains_key("/SectionKeys"@));
        lemma_tree_read(compound, tree, content, "/SectionKeys"@);
    } else if streams.contains_key("/SectionKeys"@) {
        assert(stream_in(tree, "/SectionKeys"@));
        let p = choose|p: Seq<char>| #[trigger]
            tree.contains_key(p) && tree[p] is Some && same_place(p, "/SectionKeys"@);
        if p != "/Storage"@ {
            assert(before.contains_key(p));
            assert(is_path_of(p, keys, n, has_keys));
            if p != "/FileHeader"@ {
                let i = choose|i: int|
                    0 <= i < n && (p == root_path(#[trigger] keys[i]) || p == section_path(
                        keys[i],
                        "Data"@,
                    ));
                lemma_depths_differ("SectionKeys"@, keys[i], "Data"@);
            }
        }
    }
    assert forall|i: int| 0 <= i < records.len() implies stream_at(
        streams,
        section_path(#[trigger] keys[i], "Data"@),
    ) == Some(records[i].data) by {
        let path = section_path(keys[i], "Data"@);
        assert(is_path_of(path, keys, n, has_keys));
        assert(before.contains_key(path));
        lemma_depths_differ("Storage"@, keys[i], "Data"@);
        lemma_tree_read(compound, tree, content, path);
    }
}

/// Writes a schematic library with these records and gives its bytes.
pub fn write_schlib_records(records: &[SchlibRecord]) -> (r: Result<Vec<u8>, AppError>)
    requires
        total_weight(models(records@)) <= usize::MAX,
        schlib_size(models(records@)) <= CONTENT_LIMIT,
    ensures
        r is Ok <==> records@.len() > 0 && schlib_fits(models(records@)),
        match r {
            Ok(image) => image_streams(image@) matches Some(streams) && holds_schlib(
                streams,
                models(records@),
            ),
            Err(e) => e.failure() == if records@.len() == 0 {
                Failure::Other("cannot write empty SchLib library"@)
            } else {
                Failure::Io
            },
        },
{
    if records.len() == 0 {
        return Err(other_error("cannot write empty SchLib library"));
    }
    let ghost all = models(records@);
    let names = record_names(records);
    let sections = collect_sections(&names);
    let ghost keys = section_keys(model_names(all));
    let ghost renamed = renamed_keys(model_names(all), keys);
    proof {
        lemma_section_keys_len(model_names(all));
        lemma_root_streams();
        assert("/FileHeader"@ =~= child_path(Seq::empty(), "FileHeader"@));
        assert("/SectionKeys"@ =~= child_path(Seq::empty(), "SectionKeys"@));
        assert("/Storage"@ =~= child_path(Seq::empty(), "Storage"@));
    }
    let section_pairs = collect_section_key_pairs(&names, &sections);
    let mut compound = start_tree()?;
    let header = schlib_file_header_bytes(records);
    let ghost mut tree = Tree::empty();
    let ghost mut content: nat = 0;
    add_stream(&mut compound, "/FileHeader", header.as_slice(), Ghost(tree), Ghost(content))?;
    proof {
        tree = tree.insert("/FileHeader"@, Some(header@));
        content = content + ENTRY_COST as nat + header@.len();
    }
    if section_pairs.len() > 0 {
        let bytes = schlib_section_keys_bytes(section_pairs.as_slice());
        assert(is_free(tree, "/SectionKeys"@));
        add_stream(&mut compound, "/SectionKeys", bytes.as_slice(), Ghost(tree), Ghost(content))?;
        proof {
            tree = tree.insert("/SectionKeys"@, Some(bytes@));
            content = content + ENTRY_COST as nat + bytes@.len();
        }
    }
    assert(tree == tree_under_way(all, keys, 0));
    let ghost frame = content;
    let mut i: usize = 0;
    while i < records.len()
        invariant
            i <= records@.len(),
            records@.len() > 0,
            all == models(records@),
            keys == section_keys(model_names(all)),
            renamed == renamed_keys(model_names(all), keys),
            views(sections@) == keys,
            keys.len() == all.len(),
            first_apart(keys, i as int, renamed.len() > 0),
            holds_tree(
                compound,
                tree_under_way(all, keys, i as int),
                frame + records_size(all.take(i as int)),
            ),
            frame + records_size(all) + ENTRY_COST + storage_stream().len() <= CONTENT_LIMIT,
        decreases records.len() - i,
    {
        proof {
            assert(sections@[i as int]@ == keys[i as int]);
            law_section_key_lengths(model_names(all), i as int);
            assert(all.take(i + 1).drop_last() =~= all.take(i as int));
            assert(all.take(i + 1).last() == records@[i as int]@);
            lemma_records_size(all, i + 1);
        }
        put_record(
            &mut compound,
            sections[i].as_str(),
            records[i].data.as_slice(),
            Ghost(all),
            Ghost(keys),
            Ghost(i as int),
            Ghost(frame + records_size(all.take(i as int))),
        )?;
        i += 1;
    }
    let bytes = schlib_storage_bytes();
    proof {
        tree = tree_under_way(all, keys, i as int);
        content = frame + records_size(all);
        assert(all.take(i as int) =~= all);
        lemma_storage_place(all, keys);
    }
    add_stream(&mut compound, "/Storage", bytes.as_slice(), Ghost(tree), Ghost(content))?;
    proof {
        tree = tree.insert("/Storage"@, Some(bytes@));
        content = content + ENTRY_COST as nat + bytes@.len();
        lemma_tree_holds(compound, all, keys, content);
    }
    finish_tree(compound, Ghost(tree), Ghost(content))
}

/// What reading the one component of a library comes to that was written for it alone.
pub open spec fn captured_result(image: Seq<u8>) -> Result<SchlibModel, Failure> {
    match schlib_image_result(image) {
        Ok(records) => if records.len() > 0 {
            Ok(records.last())
        } else {
            Err(Failure::Other("failed to capture temporary SchLib component"@))
        },
        Err(failure) => Err(failure),
    }
}

/// The record of a component, out of a library that was written for it alone.
pub fn captured_schlib_record(image: &[u8]) -> (r: Result<SchlibRecord, AppError>)
    ensures
        match r {
            Ok(record) => captured_result(image@) == Ok::<SchlibModel, Failure>(record@),
            Err(e) => captured_result(image@) == Err::<SchlibModel, Failure>(e.failure()),
        },
{
    match read_schlib_records(image) {
        Ok(records) => {
            let mut records = records;
            let ghost all = models(records@);
            match records.pop() {
                Some(record) => {
                    assert(all.last() == record@);
                    Ok(record)
                },
                None => Err(other_error("failed to capture temporary SchLib component")),
            }
        },
        Err(e) => Err(e),
    }
}

/// The part numbers of records that have one, in order.
pub open spec fn record_identities(records: Seq<SchlibModel>) -> Seq<Seq<char>>
    decreases records.len(),
{
    if records.len() == 0 {
        Seq::empty()
    } else {
        let before = record_identities(records.drop_last());
        match records.last().identity {
            Some(id) => before.push(id),
            None => before,
        }
    }
}

/// The different part numbers of the components of a schematic library, in the
/// order in which they first come.
pub fn extract_lcsc_ids_from_schlib(image: &[u8]) -> (r: Result<Vec<String>, AppError>)
    ensures
        match r {
            Ok(ids) => schlib_image_result(image@) matches Ok(records) && views(ids@) == distinct(
                record_identities(records),
            ),
            Err(e) => schlib_image_result(image@) == Err::<Seq<SchlibModel>, Failure>(e.failure()),
        },
{
    let records = match read_schlib_records(image) {
        Ok(records) => records,
        Err(e) => {
            return Err(e);
        },
    };
    let ghost all = models(records@);
    let mut ids: Vec<String> = Vec::new();
    let mut i: usize = 0;
    assert(all.take(0) =~= Seq::<SchlibModel>::empty());
    assert(views(ids@) =~= Seq::<Seq<char>>::empty());
    while i < records.len()
        invariant
            i <= records@.len(),
            all == models(records@),
            views(ids@) == distinct(record_identities(all.take(i as int))),
        decreases records.len() - i,
    {
        proof {
            let next = all.take(i + 1);
            assert(next.drop_last() =~= all.take(i as int));
            assert(next.last() == records@[i as int]@);
            let before = record_identities(all.take(i as int));
            if let Some(id) = records@[i as int]@.identity {
                assert(before.push(id).drop_last() =~= before);
            }
        }
        if let Some(id) = &records[i].identity {
            if !has_text(&ids, id.as_str()) {
                let ghost before = views(ids@);
                ids.push(id.clone());
                assert(views(ids@) =~= before.push(id@));
            }
        }
        i += 1;
    }
    assert(all.take(i as int) =~= all);
    Ok(ids)
}

} // verus!
