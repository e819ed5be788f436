//! A footprint library that was written is read back.

use vstd::prelude::*;
use crate::compound::{stream_at, Streams};
use crate::error::Failure;
use crate::params::Pair;
use crate::pcb_records::{
    component_data, component_names_result, component_stream, fixed_data, fixed_path,
    footprint_names, footprint_result, footprints_result, holds_pcblib, key_blocks, keys_from,
    library_data_stream, model_path, models_from, models_stream, names_from, pcblib_keys,
    pcblib_keys_stream, pcblib_result, FootprintModel, PcblibModel, StepModel,
};
use crate::schlib::name_blocks;
use crate::schlib_laws::{lemma_found_first, lemma_key_for, lemma_renamed};
use crate::sections::{
    is_key, key_for, lemma_section_keys_are_keys, lemma_section_keys_len, renamed_keys, section_keys,
    section_path, with_key,
};
use crate::wire::{
    ansi, block_bytes, first_pairs_result, latin1, le_bytes, lemma_block_read, lemma_i32_round_trip,
    law_le_round_trip, short_string, short_string_text,
};

verus! {

/// Whether a short string gives `name` back: at most 255 bytes, each with the
/// number of its character.
pub open spec fn is_short(name: Seq<char>) -> bool {
    ansi(name).len() <= 255 && latin1(ansi(name)) == name
}

/// A short name is read back from its short string, whatever stands behind it.
pub proof fn lemma_short_string(name: Seq<char>, after: Seq<u8>)
    requires
        is_short(name),
    ensures
        short_string_text(short_string(name) + after) == name,
        short_string(name).len() <= 256,
{
    let bytes = ansi(name);
    let data = short_string(name) + after;
    assert(bytes.take(bytes.len() as int) =~= bytes);
    assert(short_string(name) =~= seq![bytes.len() as u8] + bytes);
    assert(data[0] == bytes.len());
    assert(data.subrange(1, 1 + bytes.len() as int) =~= bytes);
}

/// Whether these records can be told apart and named in the format: names are
/// different and short, parameters can be read, and lengths and counts fit the
/// bytes that the format has for them.
pub open spec fn is_storable(library: PcblibModel, params: Seq<char>) -> bool {
    let names = footprint_names(library.components);
    let renamed = renamed_keys(names, section_keys(names));
    &&& names.no_duplicates()
    &&& names.len() <= u32::MAX
    &&& renamed.len() <= i32::MAX
    &&& library.models.len() <= i32::MAX
    &&& ansi(params).len() + 1 < 0x100_0000
    &&& forall|i: int| 0 <= i < names.len() ==> is_short(#[trigger] names[i])
    &&& forall|i: int|
        0 <= i < library.components.len() ==> first_pairs_result(
            (#[trigger] library.components[i]).parameters,
            "PcbLib parameters"@,
        ) is Ok
    &&& forall|i: int|
        0 <= i < library.models.len() ==> (#[trigger] library.models[i]).entry.len() <= i32::MAX
}

proof fn lemma_name_blocks_concat(a: Seq<Seq<char>>, b: Seq<Seq<char>>)
    ensures
        name_blocks(a + b) == name_blocks(a) + name_blocks(b),
    decreases b.len(),
{
    if b.len() == 0 {
        assert(a + b =~= a);
        assert(name_blocks(a) + name_blocks(b) =~= name_blocks(a));
    } else {
        assert((a + b).drop_last() =~= a + b.drop_last());
        lemma_name_blocks_concat(a, b.drop_last());
        assert(name_blocks(a + b) =~= name_blocks(a) + name_blocks(b));
    }
}

proof fn lemma_name_block(name: Seq<char>)
    ensures
        name_blocks(seq![name]) == block_bytes(0, short_string(name)),
{
    assert(seq![name].drop_last() =~= Seq::<Seq<char>>::empty());
    assert(name_blocks(seq![name].drop_last()) =~= Seq::<u8>::empty());
    assert(name_blocks(seq![name]) =~= block_bytes(0, short_string(name)));
}

/// Names written block by block, parted at the name in place `k`.
pub proof fn lemma_names_parted(before: Seq<u8>, names: Seq<Seq<char>>, k: int)
    requires
        0 <= k < names.len(),
    ensures
        ({
            let start = before + name_blocks(names.take(k));
            let block = block_bytes(0, short_string(names[k]));
            &&& before + name_blocks(names) == start + block + name_blocks(names.skip(k + 1))
            &&& before + name_blocks(names.take(k + 1)) == start + block
        }),
{
    let name = names[k];
    let rest = names.skip(k + 1);
    let start = before + name_blocks(names.take(k));
    let block = block_bytes(0, short_string(name));
    lemma_name_block(name);
    assert(names =~= names.take(k) + (seq![name] + rest));
    lemma_name_blocks_concat(names.take(k), seq![name] + rest);
    lemma_name_blocks_concat(seq![name], rest);
    assert(names.take(k + 1) =~= names.take(k) + seq![name]);
    lemma_name_blocks_concat(names.take(k), seq![name]);
    assert(before + name_blocks(names) =~= start + block + name_blocks(rest));
    assert(before + name_blocks(names.take(k + 1)) =~= start + block);
}

/// A name in a block is read.
proof fn lemma_name_read(
    data: Seq<u8>,
    start: Seq<u8>,
    name: Seq<char>,
    after: Seq<u8>,
    n: nat,
    names: Seq<Seq<char>>,
)
    requires
        is_short(name),
        data == start + block_bytes(0, short_string(name)) + after,
        n > 0,
    ensures
        names_from(data, start.len() as int, n, names) == names_from(
            data,
            (start + block_bytes(0, short_string(name))).len() as int,
            (n - 1) as nat,
            names.push(name),
        ),
{
    let none = Seq::<u8>::empty();
    lemma_short_string(name, none);
    assert(short_string(name) + none =~= short_string(name));
    lemma_block_read(data, start, 0, short_string(name), after, "PcbLib component name"@);
}

/// Names that were written block by block are read block by block.
proof fn lemma_names_from(before: Seq<u8>, names: Seq<Seq<char>>, k: int)
    requires
        0 <= k <= names.len(),
        forall|i: int| 0 <= i < names.len() ==> is_short(#[trigger] names[i]),
    ensures
        names_from(
            before + name_blocks(names),
            (before + name_blocks(names.take(k))).len() as int,
            (names.len() - k) as nat,
            names.take(k),
        ) == Ok::<Seq<Seq<char>>, Failure>(names),
    decreases names.len() - k,
{
    if k == names.len() {
        assert(names.take(k) =~= names);
    } else {
        let name = names[k];
        assert(is_short(name));
        lemma_names_parted(before, names, k);
        lemma_name_read(
            before + name_blocks(names),
            before + name_blocks(names.take(k)),
            name,
            name_blocks(names.skip(k + 1)),
            (names.len() - k) as nat,
            names.take(k),
        );
        assert(names.take(k).push(name) =~= names.take(k + 1));
        lemma_names_from(before, names, k + 1);
    }
}

proof fn lemma_library_data_read(params: Seq<char>, names: Seq<Seq<char>>)
    requires
        names.len() <= u32::MAX,
        ansi(params).len() + 1 < 0x100_0000,
        forall|i: int| 0 <= i < names.len() ==> is_short(#[trigger] names[i]),
    ensures
        component_names_result(library_data_stream(params, names)) == Ok::<
            Seq<Seq<char>>,
            Failure,
        >(names),
{
    let data = library_data_stream(params, names);
    let payload = ansi(params) + seq![0u8];
    let first = block_bytes(0, payload);
    let count = le_bytes(names.len() as u32);
    let none = Seq::<u8>::empty();
    assert(data =~= none + first + (count + name_blocks(names)));
    lemma_block_read(
        data,
        none,
        0,
        payload,
        count + name_blocks(names),
        "PcbLib library data params"@,
    );
    assert(none + first =~= first);
    law_le_round_trip(names.len() as u32, first, name_blocks(names));
    assert(data =~= first + count + name_blocks(names));
    let before = first + count;
    assert(names.take(0) =~= Seq::<Seq<char>>::empty());
    assert(name_blocks(names.take(0)) =~= none);
    assert(before + none =~= before);
    lemma_names_from(before, names, 0);
}

proof fn lemma_key_blocks_concat(a: Seq<Pair>, b: Seq<Pair>)
    ensures
        key_blocks(a + b) == key_blocks(a) + key_blocks(b),
    decreases b.len(),
{
    if b.len() == 0 {
        assert(a + b =~= a);
        assert(key_blocks(a) + key_blocks(b) =~= key_blocks(a));
    } else {
        assert((a + b).drop_last() =~= a + b.drop_last());
        lemma_key_blocks_concat(a, b.drop_last());
        assert(key_blocks(a + b) =~= key_blocks(a) + key_blocks(b));
    }
}

proof fn lemma_key_block(pair: Pair)
    ensures
        key_blocks(seq![pair]) == block_bytes(0, short_string(pair.0).push(0)) + block_bytes(
            0,
            short_string(pair.1),
        ),
{
    assert(seq![pair].drop_last() =~= Seq::<Pair>::empty());
    assert(key_blocks(seq![pair].drop_last()) =~= Seq::<u8>::empty());
    assert(key_blocks(seq![pair]) =~= block_bytes(0, short_string(pair.0).push(0)) + block_bytes(
        0,
        short_string(pair.1),
    ));
}

/// Whether each of `listed` is among `pairs`.
spec fn are_among(listed: Seq<Pair>, pairs: Seq<Pair>) -> bool {
    forall|i: int| 0 <= i < listed.len() ==> pairs.contains(#[trigger] listed[i])
}

/// Bytes joined in one order are those joined in another.
proof fn lemma_joined(a: Seq<u8>, b: Seq<u8>, c: Seq<u8>, d: Seq<u8>, e: Seq<u8>)
    ensures
        a + (b + ((c + d) + e)) == a + b + c + (d + e),
        a + (b + (c + d)) == a + b + c + d,
{
    assert(a + (b + ((c + d) + e)) =~= a + b + c + (d + e));
    assert(a + (b + (c + d)) =~= a + b + c + d);
}

/// Section keys written block by block, parted at the pair in place `k`.
proof fn lemma_keys_parted(before: Seq<u8>, pairs: Seq<Pair>, k: int)
    requires
        0 <= k < pairs.len(),
    ensures
        ({
            let start = before + key_blocks(pairs.take(k));
            let name = block_bytes(0, short_string(pairs[k].0).push(0));
            let key = block_bytes(0, short_string(pairs[k].1));
            &&& before + key_blocks(pairs) == start + name + (key + key_blocks(pairs.skip(k + 1)))
            &&& before + key_blocks(pairs.take(k + 1)) == start + name + key
        }),
{
    let pair = pairs[k];
    let rest = pairs.skip(k + 1);
    let start = before + key_blocks(pairs.take(k));
    let name = block_bytes(0, short_string(pair.0).push(0));
    let key = block_bytes(0, short_string(pair.1));
    lemma_key_block(pair);
    assert(pairs =~= pairs.take(k) + (seq![pair] + rest));
    lemma_key_blocks_concat(pairs.take(k), seq![pair] + rest);
    lemma_key_blocks_concat(seq![pair], rest);
    assert(pairs.take(k + 1) =~= pairs.take(k) + seq![pair]);
    lemma_key_blocks_concat(pairs.take(k), seq![pair]);
    lemma_joined(before, key_blocks(pairs.take(k)), name, key, key_blocks(rest));
}

/// A name and its section key in two blocks are read.
proof fn lemma_key_read(
    data: Seq<u8>,
    start: Seq<u8>,
    pair: Pair,
    after: Seq<u8>,
    n: nat,
    listed: Seq<Pair>,
)
    requires
        is_short(pair.0) && is_short(pair.1),
        data == start + block_bytes(0, short_string(pair.0).push(0)) + (block_bytes(
            0,
            short_string(pair.1),
        ) + after),
        n > 0,
    ensures
        keys_from(data, start.len() as int, n, listed) == keys_from(
            data,
            (start + block_bytes(0, short_string(pair.0).push(0)) + block_bytes(
                0,
                short_string(pair.1),
            )).len() as int,
            (n - 1) as nat,
            with_key(listed, pair.0, pair.1),
        ),
{
    let none = Seq::<u8>::empty();
    let name = short_string(pair.0).push(0);
    let key = short_string(pair.1);
    lemma_short_string(pair.0, seq![0u8]);
    assert(short_string(pair.0) + seq![0u8] =~= name);
    lemma_short_string(pair.1, none);
    assert(key + none =~= key);
    let middle = start + block_bytes(0, name);
    lemma_block_read(
        data,
        start,
        0,
        name,
        block_bytes(0, key) + after,
        "PcbLib section key name"@,
    );
    assert(data =~= middle + block_bytes(0, key) + after);
    lemma_block_read(data, middle, 0, key, after, "PcbLib section key value"@);
}

/// Section keys that were written block by block are read block by block; what
/// is listed then is among what was written.
proof fn lemma_keys_from(before: Seq<u8>, pairs: Seq<Pair>, k: int, listed: Seq<Pair>)
    requires
        0 <= k <= pairs.len(),
        forall|i: int|
            0 <= i < pairs.len() ==> is_short((#[trigger] pairs[i]).0) && is_short(pairs[i].1),
        are_among(listed, pairs),
    ensures
        keys_from(
            before + key_blocks(pairs),
            (before + key_blocks(pairs.take(k))).len() as int,
            (pairs.len() - k) as nat,
            listed,
        ) matches Ok(all) && are_among(all, pairs),
    decreases pairs.len() - k,
{
    if k < pairs.len() {
        let pair = pairs[k];
        assert(is_short(pair.0) && is_short(pair.1));
        lemma_keys_parted(before, pairs, k);
        lemma_key_read(
            before + key_blocks(pairs),
            before + key_blocks(pairs.take(k)),
            pair,
            key_blocks(pairs.skip(k + 1)),
            (pairs.len() - k) as nat,
            listed,
        );
        let next = with_key(listed, pair.0, pair.1);
        assert(are_among(next, pairs)) by {
            assert forall|i: int| 0 <= i < next.len() implies pairs.contains(#[trigger] next[i]) by {
                if i < listed.len() {
                    assert(next[i] == listed[i]);
                } else {
                    assert(next[i] == pairs[k]);
                }
            }
        }
        lemma_keys_from(before, pairs, k + 1, next);
    }
}

proof fn lemma_key_short(key: Seq<char>)
    requires
        is_key(key),
        key.len() <= 255,
    ensures
        is_short(key),
{
    assert forall|i: int| 0 <= i < key.len() implies crate::codec::has_byte(#[trigger] key[i]) by {
        assert(crate::sections::is_key_char(key[i]));
        assert(crate::codec::byte_char(key[i] as u8) == key[i]);
    }
    assert(crate::wire::without_nul(key) =~= key) by {
        assert forall|i: int| 0 <= i < key.len() implies key[i] != '\0' by {
            assert(crate::sections::is_key_char(key[i]));
        }
    }
    crate::codec::law_decoded_encoded(key);
    let bytes = ansi(key);
    assert forall|i: int| 0 <= i < key.len() implies bytes[i] as char == key[i] by {
        assert(crate::codec::decoded(bytes)[i] == key[i]);
        assert(crate::codec::byte_char(bytes[i]) == key[i]);
        assert(crate::sections::is_key_char(key[i]));
    }
    assert(latin1(bytes) =~= key);
}

/// The section keys of a written library, where they give one for a component,
/// give the one under which it was written.
proof fn lemma_keys_read(streams: Streams, library: PcblibModel, params: Seq<char>, i: int)
    requires
        is_storable(library, params),
        holds_pcblib(streams, library, params),
        0 <= i < library.components.len(),
    ensures
        ({
            let names = footprint_names(library.components);
            key_for(pcblib_keys(streams), names[i]) matches Some(key) ==> key == section_keys(
                names,
            )[i]
        }),
{
    let names = footprint_names(library.components);
    let keys = section_keys(names);
    let renamed = renamed_keys(names, keys);
    lemma_section_keys_len(names);
    lemma_section_keys_are_keys(names);
    lemma_renamed(names, keys);
    if renamed.len() > 0 {
        let data = pcblib_keys_stream(renamed);
        let count = (renamed.len() as i32) as u32;
        let none = Seq::<u8>::empty();
        law_le_round_trip(count, none, key_blocks(renamed));
        assert(none + le_bytes(count) + key_blocks(renamed) =~= data);
        lemma_i32_round_trip(renamed.len() as i32);
        assert forall|p: int| 0 <= p < renamed.len() implies is_short((#[trigger] renamed[p]).0)
            && is_short(renamed[p].1) by {
            let j = choose|j: int| 0 <= j < names.len() && renamed[p] == (names[j], keys[j]);
            assert(is_short(names[j]));
            assert(is_key(keys[j]));
            crate::sections::law_section_key_lengths(names, j);
            lemma_key_short(keys[j]);
        }
        assert(renamed.take(0) =~= Seq::<Pair>::empty());
        assert(key_blocks(renamed.take(0)) =~= none);
        assert((le_bytes(count) + none).len() == 4);
        lemma_keys_from(le_bytes(count), renamed, 0, Seq::empty());
        let listed = pcblib_keys(streams);
        assert(are_among(listed, renamed));
        lemma_key_for(listed, names[i]);
        if let Some(key) = key_for(listed, names[i]) {
            let q = choose|q: int| 0 <= q < listed.len() && listed[q] == (names[i], key);
            assert(renamed.contains(listed[q]));
            let p = choose|p: int| 0 <= p < renamed.len() && renamed[p] == listed[q];
            let j = choose|j: int| 0 <= j < names.len() && renamed[p] == (names[j], keys[j]);
            assert(names[j] == names[i]);
            assert(j == i);
        }
    } else {
        assert(pcblib_keys(streams) =~= Seq::<Pair>::empty());
    }
}

proof fn lemma_component_read(streams: Streams, library: PcblibModel, params: Seq<char>, i: int)
    requires
        is_storable(library, params),
        holds_pcblib(streams, library, params),
        0 <= i < library.components.len(),
    ensures
        footprint_result(streams, footprint_names(library.components), i) == Ok::<
            FootprintModel,
            Failure,
        >(library.components[i]),
{
    let names = footprint_names(library.components);
    let keys = section_keys(names);
    let component = library.components[i];
    lemma_section_keys_len(names);
    lemma_section_keys_are_keys(names);
    assert(is_key(keys[i]));
    assert(stream_at(streams, section_path(keys[i], component_stream(0))) == Some(
        component_data(component, 0),
    ));
    assert(stream_at(streams, section_path(keys[i], component_stream(1))) == Some(
        component_data(component, 1),
    ));
    assert(stream_at(streams, section_path(keys[i], component_stream(2))) == Some(
        component_data(component, 2),
    ));
    assert(stream_at(streams, section_path(keys[i], component_stream(3))) == Some(
        component_data(component, 3),
    ));
    assert(stream_at(streams, section_path(keys[i], component_stream(5))) == Some(
        component_data(component, 5),
    ));
    lemma_keys_read(streams, library, params, i);
    lemma_found_first(
        streams,
        names[i],
        key_for(pcblib_keys(streams), names[i]),
        keys[i],
        "Header"@,
    );
    let count = component.primitive_count as u32;
    let none = Seq::<u8>::empty();
    law_le_round_trip(count, none, none);
    assert(none + le_bytes(count) + none =~= le_bytes(count));
    lemma_i32_round_trip(component.primitive_count);
}

proof fn lemma_components_read(streams: Streams, library: PcblibModel, params: Seq<char>, n: int)
    requires
        is_storable(library, params),
        holds_pcblib(streams, library, params),
        0 <= n <= library.components.len(),
    ensures
        footprints_result(streams, footprint_names(library.components), n) == Ok::<
            Seq<FootprintModel>,
            Failure,
        >(library.components.take(n)),
    decreases n,
{
    if n > 0 {
        lemma_components_read(streams, library, params, n - 1);
        lemma_component_read(streams, library, params, n - 1);
        assert(library.components.take(n) =~= library.components.take(n - 1).push(
            library.components[n - 1],
        ));
    } else {
        assert(library.components.take(0) =~= Seq::<FootprintModel>::empty());
    }
}

proof fn lemma_models_concat(a: Seq<StepModel>, b: Seq<StepModel>)
    ensures
        models_stream(a + b) == models_stream(a) + models_stream(b),
    decreases b.len(),
{
    if b.len() == 0 {
        assert(a + b =~= a);
        assert(models_stream(a) + models_stream(b) =~= models_stream(a));
    } else {
        assert((a + b).drop_last() =~= a + b.drop_last());
        lemma_models_concat(a, b.drop_last());
        assert(models_stream(a + b) =~= models_stream(a) + models_stream(b));
    }
}

proof fn lemma_model_entry(model: StepModel)
    ensures
        models_stream(seq![model]) == le_bytes((model.entry.len() as i32) as u32) + model.entry,
{
    assert(seq![model].drop_last() =~= Seq::<StepModel>::empty());
    assert(models_stream(seq![model].drop_last()) =~= Seq::<u8>::empty());
    assert(models_stream(seq![model]) =~= le_bytes((model.entry.len() as i32) as u32)
        + model.entry);
}

proof fn lemma_models_from(streams: Streams, models: Seq<StepModel>, k: int)
    requires
        0 <= k <= models.len(),
        forall|i: int|
            0 <= i < models.len() ==> (#[trigger] models[i]).entry.len() <= i32::MAX,
        forall|i: int|
            0 <= i < models.len() ==> stream_at(streams, #[trigger] model_path(i as nat)) == Some(
                models[i].stream,
            ),
    ensures
        models_from(
            streams,
            models_stream(models),
            models_stream(models.take(k)).len() as int,
            (models.len() - k) as nat,
            models.take(k),
        ) == Ok::<Seq<StepModel>, Failure>(models),
    decreases models.len() - k,
{
    let data = models_stream(models);
    if k == models.len() {
        assert(models.take(k) =~= models);
    } else {
        let model = models[k];
        let start = models_stream(models.take(k));
        let rest = models.skip(k + 1);
        let len = (model.entry.len() as i32) as u32;
        assert(model.entry.len() <= i32::MAX);
        lemma_model_entry(model);
        assert(models =~= models.take(k) + (seq![model] + rest));
        lemma_models_concat(models.take(k), seq![model] + rest);
        lemma_models_concat(seq![model], rest);
        assert(data =~= start + le_bytes(len) + (model.entry + models_stream(rest)));
        law_le_round_trip(len, start, model.entry + models_stream(rest));
        lemma_i32_round_trip(model.entry.len() as i32);
        let at = start.len() as int;
        assert(data.subrange(at + 4, at + 4 + model.entry.len()) =~= model.entry);
        assert(models.take(k + 1) =~= models.take(k) + seq![model]);
        lemma_models_concat(models.take(k), seq![model]);
        assert(stream_at(streams, model_path(k as nat)) == Some(model.stream));
        assert(models.take(k).len() == k);
        assert(models.take(k).push(model) =~= models.take(k + 1));
        lemma_models_from(streams, models, k + 1);
    }
}

/// Reading a footprint library that was written gives back exactly the records
/// that it was written with.
pub proof fn law_pcblib_round_trip(streams: Streams, library: PcblibModel, params: Seq<char>)
    requires
        holds_pcblib(streams, library, params),
        is_storable(library, params),
    ensures
        pcblib_result(streams) == Ok::<PcblibModel, Failure>(library),
{
    let names = footprint_names(library.components);
    assert(stream_at(streams, fixed_path(3)) == Some(fixed_data(library, params, 3)));
    lemma_library_data_read(params, names);
    lemma_components_read(streams, library, params, library.components.len() as int);
    assert(library.components.take(library.components.len() as int) =~= library.components);
    assert(stream_at(streams, fixed_path(4)) == Some(fixed_data(library, params, 4)));
    assert(stream_at(streams, fixed_path(5)) == Some(fixed_data(library, params, 5)));
    let count = (library.models.len() as i32) as u32;
    let none = Seq::<u8>::empty();
    law_le_round_trip(count, none, none);
    assert(none + le_bytes(count) + none =~= le_bytes(count));
    lemma_i32_round_trip(library.models.len() as i32);
    assert(library.models.take(0) =~= Seq::<StepModel>::empty());
    assert(models_stream(library.models.take(0)) =~= none);
    lemma_models_from(streams, library.models, 0);
}

} // verus!
