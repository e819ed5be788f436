//! How libraries are laid out, byte by byte and name by name.

use vstd::prelude::*;
use crate::codec::{byte_char, char_bytes, decoded, encoded, has_bytes, starts_with_mark};
use crate::compound::{stream_at, Streams};
use crate::error::Failure;
use crate::param_laws::{lemma_ascii_has_byte, lemma_pairs_join};
use crate::params::{
    lookup, param_text, params_text, piece_pairs, pieces_pairs, text_pairs, Pair,
};
use crate::pcb_records::{
    component_data, component_stream, fixed_path, footprint_names, holds_pcblib,
    library_data_stream, model_path, models_stream, pcblib_header_stream, PcblibModel,
};
use crate::schlib::{
    captured_result, component_count, header_stream, holds_schlib, listed_names, model_names,
    name_blocks, record_identities, schlib_image_result, sheet_params, total_weight, SchlibModel,
};
use crate::sections::{
    base_key, found_key, is_first_free, key_candidates, key_for, legacy_key, numbered_key,
    renamed_keys, section_keys, section_path, tried_paths, unique_key, with_key,
};
use crate::text::{decimal, is_alphanumeric, lemma_decimal, lemma_find_is, lemma_split_without, trim};
use crate::text_laws::{all_white, is_bare, law_number_read_back, law_trim};
use crate::wire::{
    ansi, block_bytes, block_result, cstring, first_pairs_result, le_bytes, short_string,
    short_string_text,
};

verus! {

// Bytes

/// A number is written in four bytes, the least significant first.
pub proof fn law_number_bytes(value: u32)
    ensures
        le_bytes(value).len() == 4,
        le_bytes(value)[0] == value % 256,
        le_bytes(value)[1] == value / 256 % 256,
        le_bytes(value)[2] == value / 65536 % 256,
        le_bytes(value)[3] == value / 16777216,
        value == le_bytes(value)[0] + 256 * le_bytes(value)[1] + 65536 * le_bytes(value)[2]
            + 16777216 * le_bytes(value)[3],
{
    let q = value / 256;
    let r = value / 65536;
    assert(value / 16777216 < 256);
    assert(r == q / 256 && value / 16777216 == r / 256);
}

/// A block is the length of its payload in three bytes, the least significant first,
/// its flags in the next byte, and its payload.
pub proof fn law_block_layout(flags: u8, payload: Seq<u8>)
    requires
        payload.len() < 0x100_0000,
    ensures
        block_bytes(flags, payload).len() == 4 + payload.len(),
        payload.len() == block_bytes(flags, payload)[0] + 256 * block_bytes(flags, payload)[1]
            + 65536 * block_bytes(flags, payload)[2],
        block_bytes(flags, payload)[3] == flags,
        block_bytes(flags, payload).skip(4) == payload,
{
    let none = Seq::<u8>::empty();
    crate::wire::law_block_round_trip(none, flags, payload, none);
    assert(none + block_bytes(flags, payload) + none =~= block_bytes(flags, payload));
    assert(block_bytes(flags, payload).skip(4) =~= payload);
    let data = block_bytes(flags, payload);
    assert(crate::wire::block_at(data, 0).flags == flags);
    assert(crate::wire::block_at(data, 0).next == 4 + payload.len());
}

/// A short string is its length in one byte and its text, of which at most 255 bytes
/// are kept.
pub proof fn law_short_strings(text: Seq<char>)
    ensures
        ansi(text).len() <= 255 ==> short_string(text) == seq![ansi(text).len() as u8] + ansi(text),
        ansi(text).len() > 255 ==> short_string(text) == seq![255u8] + ansi(text).take(255),
{
    assert(ansi(text).take(ansi(text).len() as int) =~= ansi(text));
}

/// A short string is read as the bytes behind its length, each as the character of
/// its number. Where fewer are there than it says, those that are there are read.
pub proof fn law_short_strings_read(len: u8, bytes: Seq<u8>, i: int)
    ensures
        ({
            let text = short_string_text(seq![len] + bytes);
            &&& text.len() == if bytes.len() < len {
                bytes.len() as int
            } else {
                len as int
            }
            &&& 0 <= i < text.len() ==> text[i] == bytes[i] as char
        }),
        short_string_text(Seq::empty()).len() == 0,
{
    let data = seq![len] + bytes;
    if 1 + len <= data.len() {
        assert(data.subrange(1, 1 + len) =~= bytes.take(len as int));
    } else {
        assert(data.skip(1) =~= bytes);
    }
}

/// ASCII text is written byte by byte as it is, with a question mark for NUL, and
/// texts behind each other are written behind each other.
pub proof fn law_ansi(a: Seq<char>, b: Seq<char>, c: char)
    ensures
        ansi(a + b) == ansi(a) + ansi(b),
        c != '\0' && c < '\u{80}' ==> ansi(seq![c]) == seq![c as u8],
        ansi(seq!['\0']) == seq!['?' as u8],
{
    assert(crate::wire::without_nul(a + b) =~= crate::wire::without_nul(a)
        + crate::wire::without_nul(b));
    crate::codec::lemma_encoded_concat(crate::wire::without_nul(a), crate::wire::without_nul(b));
    if '\u{7f}' >= c && c != '\0' {
        assert(crate::wire::without_nul(seq![c]) =~= seq![c]);
        lemma_ascii_encoded(c);
    }
    assert(crate::wire::without_nul(seq!['\0']) =~= seq!['?']);
    lemma_ascii_encoded('?');
}

proof fn lemma_ascii_encoded(c: char)
    requires
        c < '\u{80}',
    ensures
        encoded(seq![c]) == seq![c as u8],
{
    reveal_with_fuel(encoded, 2);
    lemma_ascii_has_byte(c);
    assert(byte_char(c as u8) == c);
    crate::codec::lemma_char_byte(c as u8);
    assert(char_bytes(c) =~= seq![c as u8]);
    assert(seq![c].drop_last() =~= Seq::<char>::empty());
    assert(encoded(seq![c]) =~= seq![c as u8]);
}

/// Parameters are written behind each other, each as a bar, its name, an equals sign
/// and its value. A value beyond the code page follows once more, under a marked
/// name.
pub proof fn law_params_text(a: Seq<Pair>, b: Seq<Pair>, name: Seq<char>, value: Seq<char>)
    ensures
        params_text(a + b) == params_text(a) + params_text(b),
        has_bytes(value) ==> params_text(seq![(name, value)]) == seq!['|'] + name + seq!['=']
            + value,
        !has_bytes(value) ==> (seq!['|'] + name + seq!['='] + value + seq![
            '|',
            '%',
            'U',
            'T',
            'F',
            '8',
            '%',
        ] + name + seq!['=']).is_prefix_of(params_text(seq![(name, value)])),
    decreases b.len(),
{
    reveal_with_fuel(params_text, 2);
    let one = seq![(name, value)];
    assert(one.drop_last() =~= Seq::<Pair>::empty());
    assert(params_text(one.drop_last()) =~= Seq::<char>::empty());
    assert(params_text(one) =~= param_text((name, value)));
    if !has_bytes(value) {
        reveal_strlit("%UTF8%");
        let start = seq!['|'] + name + seq!['='] + value + seq!['|', '%', 'U', 'T', 'F', '8', '%']
            + name + seq!['='];
        assert(params_text(one).take(start.len() as int) =~= start);
    }
    if b.len() > 0 {
        assert((a + b).drop_last() =~= a + b.drop_last());
        law_params_text(a, b.drop_last(), name, value);
        assert(params_text(a + b) =~= params_text(a) + params_text(b));
    } else {
        assert(a + b =~= a);
        assert(params_text(a) + params_text(b) =~= params_text(a));
    }
}

// Sections

/// A section goes by the name of its component, white space around it aside, as far
/// as 31 characters go. Letters, digits, underscores, dashes and dots stay, and any
/// other character is an underscore.
pub proof fn law_section_names(before: Seq<char>, name: Seq<char>, after: Seq<char>, i: int)
    requires
        all_white(before),
        is_bare(name),
        all_white(after),
    ensures
        ({
            let key = base_key(before + name + after);
            &&& name.len() == 0 ==> key == seq!['_']
            &&& 0 < name.len() <= 31 ==> key.len() == name.len()
            &&& name.len() > 31 ==> key.len() == 31
            &&& 0 <= i < name.len() && i < 31 ==> key[i] == if is_alphanumeric(name[i]) || name[i]
                == '_' || name[i] == '-' || name[i] == '.' {
                name[i]
            } else {
                '_'
            }
        }),
{
    law_trim(before, name, after);
}

/// A section key that is free is taken as it is. Where it is taken, a number from 2
/// on stands behind as much of it as leaves room, the first whose key is free.
pub proof fn law_section_numbers(name: Seq<char>, used: Seq<Seq<char>>)
    ensures
        ({
            let base = base_key(name);
            let key = unique_key(name, used);
            &&& !used.contains(base) ==> key == base
            &&& used.contains(base) ==> exists|n: nat|
                n >= 2 && key == #[trigger] numbered_key(base, n) && forall|m: nat|
                    2 <= m < n ==> used.contains(#[trigger] numbered_key(base, m))
        }),
{
    let base = base_key(name);
    if used.contains(base) {
        let free = crate::sections::lemma_first_free_exists(base, used, 2);
        let n = choose|index: nat| is_first_free(base, used, index);
        assert(is_first_free(base, used, n));
        assert(unique_key(name, used) == numbered_key(base, n));
    }
}

/// A numbered key ends in an underscore and its number, and starts like the key that
/// it stands in for.
pub proof fn law_numbered_keys(base: Seq<char>, n: nat)
    requires
        decimal(n).len() <= 20,
    ensures
        ({
            let key = numbered_key(base, n);
            let end = seq!['_'] + decimal(n);
            &&& crate::text::has_suffix(key, end)
            &&& base.len() + end.len() <= 31 ==> key == base + end
            &&& base.len() + end.len() > 31 ==> key.len() == 31 && key == base.take(31 - end.len())
                + end
        }),
{
    let key = numbered_key(base, n);
    let end = seq!['_'] + decimal(n);
    assert(key.skip(key.len() - end.len()) =~= end);
}

/// Section keys are given out in the order of the names: the keys of the first names
/// do not depend on those behind them, and the first name has its own key.
pub proof fn law_section_order(names: Seq<Seq<char>>, name: Seq<char>)
    ensures
        section_keys(names.push(name)) == section_keys(names).push(
            unique_key(name, section_keys(names)),
        ),
        section_keys(seq![name]) == seq![base_key(name)],
{
    reveal_with_fuel(section_keys, 2);
    assert(names.push(name).drop_last() =~= names);
    assert(seq![name].drop_last() =~= Seq::<Seq<char>>::empty());
    assert(section_keys(seq![name].drop_last()) =~= Seq::<Seq<char>>::empty());
    assert(section_keys(seq![name]) =~= seq![base_key(name)]);
}

/// A name is listed with its section key exactly where the two differ.
pub proof fn law_renamed(names: Seq<Seq<char>>, keys: Seq<Seq<char>>, i: int)
    requires
        names.len() == keys.len(),
        0 <= i < names.len(),
    ensures
        names[i] != keys[i] ==> renamed_keys(names, keys).contains((names[i], keys[i])),
        forall|k: int|
            0 <= k < renamed_keys(names, keys).len() ==> (#[trigger] renamed_keys(names, keys)[k]).0
                != renamed_keys(names, keys)[k].1,
    decreases names.len(),
{
    let n = names.len() - 1;
    let all = renamed_keys(names, keys);
    let before = renamed_keys(names.drop_last(), keys.drop_last());
    if n > 0 {
        if i < n {
            law_renamed(names.drop_last(), keys.drop_last(), i);
            if names[i] != keys[i] {
                let k = choose|k: int| 0 <= k < before.len() && before[k] == (names[i], keys[i]);
                assert(all[k] == before[k]);
            }
        } else {
            law_renamed(names.drop_last(), keys.drop_last(), 0);
        }
        assert forall|k: int| 0 <= k < all.len() implies (#[trigger] all[k]).0 != all[k].1 by {
            if k < before.len() {
                assert(all[k] == before[k]);
            }
        }
    }
    if i == n && names[i] != keys[i] {
        assert(all[all.len() - 1] == (names[i], keys[i]));
    }
}

/// Older libraries named a section after its component, with an underscore for each
/// slash, as far as 31 characters go.
pub proof fn law_legacy_keys(name: Seq<char>, i: int)
    ensures
        name.len() == 0 ==> legacy_key(name) == seq!['_'],
        0 < name.len() <= 31 ==> legacy_key(name).len() == name.len(),
        name.len() > 31 ==> legacy_key(name).len() == 31,
        0 <= i < name.len() && i < 31 ==> legacy_key(name)[i] == if name[i] == '/' {
            '_'
        } else {
            name[i]
        },
{
}

/// A section is looked for first under the key that the library lists, then under
/// the one that its name gives, then under that of older libraries, and last under
/// the name itself. None is tried twice.
pub proof fn law_candidates(name: Seq<char>, explicit: Option<Seq<char>>, derived: Seq<char>)
    requires
        derived.len() > 0,
    ensures
        ({
            let tried = key_candidates(name, explicit, derived);
            &&& tried.no_duplicates()
            &&& explicit is Some && trim(explicit->0).len() > 0 ==> tried[0] == explicit->0
            &&& explicit is None || trim(explicit->0).len() == 0 ==> tried[0] == derived
            &&& tried.contains(derived)
            &&& tried.contains(legacy_key(name))
            &&& name.len() > 0 ==> tried.contains(name)
        }),
{
    let first = match explicit {
        Some(value) => if trim(value).len() > 0 {
            crate::sections::with_candidate(Seq::empty(), value)
        } else {
            Seq::empty()
        },
        None => Seq::empty(),
    };
    if let Some(value) = explicit {
        if value.len() == 0 {
            assert(trim(value) == value);
        }
    }
    let second = crate::sections::with_candidate(first, derived);
    let third = crate::sections::with_candidate(second, legacy_key(name));
    let fourth = crate::sections::with_candidate(third, name);
    assert(first.no_duplicates());
    lemma_candidate(first, derived, derived);
    lemma_candidate(second, legacy_key(name), derived);
    lemma_candidate(second, legacy_key(name), legacy_key(name));
    lemma_candidate(third, name, derived);
    lemma_candidate(third, name, legacy_key(name));
    lemma_candidate(third, name, name);
}

proof fn lemma_candidate(candidates: Seq<Seq<char>>, value: Seq<char>, other: Seq<char>)
    requires
        candidates.no_duplicates(),
    ensures
        crate::sections::with_candidate(candidates, value).no_duplicates(),
        value.len() > 0 ==> crate::sections::with_candidate(candidates, value).contains(value),
        candidates.contains(other) ==> crate::sections::with_candidate(candidates, value).contains(
            other,
        ),
        candidates.len() > 0 ==> crate::sections::with_candidate(candidates, value).len() > 0
            && crate::sections::with_candidate(candidates, value)[0] == candidates[0],
        candidates.len() == 0 && value.len() > 0 ==> crate::sections::with_candidate(
            candidates,
            value,
        )[0] == value,
{
    let all = crate::sections::with_candidate(candidates, value);
    if value.len() > 0 && !candidates.contains(value) {
        assert(all[candidates.len() as int] == value);
        assert forall|i: int, j: int| 0 <= i < all.len() && 0 <= j < all.len() && i != j implies all[i]
            != all[j] by {
            if i < candidates.len() && j < candidates.len() {
                assert(candidates[i] != candidates[j]);
            } else if i < candidates.len() {
                assert(candidates.contains(candidates[i]));
            } else {
                assert(candidates.contains(candidates[j]));
            }
        }
        if candidates.contains(other) {
            let i = choose|i: int| 0 <= i < candidates.len() && candidates[i] == other;
            assert(all[i] == other);
        }
    }
}

/// The section that is found is the first of those that are tried that holds the
/// stream that is looked for.
pub proof fn law_found_first(
    streams: Streams,
    candidates: Seq<Seq<char>>,
    stream: Seq<char>,
    k: int,
)
    ensures
        0 <= k < candidates.len() && streams.contains_key(
            seq!['/'] + candidates[k] + seq!['/'] + stream,
        ) && (forall|j: int|
            0 <= j < k ==> !streams.contains_key(
                seq!['/'] + #[trigger] candidates[j] + seq!['/'] + stream,
            )) ==> found_key(streams, candidates, stream) == Some(candidates[k]),
        (forall|j: int|
            0 <= j < candidates.len() ==> !streams.contains_key(
                seq!['/'] + #[trigger] candidates[j] + seq!['/'] + stream,
            )) ==> found_key(streams, candidates, stream) is None,
    decreases candidates.len(),
{
    if candidates.len() > 0 {
        let rest = candidates.drop_first();
        assert(section_path(candidates[0], stream) == seq!['/'] + candidates[0] + seq!['/']
            + stream);
        law_found_first(streams, rest, stream, k - 1);
        if 0 < k < candidates.len() {
            assert(rest[k - 1] == candidates[k]);
        }
        assert forall|j: int| 0 <= j < rest.len() implies #[trigger] rest[j] == candidates[j
            + 1] by {}
    }
}

/// The key that a library lists for a name is that of the last entry under exactly
/// that name.
pub proof fn law_key_for(pairs: Seq<Pair>, name: Seq<char>, key: Seq<char>)
    ensures
        key_for(pairs.push((name, key)), name) == Some(key),
        forall|other: Seq<char>|
            other != name ==> #[trigger] key_for(pairs.push((name, key)), other) == key_for(
                pairs,
                other,
            ),
        key_for(Seq::empty(), name) is None,
        trim(name).len() > 0 && trim(key).len() > 0 ==> with_key(pairs, name, key) == pairs.push(
            (name, key),
        ),
        trim(name).len() == 0 || trim(key).len() == 0 ==> with_key(pairs, name, key) == pairs,
{
    assert(pairs.push((name, key)).drop_last() =~= pairs);
}

// Headers

/// The names that a header lists are those under `LIBREF` and their number, from 0
/// on.
pub proof fn law_names_listed(pairs: Seq<Pair>, names: Seq<Seq<char>>)
    requires
        forall|i: nat|
            i < names.len() ==> #[trigger] lookup(pairs, "LIBREF"@ + decimal(i)) == Some(
                names[i as int],
            ),
    ensures
        listed_names(pairs, names.len()) == names,
    decreases names.len(),
{
    if names.len() > 0 {
        let init = names.drop_last();
        let n = (names.len() - 1) as nat;
        assert(lookup(pairs, "LIBREF"@ + decimal(n)) == Some(names[n as int]));
        assert forall|i: nat| i < init.len() implies #[trigger] lookup(pairs, "LIBREF"@ + decimal(i))
            == Some(init[i as int]) by {
            assert(lookup(pairs, "LIBREF"@ + decimal(i)) == Some(names[i as int]));
        }
        law_names_listed(pairs, init);
        assert(listed_names(pairs, names.len()) =~= names);
    } else {
        assert(listed_names(pairs, 0) =~= names);
    }
}

/// The number of components is the one under `COMPCOUNT`, white space around it
/// aside, and none where there is no such number.
pub proof fn law_component_count(
    pairs: Seq<Pair>,
    before: Seq<char>,
    n: usize,
    after: Seq<char>,
)
    requires
        all_white(before),
        all_white(after),
    ensures
        lookup(pairs, "COMPCOUNT"@) == Some(before + decimal(n as nat) + after) ==> component_count(
            pairs,
        ) == n,
        lookup(pairs, "COMPCOUNT"@) is None ==> component_count(pairs) == 0,
{
    law_number_read_back(n as nat);
    lemma_decimal(n as nat);
    let digits = decimal(n as nat);
    assert(crate::text::is_digit(digits[0]) && crate::text::is_digit(digits[digits.len() - 1]));
    law_trim(before, digits, after);
}

/// The weight of a library is that of its records together.
pub proof fn law_total_weight(a: Seq<SchlibModel>, b: Seq<SchlibModel>, record: SchlibModel)
    ensures
        total_weight(a + b) == total_weight(a) + total_weight(b),
        total_weight(seq![record]) == record.weight,
        total_weight(Seq::empty()) == 0,
    decreases b.len(),
{
    reveal_with_fuel(total_weight, 2);
    assert(seq![record].drop_last() =~= Seq::<SchlibModel>::empty());
    if b.len() > 0 {
        assert((a + b).drop_last() =~= a + b.drop_last());
        law_total_weight(a, b.drop_last(), record);
    } else {
        assert(a + b =~= a);
    }
}

/// The part numbers of records come in their order: those of two lists behind each
/// other are those of the one and then of the other, and of one record the one that
/// it has.
pub proof fn law_record_identities(
    a: Seq<SchlibModel>,
    b: Seq<SchlibModel>,
    record: SchlibModel,
)
    ensures
        record_identities(a + b) == record_identities(a) + record_identities(b),
        record.identity matches Some(id) ==> record_identities(seq![record]) == seq![id],
        record.identity is None ==> record_identities(seq![record]).len() == 0,
    decreases b.len(),
{
    reveal_with_fuel(record_identities, 2);
    assert(seq![record].drop_last() =~= Seq::<SchlibModel>::empty());
    assert(record_identities(seq![record].drop_last()) =~= Seq::<Seq<char>>::empty());
    if let Some(id) = record.identity {
        assert(record_identities(seq![record]) =~= seq![id]);
    }
    if b.len() > 0 {
        assert((a + b).drop_last() =~= a + b.drop_last());
        law_record_identities(a, b.drop_last(), record);
        assert(record_identities(a + b) =~= record_identities(a) + record_identities(b));
    } else {
        assert(a + b =~= a);
        assert(record_identities(a) + record_identities(b) =~= record_identities(a));
    }
}

/// The sheet of a library has the weight and the number of components that it is
/// given, and for the rest the settings of every such sheet.
pub proof fn law_sheet_settings(weight: nat, count: nat)
    ensures
        ({
            let sheet = sheet_params(weight, count);
            &&& sheet.len() == 23
            &&& sheet.contains(
                (
                    "HEADER"@,
                    "Protel for Windows - Schematic Library Editor Binary File Version 5.0"@,
                ),
            )
            &&& sheet.contains(("WEIGHT"@, decimal(weight)))
            &&& sheet.contains(("COMPCOUNT"@, decimal(count)))
            &&& sheet.contains(("MINORVERSION"@, "2"@))
            &&& sheet.contains(("FONTIDCOUNT"@, "1"@)) && sheet.contains(("SYSTEMFONT"@, "1"@))
            &&& sheet.contains(("SIZE1"@, "10"@)) && sheet.contains(("FONTNAME1"@, "Times New Roman"@))
            &&& sheet.contains(("USEMBCS"@, "T"@)) && sheet.contains(("ISBOC"@, "T"@))
            &&& sheet.contains(("SHEETSTYLE"@, "9"@)) && sheet.contains(("BORDERON"@, "T"@))
            &&& sheet.contains(("SHEETNUMBERSPACESIZE"@, "12"@))
            &&& sheet.contains(("AREACOLOR"@, "16317695"@))
            &&& sheet.contains(("SNAPGRIDON"@, "T"@)) && sheet.contains(("SNAPGRIDSIZE"@, "10"@))
            &&& sheet.contains(("VISIBLEGRIDON"@, "T"@))
            &&& sheet.contains(("VISIBLEGRIDSIZE"@, "10"@))
            &&& sheet.contains(("CUSTOMX"@, "18000"@)) && sheet.contains(("CUSTOMY"@, "18000"@))
            &&& sheet.contains(("USECUSTOMSHEET"@, "T"@))
            &&& sheet.contains(("REFERENCEZONESON"@, "T"@))
            &&& sheet.contains(("DISPLAY_UNIT"@, "0"@))
        }),
{
    let sheet = sheet_params(weight, count);
    assert forall|i: int| 0 <= i < 23 implies sheet.contains(#[trigger] sheet[i]) by {}
    assert(sheet[0] == (
        "HEADER"@,
        "Protel for Windows - Schematic Library Editor Binary File Version 5.0"@,
    ));
    assert(sheet[1] == ("WEIGHT"@, decimal(weight)));
    assert(sheet[2] == ("MINORVERSION"@, "2"@));
    assert(sheet[3] == ("FONTIDCOUNT"@, "1"@));
    assert(sheet[4] == ("SIZE1"@, "10"@));
    assert(sheet[5] == ("FONTNAME1"@, "Times New Roman"@));
    assert(sheet[6] == ("USEMBCS"@, "T"@));
    assert(sheet[7] == ("ISBOC"@, "T"@));
    assert(sheet[8] == ("SHEETSTYLE"@, "9"@));
    assert(sheet[9] == ("SYSTEMFONT"@, "1"@));
    assert(sheet[10] == ("BORDERON"@, "T"@));
    assert(sheet[11] == ("SHEETNUMBERSPACESIZE"@, "12"@));
    assert(sheet[12] == ("AREACOLOR"@, "16317695"@));
    assert(sheet[13] == ("SNAPGRIDON"@, "T"@));
    assert(sheet[14] == ("SNAPGRIDSIZE"@, "10"@));
    assert(sheet[15] == ("VISIBLEGRIDON"@, "T"@));
    assert(sheet[16] == ("VISIBLEGRIDSIZE"@, "10"@));
    assert(sheet[17] == ("CUSTOMX"@, "18000"@));
    assert(sheet[18] == ("CUSTOMY"@, "18000"@));
    assert(sheet[19] == ("USECUSTOMSHEET"@, "T"@));
    assert(sheet[20] == ("REFERENCEZONESON"@, "T"@));
    assert(sheet[21] == ("DISPLAY_UNIT"@, "0"@));
    assert(sheet[22] == ("COMPCOUNT"@, decimal(count)));
}

// Streams

/// The streams of a schematic library: its header, its icons, the data of each
/// component in its section, and a list of the sections that go by another name than
/// their component, where there are any.
pub proof fn law_schlib_streams(streams: Streams, records: Seq<SchlibModel>, i: int)
    requires
        holds_schlib(streams, records),
    ensures
        stream_at(streams, "/FileHeader"@) == Some(header_stream(records)),
        stream_at(streams, "/Storage"@) == Some(
            block_bytes(0, ansi(params_text(seq![("HEADER"@, "Icon storage"@)])) + seq![0u8]),
        ),
        ({
            let names = model_names(records);
            let keys = section_keys(names);
            &&& 0 <= i < records.len() ==> stream_at(
                streams,
                seq!['/'] + keys[i] + seq!['/'] + "Data"@,
            ) == Some(records[i].data)
            &&& names == keys ==> !streams.contains_key("/SectionKeys"@)
            &&& 0 <= i < records.len() && names[i] != keys[i] ==> streams.contains_key(
                "/SectionKeys"@,
            )
        }),
{
    let names = model_names(records);
    let keys = section_keys(names);
    crate::sections::lemma_section_keys_len(names);
    if 0 <= i < records.len() {
        assert(section_path(keys[i], "Data"@) == seq!['/'] + keys[i] + seq!['/'] + "Data"@);
        law_renamed(names, keys, i);
        if names[i] != keys[i] {
            assert(renamed_keys(names, keys).len() > 0);
        }
    }
    if names == keys {
        lemma_none_renamed(names);
    }
}

proof fn lemma_none_renamed(names: Seq<Seq<char>>)
    ensures
        renamed_keys(names, names).len() == 0,
    decreases names.len(),
{
    if names.len() > 0 {
        lemma_none_renamed(names.drop_last());
    }
}

/// The streams of a footprint library: its header, its data with the names of all
/// components, its models and their number, and for each component its header with
/// the number of its primitives, its parameters, wide strings, data and identifiers.
pub proof fn law_pcblib_streams(
    streams: Streams,
    library: PcblibModel,
    params: Seq<char>,
    i: int,
)
    requires
        holds_pcblib(streams, library, params),
        library.models.len() <= i32::MAX,
    ensures
        stream_at(streams, "/FileHeader"@) == Some(pcblib_header_stream()),
        stream_at(streams, "/Library/Header"@) == Some(le_bytes(1)),
        stream_at(streams, "/Library/Data"@) == Some(
            library_data_stream(params, footprint_names(library.components)),
        ),
        stream_at(streams, "/Library/Models/Header"@) == Some(
            le_bytes(library.models.len() as u32),
        ),
        stream_at(streams, "/Library/Models/Data"@) == Some(models_stream(library.models)),
        stream_at(streams, "/Library/Textures/Header"@) == Some(le_bytes(0)),
        stream_at(streams, "/Library/Textures/Data"@) == Some(Seq::<u8>::empty()),
        stream_at(streams, "/Library/ModelsNoEmbed/Header"@) == Some(le_bytes(0)),
        stream_at(streams, "/Library/ModelsNoEmbed/Data"@) == Some(Seq::<u8>::empty()),
        0 <= i < library.models.len() ==> stream_at(
            streams,
            "/Library/Models/"@ + decimal(i as nat),
        ) == Some(library.models[i].stream),
        0 <= i < library.components.len() ==> ({
            let c = library.components[i];
            let at = seq!['/'] + section_keys(footprint_names(library.components))[i] + seq!['/'];
            &&& stream_at(streams, at + "Header"@) == Some(le_bytes(c.primitive_count as u32))
            &&& stream_at(streams, at + "Parameters"@) == Some(c.parameters)
            &&& stream_at(streams, at + "WideStrings"@) == Some(c.wide_strings)
            &&& stream_at(streams, at + "Data"@) == Some(c.data)
            &&& stream_at(streams, at + "UniqueIdPrimitiveInformation/Header"@) == Some(
                le_bytes(c.primitive_count as u32),
            )
            &&& stream_at(streams, at + "UniqueIdPrimitiveInformation/Data"@) == Some(
                c.unique_id_primitive_information,
            )
        }),
{
    assert(fixed_path(0) == "/FileHeader"@);
    assert(fixed_path(2) == "/Library/Header"@);
    assert(fixed_path(3) == "/Library/Data"@);
    assert(fixed_path(4) == "/Library/Models/Header"@);
    assert(fixed_path(5) == "/Library/Models/Data"@);
    assert(fixed_path(6) == "/Library/Textures/Header"@);
    assert(fixed_path(7) == "/Library/Textures/Data"@);
    assert(fixed_path(8) == "/Library/ModelsNoEmbed/Header"@);
    assert(fixed_path(9) == "/Library/ModelsNoEmbed/Data"@);
    let count = library.models.len() as i32;
    assert(count >= 0 ==> (count as u32) as int == count as int) by (bit_vector);
    if 0 <= i < library.models.len() {
        assert(model_path(i as nat) == "/Library/Models/"@ + decimal(i as nat));
    }
    if 0 <= i < library.components.len() {
        let keys = section_keys(footprint_names(library.components));
        let key = keys[i];
        assert(component_stream(0) == "Header"@);
        assert(component_stream(1) == "Parameters"@);
        assert(component_stream(2) == "WideStrings"@);
        assert(component_stream(3) == "Data"@);
        assert(component_stream(4) == "UniqueIdPrimitiveInformation/Header"@);
        assert(component_stream(5) == "UniqueIdPrimitiveInformation/Data"@);
        assert forall|x: int| 0 <= x < 6 implies stream_at(
            streams,
            seq!['/'] + key + seq!['/'] + #[trigger] component_stream(x),
        ) == Some(component_data(library.components[i], x)) by {
            assert(section_path(key, component_stream(x)) == seq!['/'] + key + seq!['/']
                + component_stream(x));
        }
    }
}

/// The data of a footprint library is its parameters as a text block, the number of
/// its components, and the name of each as a short string in a block.
pub proof fn law_library_data(params: Seq<char>, names: Seq<Seq<char>>, name: Seq<char>)
    ensures
        library_data_stream(params, names) == block_bytes(0, ansi(params) + seq![0u8]) + le_bytes(
            names.len() as u32,
        ) + name_blocks(names),
        name_blocks(names.push(name)) == name_blocks(names) + block_bytes(0, short_string(name)),
        name_blocks(Seq::empty()).len() == 0,
{
    assert(names.push(name).drop_last() =~= names);
}

/// The one component of a library that was written for it alone is read as the last of
/// its records, and a library without records has none.
pub proof fn law_captured(image: Seq<u8>)
    ensures
        schlib_image_result(image) matches Ok(records) ==> (records.len() > 0 ==> captured_result(
            image,
        ) == Ok::<SchlibModel, Failure>(records[records.len() - 1])),
        schlib_image_result(image) matches Ok(records) ==> (records.len() == 0 ==> captured_result(
            image,
        ) is Err),
        schlib_image_result(image) matches Err(failure) ==> captured_result(image) == Err::<
            SchlibModel,
            Failure,
        >(failure),
{
}

/// A text field ends at its first zero byte, and is read as Windows-1252 unless it
/// opens with a byte order mark.
pub proof fn law_text_fields(bytes: Seq<u8>, rest: Seq<u8>)
    requires
        !bytes.contains(0u8),
        !starts_with_mark(bytes),
    ensures
        cstring(bytes + seq![0u8] + rest) == decoded(bytes),
        cstring(bytes) == decoded(bytes),
{
    let data = bytes + seq![0u8] + rest;
    let n = bytes.len();
    assert forall|i: int| 0 <= i < n implies data[i] != 0 && bytes[i] != 0 by {
        assert(data[i] == bytes[i]);
        assert(bytes.contains(bytes[i]));
    }
    crate::wire::lemma_nul_end(data, n);
    crate::wire::lemma_nul_end(bytes, n);
    assert(data.take(n as int) =~= bytes);
    assert(bytes.take(n as int) =~= bytes);
}

/// A block that says more than is left is refused, and so are parameters in a block
/// that has flags.
pub proof fn law_torn_blocks(before: Seq<u8>, flags: u8, payload: Seq<u8>, n: int, label: Seq<char>)
    requires
        payload.len() < 0x100_0000,
        0 <= n < payload.len(),
    ensures
        block_result(before + block_bytes(flags, payload).take(4 + n), before.len() as int, label)
            is Err,
        flags != 0 ==> first_pairs_result(block_bytes(flags, payload), label) is Err,
{
    let none = Seq::<u8>::empty();
    law_block_layout(flags, payload);
    let whole = block_bytes(flags, payload);
    let data = before + whole.take(4 + n);
    let at = before.len() as int;
    assert(data[at] == whole[0] && data[at + 1] == whole[1] && data[at + 2] == whole[2]);
    crate::wire::law_block_round_trip(none, flags, payload, none);
    assert(none + whole + none =~= whole);
}

/// Parameters that stand behind each other with a bar between them are read one after
/// the other. A piece without an equals sign is none, and the value of a piece starts
/// behind its first equals sign.
pub proof fn law_pieces(a: Seq<char>, b: Seq<char>, name: Seq<char>, value: Seq<char>)
    requires
        !name.contains('|'),
        !name.contains('='),
        !value.contains('|'),
    ensures
        text_pairs(a + seq!['|'] + b) == text_pairs(a) + text_pairs(b),
        text_pairs(name).len() == 0,
        name.len() == 0 || name[0] != '%' ==> text_pairs(name + seq!['='] + value) == seq![
            (name, value),
        ],
{
    lemma_pairs_join(a, b);
    reveal_with_fuel(pieces_pairs, 2);
    let none = Seq::<Seq<char>>::empty();
    lemma_split_without(name, '|');
    assert(seq![name].drop_last() =~= none);
    assert(pieces_pairs(none) =~= Seq::<Pair>::empty());
    crate::text_laws::law_cut(name, '=');
    assert(text_pairs(name) =~= Seq::<Pair>::empty());
    let piece = name + seq!['='] + value;
    if piece.contains('|') {
        let i = choose|i: int| 0 <= i < piece.len() && piece[i] == '|';
        if i < name.len() {
            assert(name[i] == '|');
        } else if i > name.len() {
            assert(value[i - name.len() - 1] == '|');
        }
    }
    lemma_split_without(piece, '|');
    assert(seq![piece].drop_last() =~= none);
    assert forall|i: int| 0 <= i < name.len() implies piece[i] != '=' by {
        if piece[i] == '=' {
            assert(name[i] == '=');
        }
    }
    assert(piece[name.len() as int] == '=');
    lemma_find_is(piece, '=', name.len());
    assert(piece.take(name.len() as int) =~= name);
    assert(piece.skip(name.len() as int + 1) =~= value);
    reveal_strlit("%UTF8%");
    if "%UTF8%"@.is_prefix_of(name) {
        assert(name[0] == "%UTF8%"@[0]);
    }
    assert(text_pairs(piece) =~= piece_pairs(piece));
}

/// A section that is not found is reported with all the paths that were tried for it,
/// in their order and with commas between them.
pub proof fn law_tried_paths(candidates: Seq<Seq<char>>, key: Seq<char>, stream: Seq<char>)
    ensures
        tried_paths(seq![key], stream) == seq!['/'] + key + seq!['/'] + stream,
        candidates.len() > 0 ==> tried_paths(candidates.push(key), stream) == tried_paths(
            candidates,
            stream,
        ) + seq![',', ' '] + seq!['/'] + key + seq!['/'] + stream,
{
    reveal_strlit(", ");
    assert(", "@ =~= seq![',', ' ']);
    assert(candidates.push(key).drop_last() =~= candidates);
    if candidates.len() > 0 {
        assert(tried_paths(candidates.push(key), stream) =~= tried_paths(candidates, stream) + seq![
            ',',
            ' ',
        ] + seq!['/'] + key + seq!['/'] + stream);
    }
}

} // verus!
