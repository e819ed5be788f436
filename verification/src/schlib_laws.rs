//! A schematic library that was written is read back.

use vstd::prelude::*;
use crate::compound::{stream_at, Streams};
use crate::error::Failure;
use vstd::utf8::encode_utf8;
use crate::codec::{has_byte, has_bytes, starts_with_mark};
use crate::param_laws::{
    all_reread_pairs, are_lasting, is_lasting, is_param_name, lemma_all_reread_concat,
    lemma_ascii_has_byte, lemma_lookup_concat, lemma_lookup_other, lemma_lookup_param,
    lemma_lookup_reread, lemma_params_block_read, lemma_plain_reread, reread_pairs,
};
use crate::pcb_laws::lemma_names_parted;
use crate::params::{lookup, lookup_number, params_text, Pair};
use crate::schlib::{
    component_count, components_result, header_params, header_stream, holds_schlib, indexed,
    key_count, key_params, keys_stream, listed_keys, listed_names, model_names, name_blocks, params_block,
    record_params, record_result, schlib_keys, schlib_result, sheet_params, total_weight,
    SchlibModel,
};
use crate::sections::{
    is_key, is_key_char, key_candidates, key_for, lemma_section_keys_are_keys,
    lemma_section_keys_len, renamed_keys, section_keys, section_path, section_result, with_key,
};
use crate::text::{
    decimal, is_digit, lemma_decimal, lemma_decimal_injective, lower, lower_text, parsed_number,
    same_but_case, trim,
};
use crate::wire::{
    ansi, block_bytes, block_result, blocks_result, first_pairs_result, law_le_round_trip, le_bytes,
    le_value, lemma_block_read, short_string, BlockAt,
};

verus! {

/// Whether `name` is ASCII without bars, equals signs, NUL and percent signs.
spec fn is_word(name: Seq<char>) -> bool {
    forall|i: int|
        0 <= i < name.len() ==> {
            let c = #[trigger] name[i];
            c < '\u{80}' && c != '|' && c != '=' && c != '\0' && c != '%'
        }
}

/// A parameter can be read back under a word.
proof fn lemma_word(name: Seq<char>)
    requires
        is_word(name),
    ensures
        is_param_name(name),
{
    assert forall|i: int| 0 <= i < name.len() implies has_byte(#[trigger] name[i]) by {
        lemma_ascii_has_byte(name[i]);
    }
    reveal_strlit("%UTF8%");
    if "%UTF8%"@.is_prefix_of(name) {
        assert(name[0] == "%UTF8%"@[0]);
    }
}

proof fn lemma_decimal_number(n: nat)
    ensures
        parsed_number(trim(decimal(n))) == Some(n),
        is_lasting(decimal(n)),
        is_word(decimal(n)),
        has_bytes(decimal(n)),
{
    lemma_decimal(n);
    let text = decimal(n);
    assert(is_digit(text[0]));
    assert(is_digit(text[text.len() - 1]));
    assert(trim(text) == text);
    assert forall|i: int| 0 <= i < text.len() implies {
        let c = #[trigger] text[i];
        c < '\u{80}' && c != '|' && c != '=' && c != '\0' && c != '%'
    } by {
        assert(is_digit(text[i]));
    }
    lemma_ascii_lasting(text);
    lemma_word(text);
}

proof fn lemma_char_floor(c: char)
    ensures
        '\0' <= c,
{
}

/// ASCII text without bars and NUL survives being written and read.
pub proof fn lemma_ascii_lasting(text: Seq<char>)
    requires
        forall|i: int|
            0 <= i < text.len() ==> {
                let c = #[trigger] text[i];
                c < '\u{80}' && c != '|' && c != '\0'
            },
    ensures
        is_lasting(text),
{
    assert forall|i: int| 0 <= i < text.len() implies '\0' <= #[trigger] text[i] <= '\u{7f}' by {
        let c: char = text[i];
        lemma_char_floor(c);
        assert(c < '\u{80}');
    }
    assert(vstd::utf8::is_ascii_chars(text));
    vstd::utf8::is_ascii_chars_encode_utf8(text);
    let bytes = vstd::utf8::encode_utf8(text);
    assert(bytes.len() >= 1 ==> bytes[0] < 0x80);
}

/// Indexed words are parameter names, and differ in the index even where case
/// does not count.
proof fn lemma_indexed(word: Seq<char>, i: nat, j: nat)
    requires
        is_word(word),
    ensures
        is_word(indexed(word, i)),
        is_param_name(indexed(word, i)),
        same_but_case(indexed(word, i), indexed(word, j)) ==> i == j,
{
    lemma_decimal_number(i);
    lemma_decimal(i);
    lemma_decimal(j);
    let a = indexed(word, i);
    let b = indexed(word, j);
    let n = word.len() as int;
    assert forall|k: int| 0 <= k < a.len() implies {
        let c = #[trigger] a[k];
        c < '\u{80}' && c != '|' && c != '=' && c != '\0' && c != '%'
    } by {
        if k < n {
            assert(a[k] == word[k]);
        } else {
            assert(a[k] == decimal(i)[k - n]);
        }
    }
    lemma_word(a);
    if same_but_case(a, b) {
        assert(lower_text(a).len() == a.len() && lower_text(b).len() == b.len());
        assert forall|k: int| 0 <= k < decimal(i).len() implies decimal(i)[k] == decimal(j)[k] by {
            assert(lower_text(a)[n + k] == lower_text(b)[n + k]);
            assert(is_digit(decimal(i)[k]) && is_digit(decimal(j)[k]));
            assert(a[n + k] == decimal(i)[k] && b[n + k] == decimal(j)[k]);
        }
        assert(decimal(i) =~= decimal(j));
        lemma_decimal_injective(i, j);
    }
}

/// Texts whose characters at `k` differ in more than case are not the same but for case.
proof fn lemma_differ_at(a: Seq<char>, b: Seq<char>, k: int)
    requires
        0 <= k < a.len(),
        0 <= k < b.len(),
        lower(a[k]) != lower(b[k]),
    ensures
        !same_but_case(a, b),
{
    assert(lower_text(a)[k] == lower(a[k]));
    assert(lower_text(b)[k] == lower(b[k]));
}

proof fn lemma_words()
    ensures
        is_word("LIBREF"@),
        is_word("COMPDESCR"@),
        is_word("PARTCOUNT"@),
        is_word("COMPCOUNT"@),
        is_param_name("COMPCOUNT"@),
        is_word("LibRef"@),
        is_word("SectionKey"@),
        is_word("KeyCount"@),
        is_param_name("KeyCount"@),
        "LIBREF"@.len() == 6 && "LIBREF"@[0] == 'L',
        "COMPDESCR"@.len() == 9 && "COMPDESCR"@[0] == 'C' && "COMPDESCR"@[4] == 'D',
        "PARTCOUNT"@.len() == 9 && "PARTCOUNT"@[0] == 'P',
        "COMPCOUNT"@.len() == 9 && "COMPCOUNT"@[0] == 'C' && "COMPCOUNT"@[4] == 'C',
        "LibRef"@.len() == 6 && "LibRef"@[0] == 'L',
        "SectionKey"@.len() == 10 && "SectionKey"@[0] == 'S',
        "KeyCount"@.len() == 8 && "KeyCount"@[0] == 'K',
{
    reveal_strlit("LIBREF");
    reveal_strlit("COMPDESCR");
    reveal_strlit("PARTCOUNT");
    reveal_strlit("COMPCOUNT");
    reveal_strlit("LibRef");
    reveal_strlit("SectionKey");
    reveal_strlit("KeyCount");
    lemma_word("COMPCOUNT"@);
    lemma_word("KeyCount"@);
}

/// Whether the description at `index`, as it is written, brings in none of the
/// header entries that say how many components there are and what they are called.
pub open spec fn is_harmless(description: Seq<char>, index: nat, count: nat) -> bool {
    let pairs = reread_pairs((indexed("COMPDESCR"@, index), description));
    &&& lookup(pairs, "COMPCOUNT"@) is None
    &&& forall|k: nat| k < count ==> lookup(pairs, #[trigger] indexed("LIBREF"@, k)) is None
}

/// A description without bars that does not open with a byte order mark is harmless.
pub proof fn law_bar_free_is_harmless(description: Seq<char>, index: nat, count: nat)
    requires
        !description.contains('|'),
        !starts_with_mark(encode_utf8(description)),
    ensures
        is_harmless(description, index, count),
{
    lemma_words();
    lemma_indexed("COMPDESCR"@, index, index);
    let key = indexed("COMPDESCR"@, index);
    let param = (key, description);
    lemma_differ_at(key, "COMPCOUNT"@, 4);
    lemma_lookup_other(param, "COMPCOUNT"@);
    assert forall|k: nat| k < count implies lookup(
        reread_pairs(param),
        #[trigger] indexed("LIBREF"@, k),
    ) is None by {
        lemma_differ_at(key, indexed("LIBREF"@, k), 0);
        lemma_lookup_other(param, indexed("LIBREF"@, k));
    }
}

/// Whether these records can be told apart and named in the format: names are
/// different and lasting, descriptions are harmless, and the two blocks of
/// parameters fit the three bytes that a block has for its length.
pub open spec fn is_storable(records: Seq<SchlibModel>) -> bool {
    let names = model_names(records);
    let renamed = renamed_keys(names, section_keys(names));
    &&& records.len() <= usize::MAX
    &&& names.no_duplicates()
    &&& forall|i: int| 0 <= i < records.len() ==> is_lasting(#[trigger] names[i])
    &&& forall|i: int|
        0 <= i < records.len() ==> is_harmless(
            (#[trigger] records[i]).description,
            i as nat,
            records.len(),
        )
    &&& ansi(params_text(header_params(records))).len() + 1 < 0x100_0000
    &&& ansi(
        params_text(seq![("KeyCount"@, decimal(renamed.len()))] + key_params(renamed)),
    ).len() + 1 < 0x100_0000
}

/// What a list of parameters ends with decides a lookup.
proof fn lemma_lookup_last(params: Seq<Pair>, more: Seq<Pair>, key: Seq<char>)
    ensures
        lookup(all_reread_pairs(params + more), key) == match lookup(all_reread_pairs(more), key) {
            Some(value) => Some(value),
            None => lookup(all_reread_pairs(params), key),
        },
{
    lemma_all_reread_concat(params, more);
    lemma_lookup_concat(all_reread_pairs(params), all_reread_pairs(more), key);
}

proof fn lemma_one(param: Pair)
    ensures
        all_reread_pairs(seq![param]) == reread_pairs(param),
{
    assert(seq![param].drop_last() =~= Seq::<Pair>::empty());
    assert(all_reread_pairs(seq![param].drop_last()) =~= Seq::<Pair>::empty());
    assert(all_reread_pairs(seq![param]) =~= reread_pairs(param));
}

/// A lookup in what is read of the three parameters of a record.
proof fn lemma_lookup_record(a: Pair, b: Pair, c: Pair, key: Seq<char>)
    ensures
        lookup(all_reread_pairs(seq![a, b, c]), key) == match lookup(reread_pairs(c), key) {
            Some(value) => Some(value),
            None => match lookup(reread_pairs(b), key) {
                Some(value) => Some(value),
                None => lookup(reread_pairs(a), key),
            },
        },
{
    assert(seq![a, b, c] =~= seq![a] + seq![b] + seq![c]);
    lemma_lookup_last(seq![a] + seq![b], seq![c], key);
    lemma_lookup_last(seq![a], seq![b], key);
    lemma_one(a);
    lemma_one(b);
    lemma_one(c);
}

/// What the parameters of the records say of component `k` and of the count.
#[verifier::rlimit(40)]
proof fn lemma_record_params(records: Seq<SchlibModel>, count: nat, k: nat)
    requires
        records.len() <= count,
        k < count,
        forall|i: int|
            0 <= i < records.len() ==> is_lasting((#[trigger] records[i]).name) && is_harmless(
                records[i].description,
                i as nat,
                count,
            ),
    ensures
        lookup(all_reread_pairs(record_params(records)), "COMPCOUNT"@) is None,
        lookup(all_reread_pairs(record_params(records)), indexed("LIBREF"@, k)) == if k
            < records.len() {
            Some(records[k as int].name)
        } else {
            None
        },
    decreases records.len(),
{
    lemma_words();
    if records.len() > 0 {
        let init = records.drop_last();
        let i = (records.len() - 1) as nat;
        let record = records.last();
        assert(record == records[i as int]);
        assert forall|j: int| 0 <= j < init.len() implies is_lasting((#[trigger] init[j]).name)
            && is_harmless(init[j].description, j as nat, count) by {
            assert(init[j] == records[j]);
        }
        lemma_record_params(init, count, k);
        let a = (indexed("LIBREF"@, i), record.name);
        let b = (indexed("COMPDESCR"@, i), record.description);
        let c = (indexed("PARTCOUNT"@, i), decimal(record.header_part_count as nat));
        let name_key = indexed("LIBREF"@, k);
        lemma_indexed("LIBREF"@, i, k);
        lemma_indexed("PARTCOUNT"@, i, i);
        lemma_decimal_number(record.header_part_count as nat);
        lemma_lookup_param(a, name_key);
        lemma_lookup_param(c, name_key);
        lemma_lookup_param(a, "COMPCOUNT"@);
        lemma_lookup_param(c, "COMPCOUNT"@);
        lemma_differ_at(c.0, name_key, 0);
        lemma_differ_at(c.0, "COMPCOUNT"@, 0);
        lemma_differ_at(a.0, "COMPCOUNT"@, 0);
        lemma_lookup_record(a, b, c, name_key);
        lemma_lookup_record(a, b, c, "COMPCOUNT"@);
        lemma_lookup_last(record_params(init), seq![a, b, c], name_key);
        lemma_lookup_last(record_params(init), seq![a, b, c], "COMPCOUNT"@);
        assert(record_params(records) =~= record_params(init) + seq![a, b, c]);
        if k == i {
            assert(same_but_case(a.0, name_key));
        } else if k < i {
            assert(records[k as int] == init[k as int]);
        }
    }
}

/// The names that are read from a written header are the names that it was given.
proof fn lemma_names_read(records: Seq<SchlibModel>)
    requires
        is_storable(records),
    ensures
        ({
            let pairs = all_reread_pairs(header_params(records));
            &&& component_count(pairs) == records.len()
            &&& listed_names(pairs, component_count(pairs)) == model_names(records)
        }),
{
    let count = records.len();
    let pairs = all_reread_pairs(header_params(records));
    let names = model_names(records);
    assert forall|i: int| 0 <= i < records.len() implies is_lasting((#[trigger] records[i]).name)
        && is_harmless(records[i].description, i as nat, count) by {
        assert(is_lasting(names[i]));
    }
    lemma_words();
    let sheet = sheet_params(total_weight(records), count);
    let last = ("COMPCOUNT"@, decimal(count));
    lemma_decimal_number(count);
    assert(sheet.last() == last);
    assert(sheet =~= sheet.drop_last() + seq![last]);
    lemma_lookup_param(last, "COMPCOUNT"@);
    lemma_one(last);
    lemma_lookup_last(sheet.drop_last(), seq![last], "COMPCOUNT"@);
    lemma_lookup_last(sheet, record_params(records), "COMPCOUNT"@);
    if count > 0 {
        lemma_record_params(records, count, 0);
    } else {
        assert(record_params(records) =~= Seq::<Pair>::empty());
    }
    assert(lookup(pairs, "COMPCOUNT"@) == Some(decimal(count)));
    assert forall|k: nat| k < count implies #[trigger] lookup(pairs, indexed("LIBREF"@, k)) == Some(
        names[k as int],
    ) by {
        lemma_record_params(records, count, k);
        lemma_lookup_last(sheet, record_params(records), indexed("LIBREF"@, k));
    }
    lemma_listed_names(pairs, names, count);
    assert(names.take(count as int) =~= names);
}

proof fn lemma_listed_names(pairs: Seq<Pair>, names: Seq<Seq<char>>, n: nat)
    requires
        n <= names.len(),
        forall|k: nat|
            k < names.len() ==> #[trigger] lookup(pairs, indexed("LIBREF"@, k)) == Some(
                names[k as int],
            ),
    ensures
        listed_names(pairs, n) == names.take(n as int),
    decreases n,
{
    if n > 0 {
        lemma_listed_names(pairs, names, (n - 1) as nat);
        assert(lookup(pairs, indexed("LIBREF"@, (n - 1) as nat)) == Some(names[n - 1]));
        assert(names.take(n as int) =~= names.take(n - 1).push(names[n - 1]));
    } else {
        assert(names.take(0) =~= Seq::<Seq<char>>::empty());
    }
}

/// Every renamed pair is a name and its key.
pub proof fn lemma_renamed(names: Seq<Seq<char>>, keys: Seq<Seq<char>>)
    requires
        names.len() == keys.len(),
    ensures
        renamed_keys(names, keys).len() <= names.len(),
        forall|p: int|
            0 <= p < renamed_keys(names, keys).len() ==> exists|j: int|
                0 <= j < names.len() && #[trigger] renamed_keys(names, keys)[p] == (
                    names[j],
                    keys[j],
                ),
    decreases names.len(),
{
    if names.len() > 0 {
        let n = names.drop_last();
        let k = keys.drop_last();
        lemma_renamed(n, k);
        let all = renamed_keys(names, keys);
        let before = renamed_keys(n, k);
        assert forall|p: int| 0 <= p < all.len() implies exists|j: int|
            0 <= j < names.len() && #[trigger] all[p] == (names[j], keys[j]) by {
            if p < before.len() {
                assert(all[p] == before[p]);
                let j = choose|j: int| 0 <= j < n.len() && before[p] == (n[j], k[j]);
                assert(names[j] == n[j] && keys[j] == k[j]);
            } else {
                let j = names.len() - 1;
                assert(all[p] == (names[j], keys[j]));
            }
        }
    }
}

proof fn lemma_key_lasting(key: Seq<char>)
    requires
        is_key(key),
    ensures
        is_lasting(key),
{
    assert forall|i: int| 0 <= i < key.len() implies {
        let c = #[trigger] key[i];
        c < '\u{80}' && c != '|' && c != '\0'
    } by {
        assert(is_key_char(key[i]));
    }
    lemma_ascii_lasting(key);
}

/// What the listed section keys say of entry `k`.
proof fn lemma_key_params(pairs: Seq<Pair>, k: nat)
    requires
        forall|i: int|
            0 <= i < pairs.len() ==> is_lasting((#[trigger] pairs[i]).0) && is_lasting(pairs[i].1),
    ensures
        lookup(all_reread_pairs(key_params(pairs)), "KeyCount"@) is None,
        lookup(all_reread_pairs(key_params(pairs)), indexed("LibRef"@, k)) == if k < pairs.len() {
            Some(pairs[k as int].0)
        } else {
            None
        },
        lookup(all_reread_pairs(key_params(pairs)), indexed("SectionKey"@, k)) == if k
            < pairs.len() {
            Some(pairs[k as int].1)
        } else {
            None
        },
    decreases pairs.len(),
{
    lemma_words();
    if pairs.len() > 0 {
        let init = pairs.drop_last();
        let i = (pairs.len() - 1) as nat;
        assert(pairs.last() == pairs[i as int]);
        assert forall|j: int| 0 <= j < init.len() implies is_lasting((#[trigger] init[j]).0)
            && is_lasting(init[j].1) by {
            assert(init[j] == pairs[j]);
        }
        lemma_key_params(init, k);
        let a = (indexed("LibRef"@, i), pairs.last().0);
        let b = (indexed("SectionKey"@, i), pairs.last().1);
        let name_key = indexed("LibRef"@, k);
        let section_key = indexed("SectionKey"@, k);
        lemma_indexed("LibRef"@, i, k);
        lemma_indexed("SectionKey"@, i, k);
        lemma_differ_at(a.0, section_key, 0);
        lemma_differ_at(b.0, name_key, 0);
        lemma_differ_at(a.0, "KeyCount"@, 0);
        lemma_differ_at(b.0, "KeyCount"@, 0);
        lemma_lookup_two(a, b, name_key);
        lemma_lookup_two(a, b, section_key);
        lemma_lookup_two(a, b, "KeyCount"@);
        lemma_lookup_last(key_params(init), seq![a, b], name_key);
        lemma_lookup_last(key_params(init), seq![a, b], section_key);
        lemma_lookup_last(key_params(init), seq![a, b], "KeyCount"@);
        assert(key_params(pairs) =~= key_params(init) + seq![a, b]);
        if k == i {
            assert(same_but_case(a.0, name_key));
            assert(same_but_case(b.0, section_key));
        } else if k < i {
            assert(pairs[k as int] == init[k as int]);
        }
    }
}

proof fn lemma_lookup_two(a: Pair, b: Pair, key: Seq<char>)
    requires
        is_param_name(a.0),
        is_param_name(b.0),
        is_lasting(a.1),
        is_lasting(b.1),
    ensures
        lookup(all_reread_pairs(seq![a, b]), key) == if same_but_case(b.0, key) {
            Some(b.1)
        } else if same_but_case(a.0, key) {
            Some(a.1)
        } else {
            None
        },
{
    assert(seq![a, b] =~= seq![a] + seq![b]);
    lemma_lookup_last(seq![a], seq![b], key);
    lemma_one(a);
    lemma_one(b);
    lemma_lookup_param(a, key);
    lemma_lookup_param(b, key);
}

/// The listed keys are among the pairs that were written.
proof fn lemma_listed_keys(pairs: Seq<Pair>, renamed: Seq<Pair>, n: nat)
    requires
        n <= renamed.len(),
        forall|k: nat|
            k < renamed.len() ==> #[trigger] lookup(pairs, indexed("LibRef"@, k)) == Some(
                renamed[k as int].0,
            ),
        forall|k: nat|
            k < renamed.len() ==> #[trigger] lookup(pairs, indexed("SectionKey"@, k)) == Some(
                renamed[k as int].1,
            ),
    ensures
        forall|p: int|
            0 <= p < listed_keys(pairs, n).len() ==> renamed.contains(#[trigger] listed_keys(
                pairs,
                n,
            )[p]),
    decreases n,
{
    if n > 0 {
        let m = (n - 1) as nat;
        lemma_listed_keys(pairs, renamed, m);
        assert(lookup(pairs, indexed("LibRef"@, m)) == Some(renamed[m as int].0));
        assert(lookup(pairs, indexed("SectionKey"@, m)) == Some(renamed[m as int].1));
        let before = listed_keys(pairs, m);
        let all = listed_keys(pairs, n);
        assert(all == with_key(before, renamed[m as int].0, renamed[m as int].1));
        assert forall|p: int| 0 <= p < all.len() implies renamed.contains(#[trigger] all[p]) by {
            if p < before.len() {
                assert(all[p] == before[p]);
            } else {
                assert(all[p] == renamed[m as int]);
            }
        }
    }
}

/// What a name is looked up as is one of the pairs.
pub proof fn lemma_key_for(pairs: Seq<Pair>, name: Seq<char>)
    ensures
        key_for(pairs, name) matches Some(key) ==> pairs.contains((name, key)),
    decreases pairs.len(),
{
    if pairs.len() > 0 {
        if pairs.last().0 == name {
            assert(pairs[pairs.len() - 1] == pairs.last());
            assert(pairs.last() == (name, pairs.last().1));
        } else {
            lemma_key_for(pairs.drop_last(), name);
            if let Some(key) = key_for(pairs.drop_last(), name) {
                let init = pairs.drop_last();
                let p = choose|p: int| 0 <= p < init.len() && init[p] == (name, key);
                assert(pairs[p] == (name, key));
            }
        }
    }
}

/// The section keys of a written library, where they give one for a component,
/// give the one under which it was written.
proof fn lemma_keys_read(streams: Streams, records: Seq<SchlibModel>, i: int)
    requires
        is_storable(records),
        holds_schlib(streams, records),
        0 <= i < records.len(),
    ensures
        ({
            let names = model_names(records);
            key_for(schlib_keys(streams), names[i]) matches Some(key) ==> key == section_keys(
                names,
            )[i]
        }),
{
    let names = model_names(records);
    let keys = section_keys(names);
    let renamed = renamed_keys(names, keys);
    lemma_section_keys_len(names);
    lemma_section_keys_are_keys(names);
    lemma_renamed(names, keys);
    if renamed.len() > 0 {
        let params = seq![("KeyCount"@, decimal(renamed.len()))] + key_params(renamed);
        let none = Seq::<u8>::empty();
        lemma_params_block_read(params, none, "SchLib section keys"@);
        assert(params_block(params) + none =~= params_block(params));
        let pairs = all_reread_pairs(params);
        assert forall|p: int| 0 <= p < renamed.len() implies is_lasting((#[trigger] renamed[p]).0)
            && is_lasting(renamed[p].1) by {
            let j = choose|j: int| 0 <= j < names.len() && renamed[p] == (names[j], keys[j]);
            assert(is_lasting(names[j]));
            assert(is_key(keys[j]));
            lemma_key_lasting(keys[j]);
        }
        let first = ("KeyCount"@, decimal(renamed.len()));
        lemma_words();
        lemma_decimal_number(renamed.len());
        lemma_one(first);
        lemma_lookup_param(first, "KeyCount"@);
        lemma_lookup_last(seq![first], key_params(renamed), "KeyCount"@);
        lemma_key_params(renamed, 0);
        assert(lookup(pairs, "KeyCount"@) == Some(decimal(renamed.len())));
        assert(key_count(pairs) == renamed.len());
        assert forall|k: nat| k < renamed.len() implies #[trigger] lookup(
            pairs,
            indexed("LibRef"@, k),
        ) == Some(renamed[k as int].0) by {
            lemma_lookup_last(seq![first], key_params(renamed), indexed("LibRef"@, k));
            lemma_key_params(renamed, k);
        }
        assert forall|k: nat| k < renamed.len() implies #[trigger] lookup(
            pairs,
            indexed("SectionKey"@, k),
        ) == Some(renamed[k as int].1) by {
            lemma_lookup_last(seq![first], key_params(renamed), indexed("SectionKey"@, k));
            lemma_key_params(renamed, k);
        }
        lemma_listed_keys(pairs, renamed, renamed.len());
        let listed = schlib_keys(streams);
        assert(listed == listed_keys(pairs, renamed.len()));
        lemma_key_for(listed, names[i]);
        if let Some(key) = key_for(listed, names[i]) {
            let q = choose|q: int| 0 <= q < listed.len() && listed[q] == (names[i], key);
            assert(renamed.contains(listed[q]));
            let p = choose|p: int| 0 <= p < renamed.len() && renamed[p] == listed[q];
            let j = choose|j: int| 0 <= j < names.len() && renamed[p] == (names[j], keys[j]);
            assert(names[j] == names[i]);
            assert(j == i);
        }
    } else {
        assert(schlib_keys(streams) =~= Seq::<Pair>::empty());
    }
}

/// Where the first place to look holds the stream, that is where it is found.
pub proof fn lemma_found_first(
    streams: Streams,
    name: Seq<char>,
    explicit: Option<Seq<char>>,
    key: Seq<char>,
    stream: Seq<char>,
)
    requires
        is_key(key),
        explicit matches Some(other) ==> other == key,
        streams.contains_key(section_path(key, stream)),
    ensures
        section_result(streams, name, explicit, key, stream) == Ok::<Seq<char>, Failure>(key),
{
    let candidates = key_candidates(name, explicit, key);
    assert(candidates.len() > 0 && candidates[0] == key);
}

/// The records that reading gives back for `records`: the name and the data as
/// they are, and the rest as the data says.
pub open spec fn reread_records(records: Seq<SchlibModel>) -> Result<Seq<SchlibModel>, Failure>
    decreases records.len(),
{
    if records.len() == 0 {
        Ok(Seq::empty())
    } else {
        match reread_records(records.drop_last()) {
            Ok(before) => match record_result(records.last().name, records.last().data) {
                Ok(record) => Ok(before.push(record)),
                Err(failure) => Err(failure),
            },
            Err(failure) => Err(failure),
        }
    }
}

proof fn lemma_components_read(streams: Streams, records: Seq<SchlibModel>, n: int)
    requires
        is_storable(records),
        holds_schlib(streams, records),
        0 <= n <= records.len(),
    ensures
        components_result(streams, model_names(records), n) == reread_records(records.take(n)),
    decreases n,
{
    if n > 0 {
        let names = model_names(records);
        let keys = section_keys(names);
        let i = n - 1;
        lemma_components_read(streams, records, i);
        assert(records.take(n).drop_last() =~= records.take(i));
        assert(records.take(n).last() == records[i]);
        lemma_section_keys_len(names);
        lemma_section_keys_are_keys(names);
        assert(is_key(keys[i]));
        assert(stream_at(streams, section_path(keys[i], "Data"@)) == Some(records[i].data));
        lemma_keys_read(streams, records, i);
        lemma_found_first(
            streams,
            names[i],
            key_for(schlib_keys(streams), names[i]),
            keys[i],
            "Data"@,
        );
    }
}

/// A lookup in a list that ends with three parameters.
proof fn lemma_lookup_three(before: Seq<Pair>, a: Pair, b: Pair, c: Pair, key: Seq<char>)
    ensures
        lookup(before + seq![a, b, c], key) == if same_but_case(c.0, key) {
            Some(c.1)
        } else if same_but_case(b.0, key) {
            Some(b.1)
        } else if same_but_case(a.0, key) {
            Some(a.1)
        } else {
            lookup(before, key)
        },
{
    reveal_with_fuel(lookup, 4);
    let all = before + seq![a, b, c];
    assert(all.last() == c);
    assert(all.drop_last() =~= before + seq![a, b]);
    assert((before + seq![a, b]).last() == b);
    assert((before + seq![a, b]).drop_last() =~= before + seq![a]);
    assert((before + seq![a]).last() == a);
    assert((before + seq![a]).drop_last() =~= before);
}

/// What the parameters of the records say of component `k`, and that they say
/// nothing of the count and the weight.
proof fn lemma_lookup_records(records: Seq<SchlibModel>, k: nat)
    ensures
        ({
            let params = record_params(records);
            let listed = k < records.len();
            let record = records[k as int];
            &&& lookup(params, "COMPCOUNT"@) is None
            &&& lookup(params, "WEIGHT"@) is None
            &&& lookup(params, indexed("LIBREF"@, k)) == if listed {
                Some(record.name)
            } else {
                None
            }
            &&& lookup(params, indexed("COMPDESCR"@, k)) == if listed {
                Some(record.description)
            } else {
                None
            }
            &&& lookup(params, indexed("PARTCOUNT"@, k)) == if listed {
                Some(decimal(record.header_part_count as nat))
            } else {
                None
            }
        }),
    decreases records.len(),
{
    lemma_words();
    reveal_strlit("WEIGHT");
    if records.len() > 0 {
        let init = records.drop_last();
        let before = record_params(init);
        let i = (records.len() - 1) as nat;
        let record = records.last();
        let a = (indexed("LIBREF"@, i), record.name);
        let b = (indexed("COMPDESCR"@, i), record.description);
        let c = (indexed("PARTCOUNT"@, i), decimal(record.header_part_count as nat));
        let name_key = indexed("LIBREF"@, k);
        let text_key = indexed("COMPDESCR"@, k);
        let part_key = indexed("PARTCOUNT"@, k);
        lemma_lookup_records(init, k);
        lemma_indexed("LIBREF"@, i, k);
        lemma_indexed("COMPDESCR"@, i, k);
        lemma_indexed("PARTCOUNT"@, i, k);
        lemma_differ_at(b.0, name_key, 0);
        lemma_differ_at(c.0, name_key, 0);
        lemma_differ_at(a.0, text_key, 0);
        lemma_differ_at(c.0, text_key, 0);
        lemma_differ_at(a.0, part_key, 0);
        lemma_differ_at(b.0, part_key, 0);
        lemma_differ_at(a.0, "COMPCOUNT"@, 0);
        lemma_differ_at(b.0, "COMPCOUNT"@, 4);
        lemma_differ_at(c.0, "COMPCOUNT"@, 0);
        lemma_differ_at(a.0, "WEIGHT"@, 0);
        lemma_differ_at(b.0, "WEIGHT"@, 0);
        lemma_differ_at(c.0, "WEIGHT"@, 0);
        lemma_lookup_three(before, a, b, c, name_key);
        lemma_lookup_three(before, a, b, c, text_key);
        lemma_lookup_three(before, a, b, c, part_key);
        lemma_lookup_three(before, a, b, c, "COMPCOUNT"@);
        lemma_lookup_three(before, a, b, c, "WEIGHT"@);
        if k < i {
            assert(records[k as int] == init[k as int]);
        }
    }
}

/// With lasting names and descriptions, the parameters of the records last.
proof fn lemma_records_lasting(records: Seq<SchlibModel>)
    requires
        forall|i: int|
            0 <= i < records.len() ==> is_lasting((#[trigger] records[i]).name) && is_lasting(
                records[i].description,
            ),
    ensures
        are_lasting(record_params(records)),
    decreases records.len(),
{
    lemma_words();
    if records.len() > 0 {
        let init = records.drop_last();
        let before = record_params(init);
        let i = (records.len() - 1) as nat;
        let record = records.last();
        assert(record == records[i as int]);
        assert forall|j: int| 0 <= j < init.len() implies is_lasting((#[trigger] init[j]).name)
            && is_lasting(init[j].description) by {
            assert(init[j] == records[j]);
        }
        lemma_records_lasting(init);
        lemma_indexed("LIBREF"@, i, i);
        lemma_indexed("COMPDESCR"@, i, i);
        lemma_indexed("PARTCOUNT"@, i, i);
        lemma_decimal_number(record.header_part_count as nat);
        let all = record_params(records);
        let more = seq![
            (indexed("LIBREF"@, i), record.name),
            (indexed("COMPDESCR"@, i), record.description),
            (indexed("PARTCOUNT"@, i), decimal(record.header_part_count as nat)),
        ];
        assert(all == before + more);
        assert forall|j: int| 0 <= j < all.len() implies is_param_name((#[trigger] all[j]).0)
            && is_lasting(all[j].1) by {
            if j < before.len() {
                assert(all[j] == before[j]);
            } else {
                assert(all[j] == more[j - before.len()]);
            }
        }
    }
}

/// Whether `param` is plain ASCII, and its name does not start like the weight's.
spec fn is_fixed_param(param: Pair) -> bool {
    &&& is_word(param.0)
    &&& param.0.len() > 0
    &&& lower(param.0[0]) != 'w'
    &&& forall|i: int|
        0 <= i < param.1.len() ==> {
            let c = #[trigger] param.1[i];
            c < '\u{80}' && c != '|' && c != '\0'
        }
}

proof fn lemma_sheet_fixed(weight: nat, count: nat)
    ensures
        forall|i: int|
            2 <= i < 22 || i == 0 ==> is_fixed_param(#[trigger] sheet_params(weight, count)[i]),
{
    reveal_strlit("HEADER");
    reveal_strlit("Protel for Windows - Schematic Library Editor Binary File Version 5.0");
    reveal_strlit("MINORVERSION");
    reveal_strlit("2");
    reveal_strlit("FONTIDCOUNT");
    reveal_strlit("1");
    reveal_strlit("SIZE1");
    reveal_strlit("10");
    reveal_strlit("FONTNAME1");
    reveal_strlit("Times New Roman");
    reveal_strlit("USEMBCS");
    reveal_strlit("T");
    reveal_strlit("ISBOC");
    reveal_strlit("SHEETSTYLE");
    reveal_strlit("9");
    reveal_strlit("SYSTEMFONT");
    reveal_strlit("BORDERON");
    reveal_strlit("SHEETNUMBERSPACESIZE");
    reveal_strlit("12");
    reveal_strlit("AREACOLOR");
    reveal_strlit("16317695");
    reveal_strlit("SNAPGRIDON");
    reveal_strlit("SNAPGRIDSIZE");
    reveal_strlit("VISIBLEGRIDON");
    reveal_strlit("VISIBLEGRIDSIZE");
    reveal_strlit("CUSTOMX");
    reveal_strlit("CUSTOMY");
    reveal_strlit("18000");
    reveal_strlit("USECUSTOMSHEET");
    reveal_strlit("REFERENCEZONESON");
    reveal_strlit("DISPLAY_UNIT");
    reveal_strlit("0");
    let sheet = sheet_params(weight, count);
    assert(is_fixed_param(sheet[0]));
    assert(is_fixed_param(sheet[2]));
    assert(is_fixed_param(sheet[3]));
    assert(is_fixed_param(sheet[4]));
    assert(is_fixed_param(sheet[5]));
    assert(is_fixed_param(sheet[6]));
    assert(is_fixed_param(sheet[7]));
    assert(is_fixed_param(sheet[8]));
    assert(is_fixed_param(sheet[9]));
    assert(is_fixed_param(sheet[10]));
    assert(is_fixed_param(sheet[11]));
    assert(is_fixed_param(sheet[12]));
    assert(is_fixed_param(sheet[13]));
    assert(is_fixed_param(sheet[14]));
    assert(is_fixed_param(sheet[15]));
    assert(is_fixed_param(sheet[16]));
    assert(is_fixed_param(sheet[17]));
    assert(is_fixed_param(sheet[18]));
    assert(is_fixed_param(sheet[19]));
    assert(is_fixed_param(sheet[20]));
    assert(is_fixed_param(sheet[21]));
}

/// The first pair under a name that no later one has is what is looked up.
proof fn lemma_lookup_at(pairs: Seq<Pair>, at: int, key: Seq<char>)
    requires
        0 <= at < pairs.len(),
        same_but_case(pairs[at].0, key),
        forall|i: int| at < i < pairs.len() ==> !same_but_case((#[trigger] pairs[i]).0, key),
    ensures
        lookup(pairs, key) == Some(pairs[at].1),
    decreases pairs.len(),
{
    let n = pairs.len() - 1;
    assert(pairs.last() == pairs[n]);
    if at < n {
        let init = pairs.drop_last();
        assert(!same_but_case(pairs[n].0, key));
        assert forall|i: int| at < i < init.len() implies !same_but_case((#[trigger] init[i]).0, key) by {
            assert(init[i] == pairs[i]);
        }
        lemma_lookup_at(init, at, key);
    }
}

/// The parameters that open the header last, and give the weight and the count.
proof fn lemma_sheet(weight: nat, count: nat)
    ensures
        are_lasting(sheet_params(weight, count)),
        lookup(sheet_params(weight, count), "WEIGHT"@) == Some(decimal(weight)),
        lookup(sheet_params(weight, count), "COMPCOUNT"@) == Some(decimal(count)),
{
    let sheet = sheet_params(weight, count);
    lemma_sheet_fixed(weight, count);
    lemma_words();
    reveal_strlit("WEIGHT");
    lemma_word("WEIGHT"@);
    lemma_decimal_number(weight);
    lemma_decimal_number(count);
    assert forall|i: int| 0 <= i < sheet.len() implies is_param_name((#[trigger] sheet[i]).0)
        && is_lasting(sheet[i].1) by {
        if i != 1 && i != 22 {
            assert(is_fixed_param(sheet[i]));
            lemma_word(sheet[i].0);
            lemma_ascii_lasting(sheet[i].1);
        }
    }
    assert forall|i: int| 1 < i < sheet.len() implies !same_but_case(
        (#[trigger] sheet[i]).0,
        "WEIGHT"@,
    ) by {
        if i != 22 {
            assert(is_fixed_param(sheet[i]));
        }
        lemma_differ_at(sheet[i].0, "WEIGHT"@, 0);
    }
    lemma_lookup_at(sheet, 1, "WEIGHT"@);
    lemma_lookup_at(sheet, 22, "COMPCOUNT"@);
}

/// Whether `blocks` hold these names, one each, and nothing else.
pub open spec fn blocks_name(blocks: Seq<BlockAt>, names: Seq<Seq<char>>) -> bool {
    &&& blocks.len() == names.len()
    &&& forall|i: int|
        0 <= i < names.len() ==> (#[trigger] blocks[i]).flags == 0 && blocks[i].payload
            == short_string(names[i])
}

/// Names written block by block are read as those blocks.
proof fn lemma_name_blocks_read(
    before: Seq<u8>,
    names: Seq<Seq<char>>,
    k: int,
    label: Seq<char>,
)
    requires
        0 <= k <= names.len(),
    ensures
        blocks_result(
            before + name_blocks(names),
            (before + name_blocks(names.take(k))).len() as int,
            label,
        ) matches Ok(blocks) && blocks_name(blocks, names.skip(k)),
    decreases names.len() - k,
{
    let data = before + name_blocks(names);
    let start = before + name_blocks(names.take(k));
    if k == names.len() {
        assert(names.take(k) =~= names);
        assert(blocks_name(Seq::<BlockAt>::empty(), names.skip(k)));
    } else {
        let payload = short_string(names[k]);
        lemma_names_parted(before, names, k);
        lemma_block_read(data, start, 0, payload, name_blocks(names.skip(k + 1)), label);
        lemma_name_blocks_read(before, names, k + 1, label);
        let at = start.len() as int;
        let block = BlockAt { flags: 0, payload, next: (start + block_bytes(0, payload)).len() as int };
        let rest = blocks_result(data, block.next, label)->Ok_0;
        let blocks = seq![block] + rest;
        assert(at < data.len());
        assert(blocks_result(data, at, label) == Ok::<Seq<BlockAt>, Failure>(blocks));
        assert forall|i: int| 0 <= i < names.skip(k).len() implies (#[trigger] blocks[i]).flags == 0
            && blocks[i].payload == short_string(names.skip(k)[i]) by {
            if i > 0 {
                assert(blocks[i] == rest[i - 1]);
                assert(names.skip(k)[i] == names.skip(k + 1)[i - 1]);
            }
        }
    }
}

/// With lasting names and descriptions, the parameters of the header last.
proof fn lemma_header_lasting(records: Seq<SchlibModel>)
    requires
        forall|i: int|
            0 <= i < records.len() ==> is_lasting((#[trigger] records[i]).name) && is_lasting(
                records[i].description,
            ),
    ensures
        are_lasting(header_params(records)),
{
    let params = header_params(records);
    let sheet = sheet_params(total_weight(records), records.len());
    let more = record_params(records);
    lemma_records_lasting(records);
    lemma_sheet(total_weight(records), records.len());
    assert forall|j: int| 0 <= j < params.len() implies is_param_name((#[trigger] params[j]).0)
        && is_lasting(params[j].1) by {
        if j < sheet.len() {
            assert(params[j] == sheet[j]);
        } else {
            assert(params[j] == more[j - sheet.len()]);
        }
    }
}

/// The count and the weight are looked up in what is read of a header.
proof fn lemma_header_totals(records: Seq<SchlibModel>)
    requires
        are_lasting(header_params(records)),
    ensures
        lookup(all_reread_pairs(header_params(records)), "COMPCOUNT"@) == Some(
            decimal(records.len()),
        ),
        lookup(all_reread_pairs(header_params(records)), "WEIGHT"@) == Some(
            decimal(total_weight(records)),
        ),
{
    let params = header_params(records);
    let sheet = sheet_params(total_weight(records), records.len());
    let more = record_params(records);
    lemma_sheet(total_weight(records), records.len());
    lemma_lookup_records(records, 0);
    lemma_lookup_reread(params, "COMPCOUNT"@);
    lemma_lookup_concat(sheet, more, "COMPCOUNT"@);
    lemma_lookup_reread(params, "WEIGHT"@);
    lemma_lookup_concat(sheet, more, "WEIGHT"@);
}

/// What a header says of one component is looked up in what is read of it.
proof fn lemma_header_entry(records: Seq<SchlibModel>, i: int)
    requires
        are_lasting(header_params(records)),
        0 <= i < records.len(),
    ensures
        ({
            let pairs = all_reread_pairs(header_params(records));
            &&& lookup(pairs, indexed("LIBREF"@, i as nat)) == Some(records[i].name)
            &&& lookup(pairs, indexed("COMPDESCR"@, i as nat)) == Some(records[i].description)
            &&& lookup(pairs, indexed("PARTCOUNT"@, i as nat)) == Some(
                decimal(records[i].header_part_count as nat),
            )
        }),
{
    let params = header_params(records);
    let sheet = sheet_params(total_weight(records), records.len());
    let more = record_params(records);
    lemma_lookup_records(records, i as nat);
    lemma_lookup_reread(params, indexed("LIBREF"@, i as nat));
    lemma_lookup_concat(sheet, more, indexed("LIBREF"@, i as nat));
    lemma_lookup_reread(params, indexed("COMPDESCR"@, i as nat));
    lemma_lookup_concat(sheet, more, indexed("COMPDESCR"@, i as nat));
    lemma_lookup_reread(params, indexed("PARTCOUNT"@, i as nat));
    lemma_lookup_concat(sheet, more, indexed("PARTCOUNT"@, i as nat));
}

/// Behind the parameters of a header the count and the names are read.
proof fn lemma_header_names(records: Seq<SchlibModel>, label: Seq<char>)
    requires
        ansi(params_text(header_params(records))).len() + 1 < 0x100_0000,
    ensures
        ({
            &&& block_result(header_stream(records), 0, label) matches Ok(first)
            &&& le_value(header_stream(records), first.next) == (records.len() as i32) as u32
            &&& blocks_result(header_stream(records), first.next + 4, label) matches Ok(blocks)
            &&& blocks_name(blocks, model_names(records))
        }),
{
    let names = model_names(records);
    let params = header_params(records);
    let first = params_block(params);
    let count = le_bytes((records.len() as i32) as u32);
    let after = count + name_blocks(names);
    let data = header_stream(records);
    let none = Seq::<u8>::empty();
    let payload = ansi(params_text(params)) + seq![0u8];
    assert(none + first + after =~= data);
    lemma_block_read(data, none, 0, payload, after, label);
    assert(none + first =~= first);
    law_le_round_trip((records.len() as i32) as u32, first, name_blocks(names));
    assert(first + count + name_blocks(names) =~= data);
    assert(names.take(0) =~= Seq::<Seq<char>>::empty());
    assert(name_blocks(names.take(0)) =~= none);
    assert((first + count) + none =~= first + count);
    lemma_name_blocks_read(first + count, names, 0, label);
    assert(names.skip(0) =~= names);
}

/// The header of a schematic library that was written lists what is in it. Its
/// first block reads as parameters that give the number of components, their
/// weights added up, and for each its name, description and number of parts; the
/// number of components follows, and then a block with each name.
pub proof fn law_schlib_header(records: Seq<SchlibModel>, label: Seq<char>)
    requires
        forall|i: int|
            0 <= i < records.len() ==> is_lasting((#[trigger] records[i]).name) && is_lasting(
                records[i].description,
            ),
        ansi(params_text(header_params(records))).len() + 1 < 0x100_0000,
    ensures
        ({
            &&& first_pairs_result(header_stream(records), label) matches Ok(pairs)
            &&& lookup(pairs, "COMPCOUNT"@) == Some(decimal(records.len()))
            &&& lookup(pairs, "WEIGHT"@) == Some(decimal(total_weight(records)))
            &&& forall|i: int|
                0 <= i < records.len() ==> {
                    &&& lookup(pairs, indexed("LIBREF"@, i as nat)) == Some(
                        (#[trigger] records[i]).name,
                    )
                    &&& lookup(pairs, indexed("COMPDESCR"@, i as nat)) == Some(
                        records[i].description,
                    )
                    &&& lookup(pairs, indexed("PARTCOUNT"@, i as nat)) == Some(
                        decimal(records[i].header_part_count as nat),
                    )
                }
        }),
        ({
            &&& block_result(header_stream(records), 0, label) matches Ok(first)
            &&& le_value(header_stream(records), first.next) == (records.len() as i32) as u32
            &&& blocks_result(header_stream(records), first.next + 4, label) matches Ok(blocks)
            &&& blocks_name(blocks, model_names(records))
        }),
{
    let params = header_params(records);
    let after = le_bytes((records.len() as i32) as u32) + name_blocks(model_names(records));
    assert(header_stream(records) =~= params_block(params) + after);
    lemma_params_block_read(params, after, label);
    lemma_header_lasting(records);
    lemma_header_totals(records);
    let pairs = all_reread_pairs(params);
    assert forall|i: int| 0 <= i < records.len() implies {
        &&& lookup(pairs, indexed("LIBREF"@, i as nat)) == Some((#[trigger] records[i]).name)
        &&& lookup(pairs, indexed("COMPDESCR"@, i as nat)) == Some(records[i].description)
        &&& lookup(pairs, indexed("PARTCOUNT"@, i as nat)) == Some(
            decimal(records[i].header_part_count as nat),
        )
    } by {
        lemma_header_entry(records, i);
    }
    lemma_header_names(records, label);
}

/// Lasting texts make lasting parameters of a list of section keys.
proof fn lemma_keys_lasting(pairs: Seq<Pair>)
    requires
        forall|i: int|
            0 <= i < pairs.len() ==> is_lasting((#[trigger] pairs[i]).0) && is_lasting(pairs[i].1),
    ensures
        are_lasting(key_params(pairs)),
        key_params(pairs).len() == 2 * pairs.len(),
        forall|i: int|
            0 <= i < pairs.len() ==> {
                &&& key_params(pairs)[2 * i].1 == (#[trigger] pairs[i]).0
                &&& key_params(pairs)[2 * i + 1].1 == pairs[i].1
            },
    decreases pairs.len(),
{
    lemma_words();
    if pairs.len() > 0 {
        let init = pairs.drop_last();
        let before = key_params(init);
        let i = (pairs.len() - 1) as nat;
        assert(pairs.last() == pairs[i as int]);
        assert forall|j: int| 0 <= j < init.len() implies is_lasting((#[trigger] init[j]).0)
            && is_lasting(init[j].1) by {
            assert(init[j] == pairs[j]);
        }
        lemma_keys_lasting(init);
        lemma_indexed("LibRef"@, i, i);
        lemma_indexed("SectionKey"@, i, i);
        let all = key_params(pairs);
        let more = seq![
            (indexed("LibRef"@, i), pairs.last().0),
            (indexed("SectionKey"@, i), pairs.last().1),
        ];
        assert(all == before + more);
        assert forall|j: int| 0 <= j < all.len() implies is_param_name((#[trigger] all[j]).0)
            && is_lasting(all[j].1) by {
            if j < before.len() {
                assert(all[j] == before[j]);
            } else {
                assert(all[j] == more[j - before.len()]);
            }
        }
        assert forall|j: int| 0 <= j < pairs.len() implies {
            &&& all[2 * j].1 == (#[trigger] pairs[j]).0
            &&& all[2 * j + 1].1 == pairs[j].1
        } by {
            if j < i {
                assert(init[j] == pairs[j]);
                assert(all[2 * j] == before[2 * j]);
                assert(all[2 * j + 1] == before[2 * j + 1]);
            } else {
                assert(all[2 * j] == more[0]);
                assert(all[2 * j + 1] == more[1]);
            }
        }
    }
}

/// The section keys of a schematic library that were written are read back:
/// their number, and each with the name that it belongs to. Where Windows-1252
/// can write them all, nothing else is read.
pub proof fn law_schlib_section_keys(pairs: Seq<Pair>, label: Seq<char>)
    requires
        forall|i: int|
            0 <= i < pairs.len() ==> is_lasting((#[trigger] pairs[i]).0) && is_lasting(pairs[i].1),
        ansi(
            params_text(seq![("KeyCount"@, decimal(pairs.len()))] + key_params(pairs)),
        ).len() + 1 < 0x100_0000,
    ensures
        ({
            &&& first_pairs_result(keys_stream(pairs), label) matches Ok(read)
            &&& lookup_number(read, "KeyCount"@) == Some(pairs.len())
            &&& forall|i: int|
                0 <= i < pairs.len() ==> {
                    &&& lookup(read, indexed("LibRef"@, i as nat)) == Some((#[trigger] pairs[i]).0)
                    &&& lookup(read, indexed("SectionKey"@, i as nat)) == Some(pairs[i].1)
                }
            &&& (forall|i: int|
                0 <= i < pairs.len() ==> has_bytes((#[trigger] pairs[i]).0) && has_bytes(
                    pairs[i].1,
                )) ==> read.len() == 1 + 2 * pairs.len()
        }),
{
    let first = ("KeyCount"@, decimal(pairs.len()));
    let keys = key_params(pairs);
    let params = seq![first] + keys;
    let none = Seq::<u8>::empty();
    let read = all_reread_pairs(params);
    lemma_words();
    lemma_decimal_number(pairs.len());
    lemma_params_block_read(params, none, label);
    assert(params_block(params) + none =~= params_block(params));
    lemma_keys_lasting(pairs);
    lemma_one(first);
    lemma_lookup_param(first, "KeyCount"@);
    lemma_key_params(pairs, 0);
    lemma_lookup_last(seq![first], keys, "KeyCount"@);
    assert forall|i: int| 0 <= i < pairs.len() implies {
        &&& lookup(read, indexed("LibRef"@, i as nat)) == Some((#[trigger] pairs[i]).0)
        &&& lookup(read, indexed("SectionKey"@, i as nat)) == Some(pairs[i].1)
    } by {
        lemma_key_params(pairs, i as nat);
        lemma_lookup_last(seq![first], keys, indexed("LibRef"@, i as nat));
        lemma_lookup_last(seq![first], keys, indexed("SectionKey"@, i as nat));
    }
    if forall|i: int|
        0 <= i < pairs.len() ==> has_bytes((#[trigger] pairs[i]).0) && has_bytes(pairs[i].1) {
        assert forall|j: int| 0 <= j < params.len() implies {
            &&& is_param_name((#[trigger] params[j]).0)
            &&& has_bytes(params[j].1)
            &&& !params[j].1.contains('|')
            &&& !params[j].1.contains('\0')
        } by {
            if j > 0 {
                let i = (j - 1) / 2;
                assert(params[j] == keys[j - 1]);
                assert(j - 1 == 2 * i || j - 1 == 2 * i + 1);
                assert(has_bytes(pairs[i].0) && has_bytes(pairs[i].1));
                assert(keys[2 * i].1 == pairs[i].0 && keys[2 * i + 1].1 == pairs[i].1);
            }
        }
        lemma_plain_reread(params);
    }
}

/// Reading a schematic library that was written gives every component back,
/// in order, under its name and with its data; the rest of a record is what
/// the data says.
pub proof fn law_schlib_round_trip(streams: Streams, records: Seq<SchlibModel>)
    requires
        holds_schlib(streams, records),
        is_storable(records),
    ensures
        schlib_result(streams) == reread_records(records),
{
    let params = header_params(records);
    let after = le_bytes((records.len() as i32) as u32) + name_blocks(model_names(records));
    assert(header_stream(records) =~= params_block(params) + after);
    lemma_params_block_read(params, after, "SchLib file header"@);
    lemma_names_read(records);
    lemma_components_read(streams, records, records.len() as int);
    assert(records.take(records.len() as int) =~= records);
}

/// Reading a schematic library that was written with records that say what
/// their data says gives exactly those records.
pub proof fn law_schlib_round_trip_exact(streams: Streams, records: Seq<SchlibModel>)
    requires
        holds_schlib(streams, records),
        is_storable(records),
        forall|i: int|
            0 <= i < records.len() ==> record_result(
                (#[trigger] records[i]).name,
                records[i].data,
            ) == Ok::<SchlibModel, Failure>(records[i]),
    ensures
        schlib_result(streams) == Ok::<Seq<SchlibModel>, Failure>(records),
{
    law_schlib_round_trip(streams, records);
    lemma_reread_exact(records);
}

proof fn lemma_reread_exact(records: Seq<SchlibModel>)
    requires
        forall|i: int|
            0 <= i < records.len() ==> record_result(
                (#[trigger] records[i]).name,
                records[i].data,
            ) == Ok::<SchlibModel, Failure>(records[i]),
    ensures
        reread_records(records) == Ok::<Seq<SchlibModel>, Failure>(records),
    decreases records.len(),
{
    if records.len() > 0 {
        let init = records.drop_last();
        assert forall|i: int| 0 <= i < init.len() implies record_result(
            (#[trigger] init[i]).name,
            init[i].data,
        ) == Ok::<SchlibModel, Failure>(init[i]) by {
            assert(init[i] == records[i]);
        }
        lemma_reread_exact(init);
        assert(records.last() == records[records.len() - 1]);
        assert(init.push(records.last()) =~= records);
    } else {
        assert(records =~= Seq::<SchlibModel>::empty());
    }
}

} // verus!
