//! What is read out of the data of schematic components, whatever else is in it.

use vstd::prelude::*;
use crate::error::Failure;
use crate::param_laws::{
    all_reread_pairs, are_lasting, lemma_cstring_reread, lemma_lookup_reread, lemma_params_reread,
    lemma_params_unmarked,
};
use crate::params::{lookup, params_text, text_pairs, Pair};
use crate::schlib::{
    block_pairs, blocks_description, blocks_identity, blocks_part_count, is_identity_name, lcsc_id,
    pairs_identity, record_result,
};
use crate::text::{all_digits, decimal, lower_text, same_but_case, trim};
use crate::text_laws::{all_white, is_bare, law_number_read_back, law_trim};
use crate::wire::{
    ansi, are_blocks, block_bytes, blocks_bytes, blocks_result, cstring, law_blocks_round_trip,
    BlockAt,
};

verus! {

/// A part number is a `C` in either case with digits behind it. Its normal form has
/// the capital, and white space around it makes no difference.
pub proof fn law_part_numbers(c: char, digits: Seq<char>)
    requires
        c == 'C' || c == 'c',
        digits.len() > 0,
        all_digits(digits),
    ensures
        lcsc_id(seq![c] + digits) == Some(seq!['C'] + digits),
        forall|before: Seq<char>, after: Seq<char>|
            all_white(before) && all_white(after) ==> #[trigger] lcsc_id(
                before + (seq![c] + digits) + after,
            ) == Some(seq!['C'] + digits),
{
    let value = seq![c] + digits;
    let none = Seq::<char>::empty();
    assert(crate::text::is_digit(digits.last()));
    assert(value.last() == digits.last());
    assert(value.skip(1) =~= digits);
    assert(none + value + none =~= value);
    law_trim(none, value, none);
    assert forall|before: Seq<char>, after: Seq<char>|
        all_white(before) && all_white(after) implies #[trigger] lcsc_id(
        before + (seq![c] + digits) + after,
    ) == Some(seq!['C'] + digits) by {
        law_trim(before, value, after);
    }
}

/// Only a `C` in either case with digits behind it, white space aside, is a part
/// number.
pub proof fn law_only_part_numbers(value: Seq<char>)
    ensures
        lcsc_id(value) matches Some(id) ==> {
            &&& id[0] == 'C'
            &&& id.len() == trim(value).len()
            &&& id.len() >= 2
            &&& all_digits(id.skip(1))
            &&& trim(value)[0] == 'C' || trim(value)[0] == 'c'
            &&& id.skip(1) == trim(value).skip(1)
        },
{
    if let Some(id) = lcsc_id(value) {
        assert(id.skip(1) =~= trim(value).skip(1));
    }
}

/// A parameter is looked up by the last of its name, in whatever case that is
/// written.
pub proof fn law_lookup(pairs: Seq<Pair>, at: int, key: Seq<char>)
    requires
        0 <= at < pairs.len(),
        same_but_case(pairs[at].0, key),
        forall|k: int| at < k < pairs.len() ==> !same_but_case((#[trigger] pairs[k]).0, key),
    ensures
        lookup(pairs, key) == Some(pairs[at].1),
    decreases pairs.len(),
{
    if at < pairs.len() - 1 {
        let init = pairs.drop_last();
        assert(!same_but_case(pairs[pairs.len() - 1].0, key));
        assert forall|k: int| at < k < init.len() implies !same_but_case(
            (#[trigger] init[k]).0,
            key,
        ) by {
            assert(init[k] == pairs[k]);
        }
        law_lookup(init, at, key);
    }
}

/// Where no parameter has a name, none is found under it.
pub proof fn law_lookup_missing(pairs: Seq<Pair>, key: Seq<char>)
    requires
        forall|k: int| 0 <= k < pairs.len() ==> !same_but_case((#[trigger] pairs[k]).0, key),
    ensures
        lookup(pairs, key) is None,
    decreases pairs.len(),
{
    if pairs.len() > 0 {
        let init = pairs.drop_last();
        assert(!same_but_case(pairs[pairs.len() - 1].0, key));
        assert forall|k: int| 0 <= k < init.len() implies !same_but_case(
            (#[trigger] init[k]).0,
            key,
        ) by {
            assert(init[k] == pairs[k]);
        }
        law_lookup_missing(init, key);
    }
}

/// Whether a block is of parameters, and its parameter `key` has the given value.
pub open spec fn says(block: BlockAt, key: Seq<char>, value: Seq<char>) -> bool {
    block.flags == 0 && lookup(text_pairs(cstring(block.payload)), key) == Some(value)
}

proof fn lemma_last_part_count(blocks: Seq<BlockAt>, k: int, n: usize)
    requires
        0 <= k < blocks.len(),
        says(blocks[k], "RECORD"@, "1"@),
        says(blocks[k], "PARTCOUNT"@, decimal(n as nat)),
        forall|j: int| k < j < blocks.len() ==> !says(#[trigger] blocks[j], "RECORD"@, "1"@),
    ensures
        blocks_part_count(blocks) == n,
    decreases blocks.len(),
{
    law_number_read_back(n as nat);
    if k < blocks.len() - 1 {
        let init = blocks.drop_last();
        assert(!says(blocks[blocks.len() - 1], "RECORD"@, "1"@));
        assert forall|j: int| k < j < init.len() implies !says(
            #[trigger] init[j],
            "RECORD"@,
            "1"@,
        ) by {
            assert(init[j] == blocks[j]);
        }
        lemma_last_part_count(init, k, n);
    }
}

proof fn lemma_last_description(blocks: Seq<BlockAt>, k: int, text: Seq<char>)
    requires
        0 <= k < blocks.len(),
        says(blocks[k], "RECORD"@, "1"@),
        says(blocks[k], "COMPONENTDESCRIPTION"@, text),
        forall|j: int| k < j < blocks.len() ==> !says(#[trigger] blocks[j], "RECORD"@, "1"@),
    ensures
        blocks_description(blocks) == text,
    decreases blocks.len(),
{
    if k < blocks.len() - 1 {
        let init = blocks.drop_last();
        assert(!says(blocks[blocks.len() - 1], "RECORD"@, "1"@));
        assert forall|j: int| k < j < init.len() implies !says(
            #[trigger] init[j],
            "RECORD"@,
            "1"@,
        ) by {
            assert(init[j] == blocks[j]);
        }
        lemma_last_description(init, k, text);
    }
}

proof fn lemma_no_component(blocks: Seq<BlockAt>)
    requires
        forall|j: int| 0 <= j < blocks.len() ==> !says(#[trigger] blocks[j], "RECORD"@, "1"@),
    ensures
        blocks_part_count(blocks) == 2,
        blocks_description(blocks) == Seq::<char>::empty(),
    decreases blocks.len(),
{
    if blocks.len() > 0 {
        let init = blocks.drop_last();
        assert(!says(blocks[blocks.len() - 1], "RECORD"@, "1"@));
        assert forall|j: int| 0 <= j < init.len() implies !says(
            #[trigger] init[j],
            "RECORD"@,
            "1"@,
        ) by {
            assert(init[j] == blocks[j]);
        }
        lemma_no_component(init);
    }
}

/// Data that is a row of whole blocks is read as a record of the given name with
/// all of the data, whose weight is the number of its blocks. Data that is not is
/// refused.
pub proof fn law_record_keeps_data(name: Seq<char>, data: Seq<u8>)
    ensures
        match blocks_result(data, 0, "SchLib component data"@) {
            Ok(blocks) => record_result(name, data) matches Ok(record) && record.name == name
                && record.data == data && (blocks.len() <= usize::MAX ==> record.weight
                == blocks.len()),
            Err(_) => record_result(name, data) is Err,
        },
{
}

/// What the component's own block of parameters says is what the record says: the
/// number of parts and the description of the last block whose record is 1.
pub proof fn law_record_of_component(name: Seq<char>, data: Seq<u8>, blocks: Seq<BlockAt>, k: int)
    requires
        blocks_result(data, 0, "SchLib component data"@) == Ok::<Seq<BlockAt>, Failure>(blocks),
        0 <= k < blocks.len(),
        says(blocks[k], "RECORD"@, "1"@),
        forall|j: int| k < j < blocks.len() ==> !says(#[trigger] blocks[j], "RECORD"@, "1"@),
    ensures
        record_result(name, data) matches Ok(record) && {
            &&& forall|n: usize| #[trigger]
                says(blocks[k], "PARTCOUNT"@, decimal(n as nat)) ==> record.header_part_count == n
            &&& forall|text: Seq<char>| #[trigger]
                says(blocks[k], "COMPONENTDESCRIPTION"@, text) ==> record.description == text
        },
{
    assert forall|n: usize| #[trigger]
        says(blocks[k], "PARTCOUNT"@, decimal(n as nat)) implies blocks_part_count(blocks) == n by {
        lemma_last_part_count(blocks, k, n);
    }
    assert forall|text: Seq<char>| #[trigger]
        says(blocks[k], "COMPONENTDESCRIPTION"@, text) implies blocks_description(blocks)
        == text by {
        lemma_last_description(blocks, k, text);
    }
}

/// Without a block of the component's own there are two parts and no description.
pub proof fn law_record_without_component(name: Seq<char>, data: Seq<u8>, blocks: Seq<BlockAt>)
    requires
        blocks_result(data, 0, "SchLib component data"@) == Ok::<Seq<BlockAt>, Failure>(blocks),
        forall|j: int| 0 <= j < blocks.len() ==> !says(#[trigger] blocks[j], "RECORD"@, "1"@),
    ensures
        record_result(name, data) matches Ok(record) && record.header_part_count == 2
            && record.description.len() == 0,
{
    lemma_no_component(blocks);
}

/// Whether a block gives a part number: the text of a parameter that is known to
/// hold one.
pub open spec fn gives_part_number(block: BlockAt) -> bool {
    exists|name: Seq<char>, value: Seq<char>| #[trigger]
        says(block, "NAME"@, name) && #[trigger] says(block, "TEXT"@, value) && is_identity_name(
            name,
        ) && lcsc_id(value) is Some
}

proof fn lemma_first_identity(blocks: Seq<BlockAt>, k: int, name: Seq<char>, value: Seq<char>)
    requires
        0 <= k < blocks.len(),
        says(blocks[k], "NAME"@, name),
        says(blocks[k], "TEXT"@, value),
        is_identity_name(name),
        lcsc_id(value) is Some,
        forall|j: int| 0 <= j < k ==> !gives_part_number(#[trigger] blocks[j]),
    ensures
        blocks_identity(blocks) == lcsc_id(value),
    decreases blocks.len(),
{
    let init = blocks.drop_last();
    if k < blocks.len() - 1 {
        assert forall|j: int| 0 <= j < k implies !gives_part_number(#[trigger] init[j]) by {
            assert(init[j] == blocks[j]);
        }
        lemma_first_identity(init, k, name, value);
    } else {
        assert forall|j: int| 0 <= j < init.len() implies !gives_part_number(
            #[trigger] init[j],
        ) by {
            assert(init[j] == blocks[j]);
        }
        lemma_no_identity(init);
    }
}

proof fn lemma_no_identity(blocks: Seq<BlockAt>)
    requires
        forall|j: int| 0 <= j < blocks.len() ==> !gives_part_number(#[trigger] blocks[j]),
    ensures
        blocks_identity(blocks) is None,
    decreases blocks.len(),
{
    if blocks.len() > 0 {
        let init = blocks.drop_last();
        let last = blocks.last();
        assert(last == blocks[blocks.len() - 1]);
        assert forall|j: int| 0 <= j < init.len() implies !gives_part_number(
            #[trigger] init[j],
        ) by {
            assert(init[j] == blocks[j]);
        }
        lemma_no_identity(init);
        if last.flags == 0 && pairs_identity(block_pairs(last)) is Some {
            let name = lookup(block_pairs(last), "NAME"@)->0;
            let value = lookup(block_pairs(last), "TEXT"@)->0;
            assert(says(last, "NAME"@, name) && says(last, "TEXT"@, value));
        }
    }
}

/// A record goes by the part number that the first of its blocks to give one gives.
/// Where none does, it has none.
pub proof fn law_record_identity(
    name: Seq<char>,
    data: Seq<u8>,
    blocks: Seq<BlockAt>,
    k: int,
    key: Seq<char>,
    c: char,
    digits: Seq<char>,
)
    requires
        blocks_result(data, 0, "SchLib component data"@) == Ok::<Seq<BlockAt>, Failure>(blocks),
        0 <= k <= blocks.len(),
        forall|j: int| 0 <= j < k ==> !gives_part_number(#[trigger] blocks[j]),
        c == 'C' || c == 'c',
        digits.len() > 0,
        all_digits(digits),
        k < blocks.len() ==> says(blocks[k], "NAME"@, key) && says(
            blocks[k],
            "TEXT"@,
            seq![c] + digits,
        ) && is_identity_name(key),
    ensures
        record_result(name, data) matches Ok(record) && record.identity == if k < blocks.len() {
            Some(seq!['C'] + digits)
        } else {
            None
        },
{
    law_part_numbers(c, digits);
    if k < blocks.len() {
        lemma_first_identity(blocks, k, key, seq![c] + digits);
    } else {
        lemma_no_identity(blocks);
    }
}

/// Part numbers are held under four names, in whatever case and with whatever white
/// space around them, and under no other.
pub proof fn law_identity_names(before: Seq<char>, name: Seq<char>, after: Seq<char>)
    requires
        all_white(before),
        is_bare(name),
        all_white(after),
    ensures
        is_identity_name(before + name + after) <==> same_but_case(name, "npnp_component_id"@)
            || same_but_case(name, "Supplier Part"@) || same_but_case(name, "Supplier Part Number"@)
            || same_but_case(name, "LCSC ID"@),
{
    law_trim(before, name, after);
    reveal_strlit("npnp_component_id");
    reveal_strlit("supplier part");
    reveal_strlit("supplier part number");
    reveal_strlit("lcsc id");
    reveal_strlit("Supplier Part");
    reveal_strlit("Supplier Part Number");
    reveal_strlit("LCSC ID");
    assert(lower_text("npnp_component_id"@) =~= "npnp_component_id"@);
    assert(lower_text("Supplier Part"@) =~= "supplier part"@);
    assert(lower_text("Supplier Part Number"@) =~= "supplier part number"@);
    assert(lower_text("LCSC ID"@) =~= "lcsc id"@);
}

/// The blocks that are read of a block of lasting parameters and others behind it.
proof fn lemma_params_first(params: Seq<Pair>, rest: Seq<(u8, Seq<u8>)>, label: Seq<char>) -> (blocks:
    Seq<BlockAt>)
    requires
        ansi(params_text(params)).len() + 1 < 0x100_0000,
        forall|i: int| 0 <= i < rest.len() ==> (#[trigger] rest[i]).1.len() < 0x100_0000,
    ensures
        blocks_result(
            block_bytes(0, ansi(params_text(params)) + seq![0u8]) + blocks_bytes(rest),
            0,
            label,
        ) == Ok::<Seq<BlockAt>, Failure>(blocks),
        blocks.len() == rest.len() + 1,
        blocks[0].flags == 0,
        text_pairs(cstring(blocks[0].payload)) == all_reread_pairs(params),
        forall|i: int|
            0 <= i < rest.len() ==> (#[trigger] blocks[i + 1]).flags == rest[i].0 && blocks[i
                + 1].payload == rest[i].1,
{
    let payload = ansi(params_text(params)) + seq![0u8];
    let written = seq![(0u8, payload)] + rest;
    let none = Seq::<u8>::empty();
    assert forall|i: int| 0 <= i < written.len() implies (#[trigger] written[i]).1.len()
        < 0x100_0000 by {
        if i > 0 {
            assert(written[i] == rest[i - 1]);
        }
    }
    law_blocks_round_trip(written, none, label);
    lemma_blocks_bytes_first((0u8, payload), rest);
    let blocks = blocks_result(blocks_bytes(written), 0, label)->Ok_0;
    assert(are_blocks(blocks, written));
    lemma_params_unmarked(params);
    lemma_cstring_reread(params_text(params));
    lemma_params_reread(params);
    assert(blocks[0].flags == written[0].0 && blocks[0].payload == written[0].1);
    assert forall|i: int| 0 <= i < rest.len() implies (#[trigger] blocks[i + 1]).flags == rest[i].0
        && blocks[i + 1].payload == rest[i].1 by {
        assert(written[i + 1] == rest[i]);
    }
    blocks
}

proof fn lemma_blocks_bytes_first(first: (u8, Seq<u8>), rest: Seq<(u8, Seq<u8>)>)
    ensures
        blocks_bytes(seq![first] + rest) == block_bytes(first.0, first.1) + blocks_bytes(rest),
    decreases rest.len(),
{
    let all = seq![first] + rest;
    if rest.len() == 0 {
        assert(all.drop_last() =~= Seq::<(u8, Seq<u8>)>::empty());
        assert(blocks_bytes(all.drop_last()) =~= Seq::<u8>::empty());
        assert(blocks_bytes(all) =~= block_bytes(first.0, first.1) + blocks_bytes(rest));
    } else {
        assert(all.drop_last() =~= seq![first] + rest.drop_last());
        assert(all.last() == rest.last());
        lemma_blocks_bytes_first(first, rest.drop_last());
        assert(blocks_bytes(all) =~= block_bytes(first.0, first.1) + blocks_bytes(rest));
    }
}

/// Whether one parameter has a name, and no other has it.
pub open spec fn is_only(params: Seq<Pair>, at: int, key: Seq<char>) -> bool {
    &&& 0 <= at < params.len()
    &&& params[at].0 == key
    &&& forall|k: int|
        0 <= k < params.len() && k != at ==> !same_but_case((#[trigger] params[k]).0, key)
}

/// Whether blocks are no component's own: none is of parameters with record 1, and
/// each fits the three bytes that a block has for its length.
pub open spec fn are_no_components(blocks: Seq<(u8, Seq<u8>)>) -> bool {
    forall|i: int|
        0 <= i < blocks.len() ==> (#[trigger] blocks[i]).1.len() < 0x100_0000 && (blocks[i].0 != 0
            || lookup(text_pairs(cstring(blocks[i].1)), "RECORD"@) != Some("1"@))
}

proof fn lemma_component_first(params: Seq<Pair>, record: int, rest: Seq<(u8, Seq<u8>)>) -> (blocks:
    Seq<BlockAt>)
    requires
        are_lasting(params),
        ansi(params_text(params)).len() + 1 < 0x100_0000,
        is_only(params, record, "RECORD"@),
        params[record].1 == "1"@,
        are_no_components(rest),
    ensures
        blocks_result(
            block_bytes(0, ansi(params_text(params)) + seq![0u8]) + blocks_bytes(rest),
            0,
            "SchLib component data"@,
        ) == Ok::<Seq<BlockAt>, Failure>(blocks),
        blocks.len() == rest.len() + 1,
        says(blocks[0], "RECORD"@, "1"@),
        forall|j: int| 0 < j < blocks.len() ==> !says(#[trigger] blocks[j], "RECORD"@, "1"@),
        blocks[0].flags == 0,
        text_pairs(cstring(blocks[0].payload)) == all_reread_pairs(params),
{
    let blocks = lemma_params_first(params, rest, "SchLib component data"@);
    lemma_lookup_reread(params, "RECORD"@);
    law_lookup(params, record, "RECORD"@);
    assert forall|j: int| 0 < j < blocks.len() implies !says(
        #[trigger] blocks[j],
        "RECORD"@,
        "1"@,
    ) by {
        assert(blocks[(j - 1) + 1].flags == rest[j - 1].0);
    }
    blocks
}

/// Data that opens with a block of parameters of record 1, with blocks that are no
/// component's behind it, is read with the number of parts that these parameters
/// say, whatever other parameters are among them.
pub proof fn law_written_part_count(
    name: Seq<char>,
    params: Seq<Pair>,
    record: int,
    count: int,
    n: usize,
    rest: Seq<(u8, Seq<u8>)>,
)
    requires
        are_lasting(params),
        ansi(params_text(params)).len() + 1 < 0x100_0000,
        is_only(params, record, "RECORD"@),
        params[record].1 == "1"@,
        is_only(params, count, "PARTCOUNT"@),
        params[count].1 == decimal(n as nat),
        are_no_components(rest),
    ensures
        record_result(
            name,
            block_bytes(0, ansi(params_text(params)) + seq![0u8]) + blocks_bytes(rest),
        ) matches Ok(read) && read.header_part_count == n,
{
    let data = block_bytes(0, ansi(params_text(params)) + seq![0u8]) + blocks_bytes(rest);
    let blocks = lemma_component_first(params, record, rest);
    lemma_lookup_reread(params, "PARTCOUNT"@);
    law_lookup(params, count, "PARTCOUNT"@);
    assert(says(blocks[0], "PARTCOUNT"@, decimal(n as nat)));
    law_record_of_component(name, data, blocks, 0);
}

/// Data that opens with a block of parameters of record 1, with blocks that are no
/// component's behind it, is read with the description that these parameters say,
/// under the given name, with all of its bytes and the number of its blocks.
pub proof fn law_written_description(
    name: Seq<char>,
    params: Seq<Pair>,
    record: int,
    description: int,
    rest: Seq<(u8, Seq<u8>)>,
)
    requires
        are_lasting(params),
        ansi(params_text(params)).len() + 1 < 0x100_0000,
        is_only(params, record, "RECORD"@),
        params[record].1 == "1"@,
        is_only(params, description, "COMPONENTDESCRIPTION"@),
        are_no_components(rest),
        rest.len() < usize::MAX,
    ensures
        ({
            let data = block_bytes(0, ansi(params_text(params)) + seq![0u8]) + blocks_bytes(rest);
            record_result(name, data) matches Ok(read) && read.description
                == params[description].1 && read.name == name && read.data == data && read.weight
                == rest.len() + 1
        }),
{
    let data = block_bytes(0, ansi(params_text(params)) + seq![0u8]) + blocks_bytes(rest);
    let blocks = lemma_component_first(params, record, rest);
    lemma_lookup_reread(params, "COMPONENTDESCRIPTION"@);
    law_lookup(params, description, "COMPONENTDESCRIPTION"@);
    assert(says(blocks[0], "COMPONENTDESCRIPTION"@, params[description].1));
    law_record_of_component(name, data, blocks, 0);
    law_record_keeps_data(name, data);
}

} // verus!
