//! What becomes of parameters that are written and read again.

use vstd::prelude::*;
use vstd::utf8::{encode_scalar, encode_utf8, encode_utf8_decode_utf8, encode_utf8_valid_utf8};
use crate::codec::{
    byte_char, char_byte, char_bytes, decoded, encoded, has_byte, has_bytes, lemma_char_byte,
    law_decoded_encoded, lemma_encoded_concat, lemma_encoded_decoded, starts_with_mark,
};
use crate::params::{
    entry_text, lookup, param_text, params_text, piece_pairs, pieces_pairs, text_pairs, utf8_meaning,
    utf8_spelling, Pair,
};
use crate::text::{
    decimal, is_digit, lemma_decimal, lemma_find_is, lemma_split_join, lemma_split_without,
    same_but_case, split,
};
use crate::wire::{
    ansi, block_bytes, cstring, first_pairs_result, law_block_round_trip, lemma_nul_end,
    without_nul,
};

verus! {

/// What is read where `text` was written to a text field.
pub open spec fn reread(text: Seq<char>) -> Seq<char> {
    decoded(ansi(text))
}

pub proof fn lemma_reread_concat(a: Seq<char>, b: Seq<char>)
    ensures
        reread(a + b) == reread(a) + reread(b),
{
    assert(without_nul(a + b) =~= without_nul(a) + without_nul(b));
    lemma_encoded_concat(without_nul(a), without_nul(b));
    assert(reread(a + b) =~= reread(a) + reread(b));
}

pub proof fn lemma_ascii_has_byte(c: char)
    requires
        c < '\u{80}',
    ensures
        has_byte(c),
{
    assert(byte_char(c as u8) == c);
}

/// Text that Windows-1252 has, without NUL, is read as it was written.
pub proof fn lemma_reread_same(text: Seq<char>)
    requires
        has_bytes(text),
        !text.contains('\0'),
    ensures
        reread(text) == text,
{
    assert(without_nul(text) =~= text) by {
        assert forall|i: int| 0 <= i < text.len() implies text[i] != '\0' by {
            if text[i] == '\0' {
                assert(text.contains('\0'));
            }
        }
    }
    law_decoded_encoded(text);
}

proof fn lemma_char_bytes_free(c: char, d: u8, i: int)
    requires
        d == 0 || d == 0x7c,
        c != byte_char(d),
        0 <= i < char_bytes(c).len(),
    ensures
        char_bytes(c)[i] != d,
{
    if has_byte(c) {
        assert(byte_char(char_byte(c)) == c);
    } else {
        lemma_decimal(c as nat);
        let digits = decimal(c as nat);
        if 2 <= i < 2 + digits.len() {
            assert(is_digit(digits[i - 2]));
        }
    }
}

proof fn lemma_encoded_free(text: Seq<char>, d: u8)
    requires
        d == 0 || d == 0x7c,
        !text.contains(byte_char(d)),
    ensures
        !encoded(text).contains(d),
    decreases text.len(),
{
    if text.len() > 0 {
        let init = text.drop_last();
        assert(!init.contains(byte_char(d))) by {
            if init.contains(byte_char(d)) {
                let i = choose|i: int| 0 <= i < init.len() && init[i] == byte_char(d);
                assert(text[i] == byte_char(d));
            }
        }
        assert(text[text.len() - 1] != byte_char(d));
        lemma_encoded_free(init, d);
        let bytes = encoded(text);
        if bytes.contains(d) {
            let i = choose|i: int| 0 <= i < bytes.len() && bytes[i] == d;
            let n = encoded(init).len() as int;
            if i < n {
                assert(encoded(init)[i] == d);
            } else {
                lemma_char_bytes_free(text.last(), d, i - n);
            }
        }
    }
}

/// The bytes of a text field hold no zero.
pub proof fn lemma_ansi_nul_free(text: Seq<char>)
    ensures
        !ansi(text).contains(0u8),
{
    assert(!without_nul(text).contains('\0'));
    assert(byte_char(0) == '\0');
    lemma_encoded_free(without_nul(text), 0);
}

/// Text without bars is read without bars.
pub proof fn lemma_reread_bar_free(text: Seq<char>)
    requires
        !text.contains('|'),
    ensures
        !reread(text).contains('|'),
{
    let clean = without_nul(text);
    assert(!clean.contains('|')) by {
        if clean.contains('|') {
            let i = choose|i: int| 0 <= i < clean.len() && clean[i] == '|';
            assert(text[i] == '|');
        }
    }
    assert(byte_char(0x7c) == '|');
    lemma_encoded_free(clean, 0x7c);
    if reread(text).contains('|') {
        let i = choose|i: int| 0 <= i < reread(text).len() && reread(text)[i] == '|';
        lemma_char_byte(ansi(text)[i]);
        lemma_char_byte(0x7c);
        assert(ansi(text)[i] == 0x7c);
    }
}

proof fn lemma_scalar_free(c: char, d: u8)
    requires
        d < 0x80,
        c != d as char,
    ensures
        !encode_scalar(c as u32).contains(d),
{
    let s = c as u32;
    assert(s <= 0x7f ==> (s & 0x7F) as u8 == s) by (bit_vector);
    assert(forall|x: u8| (0xC0u8 | x) >= 0x80) by (bit_vector);
    assert(forall|x: u8| (0xE0u8 | x) >= 0x80) by (bit_vector);
    assert(forall|x: u8| (0xF0u8 | x) >= 0x80) by (bit_vector);
    assert(forall|x: u8| (0x80u8 | x) >= 0x80) by (bit_vector);
}

/// An ASCII character stands in UTF-8 bytes only where it stands in the text.
proof fn lemma_utf8_free(text: Seq<char>, d: u8)
    requires
        d < 0x80,
        !text.contains(d as char),
    ensures
        !encode_utf8(text).contains(d),
    decreases text.len(),
{
    if text.len() > 0 {
        let rest = text.drop_first();
        assert(!rest.contains(d as char)) by {
            if rest.contains(d as char) {
                let i = choose|i: int| 0 <= i < rest.len() && rest[i] == d as char;
                assert(text[i + 1] == d as char);
            }
        }
        assert(text[0] != d as char);
        lemma_utf8_free(rest, d);
        lemma_scalar_free(text[0], d);
        let bytes = encode_utf8(text);
        if bytes.contains(d) {
            let i = choose|i: int| 0 <= i < bytes.len() && bytes[i] == d;
            let n = encode_scalar(text[0] as u32).len() as int;
            if i < n {
                assert(encode_scalar(text[0] as u32)[i] == d);
            } else {
                assert(encode_utf8(rest)[i - n] == d);
            }
        }
    }
}

/// Whether a parameter value survives being written and read: it holds neither
/// a bar nor NUL, and does not open with a byte order mark.
pub open spec fn is_lasting(value: Seq<char>) -> bool {
    &&& !value.contains('|')
    &&& !value.contains('\0')
    &&& !starts_with_mark(encode_utf8(value))
}

/// Whether a parameter can be read back under `name`: Windows-1252 has its
/// characters, it holds neither a bar nor an equals sign nor NUL, and it does
/// not start like the name of a UTF-8 spelling.
pub open spec fn is_param_name(name: Seq<char>) -> bool {
    &&& has_bytes(name)
    &&& !name.contains('|')
    &&& !name.contains('=')
    &&& !name.contains('\0')
    &&& !"%UTF8%"@.is_prefix_of(name)
}

/// The UTF-8 spelling of a value without bars has none either.
proof fn lemma_spelling_bar_free(value: Seq<char>)
    requires
        !value.contains('|'),
        !starts_with_mark(encode_utf8(value)),
    ensures
        utf8_spelling(value) == decoded(encode_utf8(value)),
        !utf8_spelling(value).contains('|'),
{
    let bytes = encode_utf8(value);
    let spelling = utf8_spelling(value);
    assert(spelling == decoded(bytes));
    lemma_utf8_free(value, 0x7c);
    if spelling.contains('|') {
        let i = choose|i: int| 0 <= i < spelling.len() && spelling[i] == '|';
        lemma_char_byte(bytes[i]);
        lemma_char_byte(0x7c);
        assert(bytes[i] == 0x7c);
    }
}

/// The UTF-8 spelling of a lasting value is written and read as it is, and
/// means the value.
proof fn lemma_spelling(value: Seq<char>)
    requires
        is_lasting(value),
    ensures
        reread(utf8_spelling(value)) == utf8_spelling(value),
        utf8_meaning(utf8_spelling(value)) == value,
{
    let bytes = encode_utf8(value);
    let spelling = utf8_spelling(value);
    lemma_spelling_bar_free(value);
    lemma_encoded_decoded(bytes);
    encode_utf8_valid_utf8(value);
    encode_utf8_decode_utf8(value);
    lemma_utf8_free(value, 0);
    assert(has_bytes(spelling)) by {
        assert forall|i: int| 0 <= i < spelling.len() implies has_byte(#[trigger] spelling[i]) by {
            lemma_char_byte(bytes[i]);
        }
    }
    if spelling.contains('\0') {
        let i = choose|i: int| 0 <= i < spelling.len() && spelling[i] == '\0';
        lemma_char_byte(bytes[i]);
        lemma_char_byte(0);
        assert(bytes[i] == 0);
    }
    lemma_reread_same(spelling);
}

/// What is read of an entry: its name and its value between the same two marks.
proof fn lemma_entry_reread(name: Seq<char>, value: Seq<char>)
    requires
        has_bytes(name),
        !name.contains('\0'),
    ensures
        reread(entry_text(name, value)) == entry_text(name, reread(value)),
{
    let bar = seq!['|'];
    let equals = seq!['='];
    lemma_reread_concat(bar + name + equals, value);
    lemma_reread_concat(bar + name, equals);
    lemma_reread_concat(bar, name);
    lemma_reread_same(name);
    lemma_name_reread_bar();
    assert(reread(equals) == equals) by {
        lemma_ascii_has_byte('=');
        assert(!equals.contains('\0'));
        lemma_reread_same(equals);
    }
}

/// The mark of a UTF-8 spelling in front of a name keeps it readable.
proof fn lemma_marked_name(name: Seq<char>)
    requires
        is_param_name(name),
    ensures
        ({
            let marked = "%UTF8%"@ + name;
            &&& has_bytes(marked)
            &&& !marked.contains('|')
            &&& !marked.contains('=')
            &&& !marked.contains('\0')
            &&& "%UTF8%"@.is_prefix_of(marked)
            &&& marked.skip("%UTF8%"@.len() as int) == name
        }),
{
    let mark = "%UTF8%"@;
    let marked = mark + name;
    reveal_strlit("%UTF8%");
    assert forall|i: int| 0 <= i < marked.len() implies {
        let c = #[trigger] marked[i];
        has_byte(c) && c != '|' && c != '=' && c != '\0'
    } by {
        if i < 6 {
            lemma_ascii_has_byte(marked[i]);
        } else {
            assert(marked[i] == name[i - 6]);
            assert(name.contains(name[i - 6]));
        }
    }
    assert(marked.skip(6) =~= name);
}

/// The pairs of texts joined by a bar are the pairs of the one and then of the other.
pub proof fn lemma_pairs_join(a: Seq<char>, b: Seq<char>)
    ensures
        text_pairs(a + seq!['|'] + b) == text_pairs(a) + text_pairs(b),
{
    lemma_split_join(a, '|', b);
    lemma_pieces_concat(split(a, '|'), split(b, '|'));
}

proof fn lemma_pieces_concat(a: Seq<Seq<char>>, b: Seq<Seq<char>>)
    ensures
        pieces_pairs(a + b) == pieces_pairs(a) + pieces_pairs(b),
    decreases b.len(),
{
    if b.len() == 0 {
        assert(a + b =~= a);
        assert(pieces_pairs(a) + pieces_pairs(b) =~= pieces_pairs(a));
    } else {
        assert((a + b).drop_last() =~= a + b.drop_last());
        lemma_pieces_concat(a, b.drop_last());
        assert(pieces_pairs(a + b) =~= pieces_pairs(a) + pieces_pairs(b));
    }
}

proof fn lemma_no_pairs()
    ensures
        text_pairs(Seq::empty()) == Seq::<Pair>::empty(),
{
    let none = Seq::<char>::empty();
    assert(split(none, '|') =~= seq![none]);
    assert(seq![none].drop_last() =~= Seq::<Seq<char>>::empty());
    assert(pieces_pairs(seq![none].drop_last()) =~= Seq::<Pair>::empty());
    assert(piece_pairs(none) =~= Seq::<Pair>::empty());
    assert(text_pairs(none) =~= Seq::<Pair>::empty());
}

/// One piece without bars gives the pair of its name and its value.
proof fn lemma_entry_pairs(name: Seq<char>, value: Seq<char>)
    requires
        !name.contains('|'),
        !name.contains('='),
        !value.contains('|'),
    ensures
        text_pairs(entry_text(name, value)) == if "%UTF8%"@.is_prefix_of(name) {
            seq![(name.skip("%UTF8%"@.len() as int), utf8_meaning(value))]
        } else {
            seq![(name, value)]
        },
{
    let none = Seq::<char>::empty();
    let piece = name + seq!['='] + value;
    assert(!piece.contains('|')) by {
        if piece.contains('|') {
            let i = choose|i: int| 0 <= i < piece.len() && piece[i] == '|';
            if i < name.len() {
                assert(name[i] == '|');
            } else if i > name.len() {
                assert(value[i - name.len() - 1] == '|');
            }
        }
    }
    lemma_split_without(piece, '|');
    lemma_pairs_join(none, piece);
    lemma_no_pairs();
    assert(none + seq!['|'] + piece =~= entry_text(name, value));
    assert(seq![piece].drop_last() =~= Seq::<Seq<char>>::empty());
    assert(pieces_pairs(seq![piece].drop_last()) =~= Seq::<Pair>::empty());
    assert forall|i: int| 0 <= i < name.len() implies piece[i] != '=' by {
        if piece[i] == '=' {
            assert(name[i] == '=');
        }
    }
    lemma_find_is(piece, '=', name.len());
    assert(piece.take(name.len() as int) =~= name);
    assert(piece.skip(name.len() as int + 1) =~= value);
    assert(text_pairs(piece) =~= piece_pairs(piece));
    assert(text_pairs(entry_text(name, value)) =~= piece_pairs(piece));
}

/// The pairs that are read where `param` was written.
pub open spec fn reread_pairs(param: Pair) -> Seq<Pair> {
    text_pairs(reread(param_text(param)))
}

/// A parameter whose value has no bars is read under its own name alone, once
/// for each spelling that it was written in.
pub proof fn lemma_param_names(param: Pair)
    requires
        is_param_name(param.0),
        !param.1.contains('|'),
        !starts_with_mark(encode_utf8(param.1)),
    ensures
        reread_pairs(param) == if has_bytes(param.1) {
            seq![(param.0, reread(param.1))]
        } else {
            seq![
                (param.0, reread(param.1)),
                (param.0, utf8_meaning(reread(utf8_spelling(param.1)))),
            ]
        },
{
    let name = param.0;
    let value = param.1;
    lemma_entry_reread(name, value);
    lemma_reread_bar_free(value);
    lemma_entry_pairs(name, reread(value));
    if !has_bytes(value) {
        let marked = "%UTF8%"@ + name;
        let written = utf8_spelling(value);
        let spelling = reread(written);
        lemma_spelling_bar_free(value);
        lemma_reread_bar_free(written);
        lemma_marked_name(name);
        lemma_entry_reread(marked, written);
        lemma_entry_pairs(marked, spelling);
        lemma_reread_concat(entry_text(name, value), entry_text(marked, written));
        let first = entry_text(name, reread(value));
        let body = marked + seq!['='] + spelling;
        lemma_pairs_join(first, body);
        let none = Seq::<char>::empty();
        lemma_pairs_join(none, body);
        lemma_no_pairs();
        assert(none + seq!['|'] + body =~= entry_text(marked, spelling));
        assert(first + seq!['|'] + body =~= first + entry_text(marked, spelling));
        assert(text_pairs(entry_text(marked, spelling)) =~= text_pairs(body));
        assert(reread_pairs(param) =~= seq![(name, reread(value)), (name, utf8_meaning(spelling))]);
    }
}

/// A parameter with a lasting value is read with that value, in whatever
/// spellings it was written.
pub proof fn law_param_reread(param: Pair)
    requires
        is_param_name(param.0),
        is_lasting(param.1),
    ensures
        reread_pairs(param) == if has_bytes(param.1) {
            seq![param]
        } else {
            seq![(param.0, reread(param.1)), param]
        },
{
    lemma_param_names(param);
    if has_bytes(param.1) {
        lemma_reread_same(param.1);
    } else {
        lemma_spelling(param.1);
    }
}

/// The pairs that are read where the parameters `params` were written.
pub open spec fn all_reread_pairs(params: Seq<Pair>) -> Seq<Pair>
    decreases params.len(),
{
    if params.len() == 0 {
        Seq::empty()
    } else {
        all_reread_pairs(params.drop_last()) + reread_pairs(params.last())
    }
}

/// Parameters are read one after the other, as they were written.
pub proof fn lemma_params_reread(params: Seq<Pair>)
    ensures
        text_pairs(reread(params_text(params))) == all_reread_pairs(params),
    decreases params.len(),
{
    let none = Seq::<char>::empty();
    lemma_no_pairs();
    if params.len() == 0 {
        assert(reread(params_text(params)) =~= none);
    } else {
        let before = params_text(params.drop_last());
        let last = param_text(params.last());
        lemma_params_reread(params.drop_last());
        lemma_reread_concat(before, last);
        let body = last.drop_first();
        assert(last =~= seq!['|'] + body);
        lemma_reread_concat(seq!['|'], body);
        lemma_name_reread_bar();
        let rest = reread(body);
        assert(reread(last) =~= none + seq!['|'] + rest);
        lemma_pairs_join(none, rest);
        assert(text_pairs(reread(last)) =~= text_pairs(rest));
        lemma_pairs_join(reread(before), rest);
        assert(reread(before) + seq!['|'] + rest =~= reread(before) + reread(last));
    }
}

proof fn lemma_name_reread_bar()
    ensures
        reread(seq!['|']) == seq!['|'],
{
    lemma_ascii_has_byte('|');
    assert(!seq!['|'].contains('\0'));
    lemma_reread_same(seq!['|']);
}

/// A later pair hides an earlier one of the same name.
pub proof fn lemma_lookup_concat(a: Seq<Pair>, b: Seq<Pair>, key: Seq<char>)
    ensures
        lookup(a + b, key) == match lookup(b, key) {
            Some(value) => Some(value),
            None => lookup(a, key),
        },
    decreases b.len(),
{
    if b.len() == 0 {
        assert(a + b =~= a);
    } else {
        assert((a + b).last() == b.last());
        assert((a + b).drop_last() =~= a + b.drop_last());
        lemma_lookup_concat(a, b.drop_last(), key);
    }
}

pub proof fn lemma_all_reread_concat(a: Seq<Pair>, b: Seq<Pair>)
    ensures
        all_reread_pairs(a + b) == all_reread_pairs(a) + all_reread_pairs(b),
    decreases b.len(),
{
    if b.len() == 0 {
        assert(a + b =~= a);
        assert(all_reread_pairs(a) + all_reread_pairs(b) =~= all_reread_pairs(a));
    } else {
        assert((a + b).drop_last() =~= a + b.drop_last());
        lemma_all_reread_concat(a, b.drop_last());
        assert(all_reread_pairs(a + b) =~= all_reread_pairs(a) + all_reread_pairs(b));
    }
}

/// Under other names there is nothing in what was read of a parameter alone.
pub proof fn lemma_lookup_other(param: Pair, key: Seq<char>)
    requires
        is_param_name(param.0),
        !param.1.contains('|'),
        !starts_with_mark(encode_utf8(param.1)),
        !same_but_case(param.0, key),
    ensures
        lookup(reread_pairs(param), key) is None,
{
    lemma_param_names(param);
    reveal_with_fuel(lookup, 3);
    let pairs = reread_pairs(param);
    if has_bytes(param.1) {
        assert(pairs.drop_last() =~= Seq::<Pair>::empty());
    } else {
        assert(pairs.drop_last() =~= seq![pairs[0]]);
        assert(pairs.drop_last().drop_last() =~= Seq::<Pair>::empty());
    }
}

/// Looking up a parameter in what was read of it alone.
pub proof fn lemma_lookup_param(param: Pair, key: Seq<char>)
    requires
        is_param_name(param.0),
        is_lasting(param.1),
    ensures
        lookup(reread_pairs(param), key) == if same_but_case(param.0, key) {
            Some(param.1)
        } else {
            None
        },
{
    law_param_reread(param);
    reveal_with_fuel(lookup, 3);
    if has_bytes(param.1) {
        assert(seq![param].drop_last() =~= Seq::<Pair>::empty());
    } else {
        let pairs = seq![(param.0, reread(param.1)), param];
        assert(pairs.last() == param);
        assert(pairs.drop_last() =~= seq![(param.0, reread(param.1))]);
        assert(pairs.drop_last().drop_last() =~= Seq::<Pair>::empty());
    }
}

/// A text block of parameters, with whatever follows it, is read as those parameters.
pub proof fn lemma_params_block_read(params: Seq<Pair>, after: Seq<u8>, label: Seq<char>)
    requires
        ansi(params_text(params)).len() + 1 < 0x100_0000,
    ensures
        first_pairs_result(
            block_bytes(0, ansi(params_text(params)) + seq![0u8]) + after,
            label,
        ) == Ok::<Seq<Pair>, crate::error::Failure>(all_reread_pairs(params)),
{
    let text = params_text(params);
    let payload = ansi(text) + seq![0u8];
    let none = Seq::<u8>::empty();
    law_block_round_trip(none, 0, payload, after);
    assert(none + block_bytes(0, payload) + after =~= block_bytes(0, payload) + after);
    lemma_params_unmarked(params);
    lemma_cstring_reread(text);
    lemma_params_reread(params);
}

/// Whether all of `params` are under readable names and with lasting values.
pub open spec fn are_lasting(params: Seq<Pair>) -> bool {
    forall|i: int|
        0 <= i < params.len() ==> is_param_name((#[trigger] params[i]).0) && is_lasting(params[i].1)
}

/// Lasting parameters are looked up, in what is read of them, as they were written.
pub proof fn lemma_lookup_reread(params: Seq<Pair>, key: Seq<char>)
    requires
        are_lasting(params),
    ensures
        lookup(all_reread_pairs(params), key) == lookup(params, key),
    decreases params.len(),
{
    if params.len() > 0 {
        let init = params.drop_last();
        assert(params.last() == params[params.len() - 1]);
        assert(are_lasting(init)) by {
            assert forall|i: int| 0 <= i < init.len() implies is_param_name(
                (#[trigger] init[i]).0,
            ) && is_lasting(init[i].1) by {
                assert(init[i] == params[i]);
            }
        }
        lemma_lookup_reread(init, key);
        lemma_lookup_param(params.last(), key);
        lemma_lookup_concat(all_reread_pairs(init), reread_pairs(params.last()), key);
    }
}

/// Whatever follows a block of lasting parameters, every name is looked up, in
/// what is read of it, as in what was written.
pub proof fn law_params_looked_up(
    params: Seq<Pair>,
    after: Seq<u8>,
    label: Seq<char>,
    key: Seq<char>,
)
    requires
        are_lasting(params),
        ansi(params_text(params)).len() + 1 < 0x100_0000,
    ensures
        first_pairs_result(
            block_bytes(0, ansi(params_text(params)) + seq![0u8]) + after,
            label,
        ) matches Ok(pairs) && lookup(pairs, key) == lookup(params, key),
{
    lemma_params_block_read(params, after, label);
    lemma_lookup_reread(params, key);
}

/// Whether Windows-1252 can write all of `params`, and neither the marks between
/// them nor NUL stand in them.
pub open spec fn are_plain(params: Seq<Pair>) -> bool {
    forall|i: int|
        0 <= i < params.len() ==> {
            &&& is_param_name((#[trigger] params[i]).0)
            &&& has_bytes(params[i].1)
            &&& !params[i].1.contains('|')
            &&& !params[i].1.contains('\0')
        }
}

/// Text that Windows-1252 has does not open with a byte order mark in UTF-8.
proof fn lemma_unmarked(text: Seq<char>)
    requires
        has_bytes(text),
    ensures
        !starts_with_mark(encode_utf8(text)),
{
    if text.len() > 0 {
        let s = text[0] as u32;
        assert(has_byte(text[0]));
        assert(s <= 0x2122) by {
            let b = choose|b: u8| byte_char(b) == text[0];
            assert(byte_char(b) == text[0]);
        }
        assert((s & 0x7F) as u8 <= 0x7f) by (bit_vector);
        assert((0xC0u8 | ((s >> 6) & 0x1F) as u8) <= 0xdf) by (bit_vector);
        assert((0xE0u8 | ((s >> 12) & 0x0F) as u8) <= 0xe2) by (bit_vector)
            requires
                s <= 0x2122,
        ;
        assert(encode_utf8(text)[0] == encode_scalar(s)[0]);
    }
}

/// Plain parameters are read one by one as they were written.
pub proof fn lemma_plain_reread(params: Seq<Pair>)
    requires
        are_plain(params),
    ensures
        all_reread_pairs(params) == params,
        has_bytes(params_text(params)),
        !params_text(params).contains('\0'),
    decreases params.len(),
{
    if params.len() > 0 {
        let init = params.drop_last();
        let last = params.last();
        let n = params.len() - 1;
        assert(last == params[n]);
        assert forall|i: int| 0 <= i < init.len() implies {
            &&& is_param_name((#[trigger] init[i]).0)
            &&& has_bytes(init[i].1)
            &&& !init[i].1.contains('|')
            &&& !init[i].1.contains('\0')
        } by {
            assert(init[i] == params[i]);
        }
        lemma_plain_reread(init);
        lemma_unmarked(last.1);
        law_param_reread(last);
        assert(all_reread_pairs(params) =~= params);
        let before = params_text(init);
        let entry = entry_text(last.0, last.1);
        let text = params_text(params);
        assert(text == before + entry);
        assert forall|i: int| 0 <= i < text.len() implies has_byte(#[trigger] text[i]) && text[i]
            != '\0' by {
            lemma_ascii_has_byte('|');
            lemma_ascii_has_byte('=');
            let k = i - before.len();
            let m = last.0.len() as int;
            if k < 0 {
                assert(text[i] == before[i]);
                assert(before.contains(before[i]));
            } else if k == 0 {
                assert(text[i] == '|');
            } else if k <= m {
                assert(text[i] == last.0[k - 1]);
                assert(last.0.contains(last.0[k - 1]));
            } else if k == m + 1 {
                assert(text[i] == '=');
            } else {
                assert(text[i] == last.1[k - m - 2]);
                assert(last.1.contains(last.1[k - m - 2]));
            }
        }
    }
}

/// Whatever follows a block of plain parameters, they are read back pair by
/// pair: the same pairs in the same order, with equals signs in values and empty
/// values as they were.
pub proof fn law_params_read_back(params: Seq<Pair>, after: Seq<u8>, label: Seq<char>)
    requires
        are_plain(params),
        params_text(params).len() + 1 < 0x100_0000,
    ensures
        first_pairs_result(
            block_bytes(0, ansi(params_text(params)) + seq![0u8]) + after,
            label,
        ) == Ok::<Seq<Pair>, crate::error::Failure>(params),
{
    let text = params_text(params);
    lemma_plain_reread(params);
    lemma_reread_same(text);
    assert(decoded(ansi(text)).len() == ansi(text).len());
    lemma_params_block_read(params, after, label);
}

/// A field that ends in a zero byte is read back, unless its text starts like a
/// byte order mark.
pub proof fn lemma_cstring_reread(text: Seq<char>)
    requires
        !starts_with_mark(ansi(text)),
    ensures
        cstring(ansi(text) + seq![0u8]) == reread(text),
{
    let bytes = ansi(text);
    let payload = bytes + seq![0u8];
    lemma_ansi_nul_free(text);
    assert forall|i: int| 0 <= i < bytes.len() implies payload[i] != 0 by {
        if payload[i] == 0 {
            assert(bytes[i] == 0);
        }
    }
    lemma_nul_end(payload, bytes.len());
    assert(payload.take(bytes.len() as int) =~= bytes);
}

pub proof fn lemma_params_unmarked(params: Seq<Pair>)
    ensures
        !starts_with_mark(ansi(params_text(params))),
{
    let text = params_text(params);
    if params.len() > 0 {
        lemma_params_text_start(params);
        let body = text.drop_first();
        assert(without_nul(text) =~= seq!['|'] + without_nul(body));
        lemma_encoded_concat(seq!['|'], without_nul(body));
        lemma_char_byte(0x7c);
        let bar = seq!['|'];
        assert(byte_char(0x7c) == '|');
        assert(bar.last() == '|');
        assert(bar.drop_last() =~= Seq::<char>::empty());
        assert(encoded(bar.drop_last()) =~= Seq::<u8>::empty());
        assert(encoded(bar) =~= seq![0x7cu8]);
        assert(ansi(text)[0] == 0x7c);
    }
}

proof fn lemma_params_text_start(params: Seq<Pair>)
    requires
        params.len() > 0,
    ensures
        params_text(params).len() > 0,
        params_text(params)[0] == '|',
    decreases params.len(),
{
    if params.len() > 1 {
        lemma_params_text_start(params.drop_last());
    } else {
        assert(params.drop_last() =~= Seq::<Pair>::empty());
        assert(params_text(params.drop_last()) =~= Seq::<char>::empty());
    }
}

} // verus!
