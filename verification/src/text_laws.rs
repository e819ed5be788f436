//! What the operations on texts do, whatever the texts are.

use vstd::prelude::*;
use crate::text::{
    cut, decimal, digits_value, distinct, filled, find, has_part, is_lower, is_upper, is_white,
    joined, lemma_decimal, lemma_find, lemma_split_join, lemma_split_nonempty, lemma_split_without,
    lower, lower_text, part_at, part_from, parsed_number, replaced, same_but_case, split,
    strip_leading, strip_trailing, trim, trim_end, trim_start, upper, upper_text, with_char, without,
};

verus! {

/// Whether a text is made of white space alone.
pub open spec fn all_white(text: Seq<char>) -> bool {
    forall|i: int| 0 <= i < text.len() ==> is_white(#[trigger] text[i])
}

/// Whether a text neither starts nor ends in white space.
pub open spec fn is_bare(text: Seq<char>) -> bool {
    text.len() > 0 ==> !is_white(text[0]) && !is_white(text.last())
}

proof fn lemma_trim_start(a: Seq<char>, text: Seq<char>)
    requires
        all_white(a),
        text.len() > 0 ==> !is_white(text[0]),
    ensures
        trim_start(a + text) == text,
    decreases a.len(),
{
    let whole = a + text;
    if a.len() > 0 {
        assert(whole[0] == a[0]);
        assert(whole.drop_first() =~= a.drop_first() + text);
        assert forall|i: int| 0 <= i < a.drop_first().len() implies is_white(
            #[trigger] a.drop_first()[i],
        ) by {
            assert(a.drop_first()[i] == a[i + 1]);
        }
        lemma_trim_start(a.drop_first(), text);
    } else {
        assert(whole =~= text);
    }
}

proof fn lemma_trim_end(text: Seq<char>, b: Seq<char>)
    requires
        all_white(b),
        text.len() > 0 ==> !is_white(text.last()),
    ensures
        trim_end(text + b) == text,
    decreases b.len(),
{
    let whole = text + b;
    if b.len() > 0 {
        assert(whole.last() == b.last());
        assert(whole.drop_last() =~= text + b.drop_last());
        assert forall|i: int| 0 <= i < b.drop_last().len() implies is_white(
            #[trigger] b.drop_last()[i],
        ) by {
            assert(b.drop_last()[i] == b[i]);
        }
        lemma_trim_end(text, b.drop_last());
    } else {
        assert(whole =~= text);
    }
}

/// Trimming takes off the white space before and after a text, and nothing else.
pub proof fn law_trim(before: Seq<char>, text: Seq<char>, after: Seq<char>)
    requires
        all_white(before),
        is_bare(text),
        all_white(after),
    ensures
        trim(before + text + after) == text,
{
    if text.len() > 0 {
        assert(before + text + after =~= before + (text + after));
        assert((text + after)[0] == text[0]);
        lemma_trim_start(before, text + after);
        lemma_trim_end(text, after);
    } else {
        let all = before + after;
        assert(before + text + after =~= all + text);
        assert(all_white(all)) by {
            assert forall|i: int| 0 <= i < all.len() implies is_white(#[trigger] all[i]) by {
                if i < before.len() {
                    assert(all[i] == before[i]);
                } else {
                    assert(all[i] == after[i - before.len()]);
                }
            }
        }
        lemma_trim_start(all, text);
        lemma_trim_end(text, text);
        assert(text + text =~= text);
    }
}

proof fn lemma_trim_start_parts(text: Seq<char>) -> (n: int)
    ensures
        0 <= n <= text.len(),
        trim_start(text) == text.skip(n),
        all_white(text.take(n)),
        n < text.len() ==> !is_white(text[n]),
    decreases text.len(),
{
    if text.len() > 0 && is_white(text[0]) {
        let n = lemma_trim_start_parts(text.drop_first());
        assert(text.drop_first().skip(n) =~= text.skip(n + 1));
        assert forall|i: int| 0 <= i < n + 1 implies is_white(#[trigger] text.take(n + 1)[i]) by {
            if i > 0 {
                assert(text.drop_first().take(n)[i - 1] == text[i]);
            }
        }
        n + 1
    } else {
        assert(text.skip(0) =~= text);
        0
    }
}

proof fn lemma_trim_end_parts(text: Seq<char>) -> (n: int)
    ensures
        0 <= n <= text.len(),
        trim_end(text) == text.take(n),
        all_white(text.skip(n)),
        n > 0 ==> !is_white(text[n - 1]),
    decreases text.len(),
{
    if text.len() > 0 && is_white(text.last()) {
        let n = lemma_trim_end_parts(text.drop_last());
        assert(text.drop_last().take(n) =~= text.take(n));
        assert forall|i: int| 0 <= i < text.len() - n implies is_white(
            #[trigger] text.skip(n)[i],
        ) by {
            if i < text.len() - n - 1 {
                assert(text.drop_last().skip(n)[i] == text[n + i]);
            }
        }
        n
    } else {
        assert(text.take(text.len() as int) =~= text);
        text.len() as int
    }
}

/// What trimming leaves has no white space at its ends, and what it takes off is
/// white space.
pub proof fn law_trimmed_parts(text: Seq<char>) -> (parts: (Seq<char>, Seq<char>))
    ensures
        text == parts.0 + trim(text) + parts.1,
        all_white(parts.0),
        all_white(parts.1),
        is_bare(trim(text)),
        trim(trim(text)) == trim(text),
{
    let m = lemma_trim_start_parts(text);
    let rest = trim_start(text);
    let n = lemma_trim_end_parts(rest);
    let parts = (text.take(m), rest.skip(n));
    let none = Seq::<char>::empty();
    assert(text =~= parts.0 + trim(text) + parts.1);
    if trim(text).len() > 0 {
        assert(trim(text)[0] == text[m]);
        assert(trim(text).last() == rest[n - 1]);
    }
    law_trim(none, trim(text), none);
    assert(none + trim(text) + none =~= trim(text));
    parts
}

/// Capitals and small letters turn into each other, and no other character
/// changes.
pub proof fn law_letter_case(c: char)
    ensures
        is_lower(c) ==> is_upper(upper(c)) && lower(upper(c)) == c,
        is_upper(c) ==> is_lower(lower(c)) && upper(lower(c)) == c,
        !is_lower(c) ==> upper(c) == c,
        !is_upper(c) ==> lower(c) == c,
        upper('a') == 'A' && upper('z') == 'Z',
{
}

/// Texts are the same but for case exactly where their characters are, one by one.
pub proof fn law_same_but_case(a: Seq<char>, b: Seq<char>)
    ensures
        same_but_case(a, b) <==> a.len() == b.len() && forall|i: int|
            0 <= i < a.len() ==> lower(#[trigger] a[i]) == lower(b[i]),
        same_but_case(a, upper_text(a)),
        same_but_case(a, lower_text(a)),
        same_but_case(a, b) <==> upper_text(a) == upper_text(b),
{
    if same_but_case(a, b) {
        assert(lower_text(a).len() == lower_text(b).len());
        assert forall|i: int| 0 <= i < a.len() implies lower(#[trigger] a[i]) == lower(b[i]) by {
            assert(lower_text(a)[i] == lower_text(b)[i]);
        }
        assert forall|i: int| 0 <= i < a.len() implies upper(#[trigger] a[i]) == upper(b[i]) by {
            assert(lower(a[i]) == lower(b[i]));
        }
        assert(upper_text(a) =~= upper_text(b));
    }
    if a.len() == b.len() && forall|i: int|
        0 <= i < a.len() ==> lower(#[trigger] a[i]) == lower(b[i]) {
        assert(lower_text(a) =~= lower_text(b));
    }
    if upper_text(a) == upper_text(b) {
        assert(upper_text(a).len() == upper_text(b).len());
        assert forall|i: int| 0 <= i < a.len() implies lower(#[trigger] a[i]) == lower(b[i]) by {
            assert(upper_text(a)[i] == upper_text(b)[i]);
        }
        assert(lower_text(a) =~= lower_text(b));
    }
    assert(lower_text(a) =~= lower_text(upper_text(a)));
    assert(lower_text(a) =~= lower_text(lower_text(a)));
}

/// A text that is cut at a character is what stands before it, the character and
/// what stands after it, and the character does not stand in the first part.
pub proof fn law_cut(text: Seq<char>, c: char)
    ensures
        cut(text, c) is Some <==> text.contains(c),
        cut(text, c) matches Some(parts) ==> text == parts.0 + seq![c] + parts.1
            && !parts.0.contains(c),
{
    lemma_find(text, c);
    let n = find(text, c) as int;
    if n < text.len() {
        assert(text =~= text.take(n) + seq![c] + text.skip(n + 1));
        assert(text[n] == c);
        if text.take(n).contains(c) {
            let i = choose|i: int| 0 <= i < n && text.take(n)[i] == c;
            assert(text[i] == c);
        }
    }
}

/// The pieces that a text is split into hold no separator, and with one between
/// each two they are the text again.
pub proof fn law_split(text: Seq<char>, sep: char)
    ensures
        joined(split(text, sep), seq![sep]) == text,
        forall|i: int| 0 <= i < split(text, sep).len() ==> !(#[trigger] split(text, sep)[i]).contains(
            sep,
        ),
    decreases text.len(),
{
    if text.contains(sep) {
        law_cut(text, sep);
        let parts = cut(text, sep)->0;
        let (a, b) = parts;
        lemma_split_join(a, sep, b);
        lemma_split_without(a, sep);
        law_split(b, sep);
        let rest = split(b, sep);
        lemma_split_nonempty(b, sep);
        lemma_joined_first(a, rest, seq![sep]);
        assert(split(text, sep) =~= seq![a] + rest);
        assert(joined(split(text, sep), seq![sep]) =~= text);
        assert forall|i: int| 0 <= i < split(text, sep).len() implies !(#[trigger] split(
            text,
            sep,
        )[i]).contains(sep) by {
            if i > 0 {
                assert(split(text, sep)[i] == rest[i - 1]);
            }
        }
    } else {
        lemma_split_without(text, sep);
    }
}

proof fn lemma_joined_first(first: Seq<char>, rest: Seq<Seq<char>>, sep: Seq<char>)
    requires
        rest.len() > 0,
    ensures
        joined(seq![first] + rest, sep) == first + sep + joined(rest, sep),
    decreases rest.len(),
{
    let all = seq![first] + rest;
    assert(all.drop_last() =~= seq![first] + rest.drop_last());
    assert(all.last() == rest.last());
    if rest.len() == 1 {
        assert(all.drop_last() =~= seq![first]);
        assert(joined(seq![first], sep) == first);
        assert(joined(rest, sep) == rest[0]);
        assert(joined(all, sep) =~= first + sep + joined(rest, sep));
    } else {
        lemma_joined_first(first, rest.drop_last(), sep);
        assert(joined(all, sep) =~= first + sep + joined(rest, sep));
    }
}

/// Joining parts puts the separator between each two, before none and behind none.
pub proof fn law_joined(first: Seq<char>, rest: Seq<Seq<char>>, sep: Seq<char>)
    ensures
        joined(seq![first], sep) == first,
        rest.len() > 0 ==> joined(seq![first] + rest, sep) == first + sep + joined(rest, sep),
        joined(Seq::empty(), sep) == Seq::<char>::empty(),
{
    if rest.len() > 0 {
        lemma_joined_first(first, rest, sep);
    }
}

/// A pattern is found at the first place where it occurs, and is found exactly
/// where it occurs at all.
pub proof fn law_part_from(text: Seq<char>, pattern: Seq<char>, i: int)
    requires
        0 <= i,
    ensures
        part_from(text, pattern, i) matches Some(at) ==> i <= at && at + pattern.len()
            <= text.len() && text.subrange(at, at + pattern.len()) == pattern && forall|k: int|
            i <= k < at ==> !#[trigger] part_at(text, pattern, k),
        part_from(text, pattern, i) is None ==> forall|k: int|
            i <= k ==> !#[trigger] part_at(text, pattern, k),
        has_part(text, pattern) <==> part_from(text, pattern, 0) is Some,
    decreases text.len() + 1 - i,
{
    if i > 0 {
        lemma_part_from_on(text, pattern, 0);
    }
    lemma_part_from_on(text, pattern, i);
    if part_from(text, pattern, 0) is Some {
        assert(part_at(text, pattern, part_from(text, pattern, 0)->0));
    }
}

proof fn lemma_part_from_on(text: Seq<char>, pattern: Seq<char>, i: int)
    requires
        0 <= i,
    ensures
        part_from(text, pattern, i) matches Some(at) ==> i <= at && part_at(text, pattern, at)
            && forall|k: int| i <= k < at ==> !#[trigger] part_at(text, pattern, k),
        part_from(text, pattern, i) is None ==> forall|k: int|
            i <= k ==> !#[trigger] part_at(text, pattern, k),
    decreases text.len() + 1 - i,
{
    if i <= text.len() - pattern.len() && !part_at(text, pattern, i) {
        lemma_part_from_on(text, pattern, i + 1);
    }
}

/// Where a pattern does not occur, replacing it changes nothing, and its first
/// occurrence is replaced with what follows it taken on its own.
pub proof fn law_replaced(text: Seq<char>, pattern: Seq<char>, with: Seq<char>)
    requires
        pattern.len() > 0,
    ensures
        match part_from(text, pattern, 0) {
            Some(at) => replaced(text, pattern, with) == text.take(at) + with + replaced(
                text.skip(at + pattern.len()),
                pattern,
                with,
            ),
            None => replaced(text, pattern, with) == text,
        },
    decreases text.len(),
{
    lemma_part_from_on(text, pattern, 0);
    if text.len() == 0 {
        assert(part_from(text, pattern, 0) is None);
    } else if part_at(text, pattern, 0) {
        assert(text.take(0) + with =~= with);
    } else {
        let rest = text.drop_first();
        lemma_part_from_on(rest, pattern, 0);
        assert forall|k: int| 0 <= k implies #[trigger] part_at(rest, pattern, k) == part_at(
            text,
            pattern,
            k + 1,
        ) by {
            if 0 <= k <= rest.len() - pattern.len() {
                assert(rest.subrange(k, k + pattern.len()) =~= text.subrange(
                    k + 1,
                    k + 1 + pattern.len(),
                ));
            }
        }
        law_replaced(rest, pattern, with);
        match (part_from(text, pattern, 0), part_from(rest, pattern, 0)) {
            (Some(at), Some(k)) => {
                assert(part_at(rest, pattern, at - 1));
                assert(part_at(text, pattern, k + 1));
                assert(at == k + 1);
                assert(text.take(at) =~= seq![text[0]] + rest.take(k));
                assert(text.skip(at + pattern.len()) =~= rest.skip(k + pattern.len()));
                assert(replaced(text, pattern, with) =~= text.take(at) + with + replaced(
                    text.skip(at + pattern.len()),
                    pattern,
                    with,
                ));
            },
            (Some(at), None) => {
                assert(part_at(rest, pattern, at - 1));
            },
            (None, Some(k)) => {
                assert(part_at(text, pattern, k + 1));
            },
            (None, None) => {
                assert(seq![text[0]] + rest =~= text);
            },
        }
    }
}

/// Replacing a character changes it wherever it stands, and nothing else.
pub proof fn law_with_char(text: Seq<char>, from: char, to: char, i: int)
    requires
        0 <= i < text.len(),
    ensures
        with_char(text, from, to).len() == text.len(),
        text[i] == from ==> with_char(text, from, to)[i] == to,
        text[i] != from ==> with_char(text, from, to)[i] == text[i],
{
}

/// Taking a character out of a text takes out every one of it and leaves the rest
/// as it was: a part without it stays, and parts are taken each on its own.
pub proof fn law_without(a: Seq<char>, b: Seq<char>, c: char)
    ensures
        without(a + b, c) == without(a, c) + without(b, c),
        !without(a, c).contains(c),
        !a.contains(c) ==> without(a, c) == a,
        without(seq![c], c) == Seq::<char>::empty(),
    decreases a.len() + b.len(),
{
    reveal_with_fuel(without, 2);
    assert(seq![c].drop_last() =~= Seq::<char>::empty());
    if b.len() > 0 {
        assert((a + b).drop_last() =~= a + b.drop_last());
        assert((a + b).last() == b.last());
        law_without(a, b.drop_last(), c);
        assert(without(a + b, c) =~= without(a, c) + without(b, c));
    } else {
        assert(a + b =~= a);
        assert(without(b, c) =~= Seq::<char>::empty());
        assert(without(a, c) + without(b, c) =~= without(a, c));
        if a.len() > 0 {
            let init = a.drop_last();
            law_without(init, b, c);
            if !a.contains(c) {
                assert(a[a.len() - 1] != c);
                if init.contains(c) {
                    let i = choose|i: int| 0 <= i < init.len() && init[i] == c;
                    assert(a[i] == c);
                }
                assert(without(a, c) =~= a);
            }
            if without(a, c).contains(c) {
                let i = choose|i: int| 0 <= i < without(a, c).len() && without(a, c)[i] == c;
                if i < without(init, c).len() {
                    assert(without(init, c)[i] == c);
                }
            }
        }
    }
}

/// Stripping takes off every leading, or every trailing, occurrence of a character
/// and nothing else.
pub proof fn law_stripped(n: nat, text: Seq<char>, c: char)
    ensures
        text.len() > 0 && text[0] != c ==> strip_leading(Seq::new(n, |i: int| c) + text, c) == text,
        text.len() > 0 && text.last() != c ==> strip_trailing(text + Seq::new(n, |i: int| c), c)
            == text,
        strip_leading(Seq::new(n, |i: int| c), c) == Seq::<char>::empty(),
        strip_trailing(Seq::new(n, |i: int| c), c) == Seq::<char>::empty(),
    decreases n,
{
    let row = Seq::new(n, |i: int| c);
    if n > 0 {
        let less = Seq::new((n - 1) as nat, |i: int| c);
        law_stripped((n - 1) as nat, text, c);
        assert((row + text).drop_first() =~= less + text);
        assert((text + row).drop_last() =~= text + less);
        assert(row.drop_first() =~= less);
        assert(row.drop_last() =~= less);
    } else {
        assert(row + text =~= text);
        assert(text + row =~= text);
        assert(row =~= Seq::<char>::empty());
    }
}

/// The parts that are not blank come trimmed and in their order: those of two
/// sequences are those of the one and then those of the other.
pub proof fn law_filled(a: Seq<Seq<char>>, b: Seq<Seq<char>>, part: Seq<char>)
    ensures
        filled(a + b) == filled(a) + filled(b),
        trim(part).len() > 0 ==> filled(seq![part]) == seq![trim(part)],
        trim(part).len() == 0 ==> filled(seq![part]) == Seq::<Seq<char>>::empty(),
    decreases b.len(),
{
    reveal_with_fuel(filled, 2);
    assert(seq![part].drop_last() =~= Seq::<Seq<char>>::empty());
    assert(filled(seq![part].drop_last()) =~= Seq::<Seq<char>>::empty());
    assert(seq![trim(part)] =~= Seq::<Seq<char>>::empty().push(trim(part)));
    if b.len() > 0 {
        assert((a + b).drop_last() =~= a + b.drop_last());
        law_filled(a, b.drop_last(), part);
        assert(filled(a + b) =~= filled(a) + filled(b));
    } else {
        assert(a + b =~= a);
        assert(filled(a) + filled(b) =~= filled(a));
    }
}

/// The different items come in the order in which they first occur: an item that
/// occurred before adds nothing, and any other is added at the end.
pub proof fn law_distinct_order(items: Seq<Seq<char>>, item: Seq<char>)
    ensures
        items.contains(item) ==> distinct(items.push(item)) == distinct(items),
        !items.contains(item) ==> distinct(items.push(item)) == distinct(items).push(item),
{
    assert(items.push(item).drop_last() =~= items);
    crate::text::law_distinct(items);
}

/// A number that is written in digits is read back, with or without a plus sign
/// in front.
pub proof fn law_number_read_back(n: nat)
    ensures
        parsed_number(decimal(n)) == Some(n),
        parsed_number(seq!['+'] + decimal(n)) == Some(n),
        digits_value(decimal(n)) == n,
        n > 0 ==> decimal(n)[0] != '0',
{
    lemma_decimal(n);
    lemma_first_digit(n);
    let digits = decimal(n);
    assert(crate::text::is_digit(digits[0]));
    assert((seq!['+'] + digits).drop_first() =~= digits);
}

proof fn lemma_first_digit(n: nat)
    ensures
        decimal(n).len() > 0,
        n > 0 ==> decimal(n)[0] != '0',
    decreases n,
{
    if n >= 10 {
        lemma_first_digit(n / 10);
        assert(decimal(n)[0] == decimal(n / 10)[0]);
    }
}

/// White space is what has that property in Unicode: the blanks of ASCII, the next line
/// and the blank that does not break, and the blanks of other scripts.
pub proof fn law_white(c: char)
    ensures
        is_white(c) <==> ({
            let n = c as u32;
            9 <= n <= 13 || n == 32 || n == 0x85 || n == 0xa0 || n == 0x1680 || 0x2000 <= n
                <= 0x200a || n == 0x2028 || n == 0x2029 || n == 0x202f || n == 0x205f || n == 0x3000
        }),
{
}

} // verus!
