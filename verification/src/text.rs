//! Text as sequences of characters: the operations on strings that the rest of
//! the library is built from, each with the mathematical meaning it computes.

use vstd::prelude::*;

verus! {

/// `String::push` appends one character.
pub assume_specification[ String::push ](text: &mut String, ch: char)
    ensures
        final(text)@ == old(text)@.push(ch),
;

/// Characters with the Unicode property `White_Space`.
pub open spec fn is_white(c: char) -> bool {
    ||| '\u{9}' <= c <= '\u{d}'
    ||| c == ' '
    ||| c == '\u{85}'
    ||| c == '\u{a0}'
    ||| c == '\u{1680}'
    ||| '\u{2000}' <= c <= '\u{200a}'
    ||| c == '\u{2028}'
    ||| c == '\u{2029}'
    ||| c == '\u{202f}'
    ||| c == '\u{205f}'
    ||| c == '\u{3000}'
}

/// Whether `c` is one of `0` to `9`.
pub open spec fn is_digit(c: char) -> bool {
    '0' <= c <= '9'
}

pub open spec fn is_upper(c: char) -> bool {
    'A' <= c <= 'Z'
}

pub open spec fn is_lower(c: char) -> bool {
    'a' <= c <= 'z'
}

/// Whether `c` is an ASCII letter or digit.
pub open spec fn is_alphanumeric(c: char) -> bool {
    is_digit(c) || is_upper(c) || is_lower(c)
}

/// The ASCII capital of `c`; any other character is its own.
pub open spec fn upper(c: char) -> char {
    if is_lower(c) {
        (c as int - 32) as char
    } else {
        c
    }
}

/// The ASCII small letter of `c`; any other character is its own.
pub open spec fn lower(c: char) -> char {
    if is_upper(c) {
        (c as int + 32) as char
    } else {
        c
    }
}

pub open spec fn upper_text(text: Seq<char>) -> Seq<char> {
    text.map_values(|c: char| upper(c))
}

pub open spec fn lower_text(text: Seq<char>) -> Seq<char> {
    text.map_values(|c: char| lower(c))
}

/// `text` without its leading white space.
pub open spec fn trim_start(text: Seq<char>) -> Seq<char>
    decreases text.len(),
{
    if text.len() > 0 && is_white(text[0]) {
        trim_start(text.drop_first())
    } else {
        text
    }
}

/// `text` without its trailing white space.
pub open spec fn trim_end(text: Seq<char>) -> Seq<char>
    decreases text.len(),
{
    if text.len() > 0 && is_white(text.last()) {
        trim_end(text.drop_last())
    } else {
        text
    }
}

/// `text` without white space at either end.
pub open spec fn trim(text: Seq<char>) -> Seq<char> {
    trim_end(trim_start(text))
}

pub fn char_is_white(c: char) -> (r: bool)
    ensures
        r == is_white(c),
{
    ('\u{9}' <= c && c <= '\u{d}') || c == ' ' || c == '\u{85}' || c == '\u{a0}' || c == '\u{1680}'
        || ('\u{2000}' <= c && c <= '\u{200a}') || c == '\u{2028}' || c == '\u{2029}'
        || c == '\u{202f}' || c == '\u{205f}' || c == '\u{3000}'
}

pub fn char_is_digit(c: char) -> (r: bool)
    ensures
        r == is_digit(c),
{
    '0' <= c && c <= '9'
}

pub fn char_is_alphanumeric(c: char) -> (r: bool)
    ensures
        r == is_alphanumeric(c),
{
    ('0' <= c && c <= '9') || ('A' <= c && c <= 'Z') || ('a' <= c && c <= 'z')
}

pub fn char_upper(c: char) -> (r: char)
    ensures
        r == upper(c),
{
    if 'a' <= c && c <= 'z' {
        (c as u8 - 32) as char
    } else {
        c
    }
}

pub fn char_lower(c: char) -> (r: char)
    ensures
        r == lower(c),
{
    if 'A' <= c && c <= 'Z' {
        (c as u8 + 32) as char
    } else {
        c
    }
}

/// The characters of `text`, in order.
pub fn chars_of(text: &str) -> (chars: Vec<char>)
    ensures
        chars@ == text@,
{
    let mut chars: Vec<char> = Vec::new();
    for c in it: text.chars()
        invariant
            chars@ == it.seq().take(it.index() as int),
            it.seq() == text@,
    {
        chars.push(c);
    }
    chars
}

/// The string made of the characters from `from` up to `to`.
pub fn text_of(chars: &[char], from: usize, to: usize) -> (text: String)
    requires
        from <= to <= chars@.len(),
    ensures
        text@ == chars@.subrange(from as int, to as int),
{
    let mut text = String::new();
    let mut i: usize = from;
    while i < to
        invariant
            from <= i <= to <= chars@.len(),
            text@ == chars@.subrange(from as int, i as int),
        decreases to - i,
    {
        text.push(chars[i]);
        i += 1;
    }
    text
}

/// `text` trimmed of white space, by [`trim`].
pub fn trimmed(text: &str) -> (r: String)
    ensures
        r@ == trim(text@),
{
    let chars = chars_of(text);
    let mut from: usize = 0;
    assert(chars@.skip(0) =~= chars@);
    while from < chars.len() && char_is_white(chars[from])
        invariant
            from <= chars@.len(),
            trim_start(chars@) == trim_start(chars@.skip(from as int)),
        decreases chars.len() - from,
    {
        assert(chars@.skip(from as int).drop_first() =~= chars@.skip(from + 1));
        from += 1;
    }
    let mut to: usize = chars.len();
    let ghost start = trim_start(chars@);
    assert(start == chars@.skip(from as int));
    assert(start =~= chars@.subrange(from as int, to as int));
    while from < to && char_is_white(chars[to - 1])
        invariant
            from <= to <= chars@.len(),
            trim_end(start) == trim_end(chars@.subrange(from as int, to as int)),
        decreases to,
    {
        assert(chars@.subrange(from as int, to as int).drop_last() =~= chars@.subrange(
            from as int,
            to - 1,
        ));
        to -= 1;
    }
    text_of(&chars, from, to)
}

/// `text` with ASCII letters made capital.
pub fn uppercased(text: &str) -> (r: String)
    ensures
        r@ == upper_text(text@),
{
    let mut r = String::new();
    for c in it: text.chars()
        invariant
            it.seq() == text@,
            r@ == upper_text(text@.take(it.index() as int)),
    {
        proof {
            assert(text@.take(it.index() + 1) =~= text@.take(it.index() as int).push(c));
        }
        r.push(char_upper(c));
    }
    proof {
        assert(text@.take(text@.len() as int) =~= text@);
    }
    r
}

/// `text` with ASCII letters made small.
pub fn lowercased(text: &str) -> (r: String)
    ensures
        r@ == lower_text(text@),
{
    let mut r = String::new();
    for c in it: text.chars()
        invariant
            it.seq() == text@,
            r@ == lower_text(text@.take(it.index() as int)),
    {
        proof {
            assert(text@.take(it.index() + 1) =~= text@.take(it.index() as int).push(c));
        }
        r.push(char_lower(c));
    }
    proof {
        assert(text@.take(text@.len() as int) =~= text@);
    }
    r
}

pub fn same_text(a: &str, b: &str) -> (r: bool)
    ensures
        r == (a@ == b@),
{
    let x = chars_of(a);
    let y = chars_of(b);
    if x.len() != y.len() {
        return false;
    }
    let mut i: usize = 0;
    while i < x.len()
        invariant
            i <= x@.len() == y@.len(),
            x@ == a@,
            y@ == b@,
            x@.take(i as int) == y@.take(i as int),
        decreases x.len() - i,
    {
        if x[i] != y[i] {
            assert(a@[i as int] != b@[i as int]);
            return false;
        }
        assert(x@.take(i + 1) =~= x@.take(i as int).push(x@[i as int]));
        assert(y@.take(i + 1) =~= y@.take(i as int).push(y@[i as int]));
        i += 1;
    }
    assert(x@.take(i as int) =~= x@ && y@.take(i as int) =~= y@);
    true
}

/// Whether `a` and `b` are the same text but for the case of ASCII letters.
pub open spec fn same_but_case(a: Seq<char>, b: Seq<char>) -> bool {
    lower_text(a) == lower_text(b)
}

pub fn same_text_but_case(a: &str, b: &str) -> (r: bool)
    ensures
        r == same_but_case(a@, b@),
{
    let x = lowercased(a);
    let y = lowercased(b);
    same_text(x.as_str(), y.as_str())
}

/// The index of the first `c` in `text`, or the length of `text` where there is none.
pub open spec fn find(text: Seq<char>, c: char) -> nat
    decreases text.len(),
{
    if text.len() == 0 || text[0] == c {
        0
    } else {
        1 + find(text.drop_first(), c)
    }
}

pub proof fn lemma_find(text: Seq<char>, c: char)
    ensures
        find(text, c) <= text.len(),
        forall|i: int| 0 <= i < find(text, c) ==> text[i] != c,
        find(text, c) < text.len() ==> text[find(text, c) as int] == c,
    decreases text.len(),
{
    if text.len() > 0 && text[0] != c {
        let rest = text.drop_first();
        lemma_find(rest, c);
        assert forall|i: int| 0 <= i < find(text, c) implies text[i] != c by {
            if i > 0 {
                assert(text[i] == rest[i - 1]);
            }
        }
    }
}

pub proof fn lemma_find_is(text: Seq<char>, c: char, n: nat)
    requires
        n <= text.len(),
        forall|i: int| 0 <= i < n ==> text[i] != c,
        n < text.len() ==> text[n as int] == c,
    ensures
        find(text, c) == n,
{
    lemma_find(text, c);
}

pub fn find_char(chars: &[char], c: char) -> (r: usize)
    ensures
        r == find(chars@, c),
{
    let mut i: usize = 0;
    while i < chars.len() && chars[i] != c
        invariant
            i <= chars@.len(),
            forall|k: int| 0 <= k < i ==> chars@[k] != c,
        decreases chars.len() - i,
    {
        i += 1;
    }
    proof {
        lemma_find_is(chars@, c, i as nat);
    }
    i
}

/// `text` cut at the first `c`: what stands before it and what stands after it.
pub open spec fn cut(text: Seq<char>, c: char) -> Option<(Seq<char>, Seq<char>)> {
    let n = find(text, c) as int;
    if n < text.len() {
        Some((text.take(n), text.skip(n + 1)))
    } else {
        None
    }
}

/// The pieces of `text` between its occurrences of `sep`: one more than there are of `sep`.
pub open spec fn split(text: Seq<char>, sep: char) -> Seq<Seq<char>>
    decreases text.len(),
{
    if text.len() == 0 {
        seq![text]
    } else {
        let pieces = split(text.drop_last(), sep);
        if text.last() == sep {
            pieces.push(Seq::empty())
        } else {
            pieces.drop_last().push(pieces.last().push(text.last()))
        }
    }
}

pub proof fn lemma_split_nonempty(text: Seq<char>, sep: char)
    ensures
        split(text, sep).len() > 0,
    decreases text.len(),
{
    if text.len() > 0 {
        lemma_split_nonempty(text.drop_last(), sep);
    }
}

/// Splitting two texts joined by the separator gives the pieces of the one and
/// then the pieces of the other.
pub proof fn lemma_split_join(a: Seq<char>, sep: char, b: Seq<char>)
    ensures
        split(a + seq![sep] + b, sep) == split(a, sep) + split(b, sep),
    decreases b.len(),
{
    let whole = a + seq![sep] + b;
    if b.len() == 0 {
        assert(whole.drop_last() =~= a);
        assert(b =~= Seq::<char>::empty());
        assert(split(b, sep) =~= seq![b]);
        assert(split(whole, sep) =~= split(a, sep) + split(b, sep));
    } else {
        lemma_split_join(a, sep, b.drop_last());
        lemma_split_nonempty(b.drop_last(), sep);
        assert(whole.drop_last() =~= a + seq![sep] + b.drop_last());
        assert(whole.last() == b.last());
        assert(split(whole, sep) =~= split(a, sep) + split(b, sep));
    }
}

pub proof fn lemma_split_without(text: Seq<char>, sep: char)
    requires
        !text.contains(sep),
    ensures
        split(text, sep) == seq![text],
    decreases text.len(),
{
    if text.len() > 0 {
        let init = text.drop_last();
        assert(!init.contains(sep)) by {
            if init.contains(sep) {
                let i = choose|i: int| 0 <= i < init.len() && init[i] == sep;
                assert(text[i] == sep);
            }
        }
        assert(text[text.len() - 1] != sep);
        lemma_split_without(init, sep);
        assert(init.push(text.last()) =~= text);
        assert(split(text, sep) =~= seq![text]);
    }
}

/// The views of a sequence of strings.
pub open spec fn views(items: Seq<String>) -> Seq<Seq<char>> {
    items.map_values(|item: String| item@)
}

/// `text` split at `sep`, by [`split`].
pub fn split_text(text: &str, sep: char) -> (pieces: Vec<String>)
    ensures
        views(pieces@) == split(text@, sep),
{
    let mut pieces: Vec<String> = Vec::new();
    let mut current = String::new();
    proof {
        assert(text@.take(0) =~= Seq::<char>::empty());
        assert(current@ =~= Seq::<char>::empty());
        assert(views(pieces@).push(current@) =~= seq![text@.take(0)]);
    }
    for c in it: text.chars()
        invariant
            it.seq() == text@,
            views(pieces@).push(current@) == split(text@.take(it.index() as int), sep),
    {
        proof {
            let next = text@.take(it.index() + 1);
            assert(next.drop_last() =~= text@.take(it.index() as int));
            assert(next.last() == c);
            assert(views(pieces@).push(current@).drop_last() =~= views(pieces@));
        }
        if c == sep {
            let ghost before = pieces@;
            pieces.push(current);
            current = String::new();
            assert(views(pieces@) =~= views(before).push(pieces@.last()@));
        } else {
            current.push(c);
        }
    }
    proof {
        assert(text@.take(text@.len() as int) =~= text@);
    }
    let ghost before = pieces@;
    pieces.push(current);
    assert(views(pieces@) =~= views(before).push(pieces@.last()@));
    pieces
}

/// Whether `pattern` occurs in `text`.
pub open spec fn has_part(text: Seq<char>, pattern: Seq<char>) -> bool {
    exists|i: int| part_at(text, pattern, i)
}

/// Whether `pattern` occurs in `text` at index `i`.
pub open spec fn part_at(text: Seq<char>, pattern: Seq<char>, i: int) -> bool {
    0 <= i <= text.len() - pattern.len() && text.subrange(i, i + pattern.len()) == pattern
}

fn chars_part_at(text: &[char], pattern: &[char], at: usize) -> (r: bool)
    requires
        at <= text@.len(),
    ensures
        r == part_at(text@, pattern@, at as int),
{
    if text.len() - at < pattern.len() {
        return false;
    }
    let mut k: usize = 0;
    let end: usize = at + pattern.len();
    while k < pattern.len()
        invariant
            k <= pattern@.len(),
            end == at + pattern@.len(),
            at + pattern@.len() <= text@.len(),
            forall|j: int| 0 <= j < k ==> text@[at + j] == pattern@[j],
        decreases pattern.len() - k,
    {
        if text[at + k] != pattern[k] {
            assert(text@.subrange(at as int, at + pattern@.len())[k as int] != pattern@[k as int]);
            return false;
        }
        k += 1;
    }
    assert(text@.subrange(at as int, at + pattern@.len()) =~= pattern@);
    true
}

pub fn text_has_part(text: &str, pattern: &str) -> (r: bool)
    ensures
        r == has_part(text@, pattern@),
{
    let t = chars_of(text);
    let p = chars_of(pattern);
    let mut i: usize = 0;
    loop
        invariant
            i <= t@.len(),
            t@ == text@,
            p@ == pattern@,
            forall|j: int| 0 <= j < i ==> !part_at(text@, pattern@, j),
        decreases t.len() - i,
    {
        if chars_part_at(&t, &p, i) {
            return true;
        }
        if i == t.len() {
            return false;
        }
        i += 1;
    }
}

pub fn text_starts_with(text: &str, prefix: &str) -> (r: bool)
    ensures
        r == prefix@.is_prefix_of(text@),
{
    let t = chars_of(text);
    let p = chars_of(prefix);
    let r = chars_part_at(&t, &p, 0);
    proof {
        if prefix@.is_prefix_of(text@) {
            assert(text@.subrange(0, prefix@.len() as int) =~= prefix@);
        }
    }
    r
}

/// The first place from `i` on where `pattern` occurs in `text`.
pub open spec fn part_from(text: Seq<char>, pattern: Seq<char>, i: int) -> Option<int>
    decreases text.len() + 1 - i,
{
    if i < 0 || i > text.len() - pattern.len() {
        None
    } else if part_at(text, pattern, i) {
        Some(i)
    } else {
        part_from(text, pattern, i + 1)
    }
}

pub fn find_part(text: &[char], pattern: &str) -> (r: Option<usize>)
    ensures
        match r {
            Some(at) => part_from(text@, pattern@, 0) == Some(at as int),
            None => part_from(text@, pattern@, 0) is None,
        },
{
    let p = chars_of(pattern);
    let mut i: usize = 0;
    while i < text.len()
        invariant
            i <= text@.len(),
            p@ == pattern@,
            part_from(text@, pattern@, 0) == part_from(text@, pattern@, i as int),
        decreases text.len() - i,
    {
        if chars_part_at(text, &p, i) {
            return Some(i);
        }
        i += 1;
        assert(i > text@.len() - p@.len() ==> part_from(text@, pattern@, i - 1) is None);
    }
    if chars_part_at(text, &p, i) {
        return Some(i);
    }
    assert(part_from(text@, pattern@, i as int) is None) by {
        reveal_with_fuel(part_from, 2);
    }
    None
}

pub open spec fn has_suffix(text: Seq<char>, suffix: Seq<char>) -> bool {
    suffix.is_suffix_of(text)
}

pub fn text_ends_with(text: &str, suffix: &str) -> (r: bool)
    ensures
        r == has_suffix(text@, suffix@),
{
    let t = chars_of(text);
    let p = chars_of(suffix);
    if t.len() < p.len() {
        return false;
    }
    let at: usize = t.len() - p.len();
    chars_part_at(&t, &p, at)
}

/// Whether `text` is among `items`.
pub fn has_text(items: &Vec<String>, text: &str) -> (r: bool)
    ensures
        r == views(items@).contains(text@),
{
    let mut i: usize = 0;
    while i < items.len()
        invariant
            i <= items@.len(),
            forall|k: int| 0 <= k < i ==> items@[k]@ != text@,
        decreases items.len() - i,
    {
        if same_text(items[i].as_str(), text) {
            assert(views(items@)[i as int] == text@);
            return true;
        }
        i += 1;
    }
    assert(!views(items@).contains(text@)) by {
        if views(items@).contains(text@) {
            let k = choose|k: int| 0 <= k < items@.len() && views(items@)[k] == text@;
            assert(items@[k]@ == text@);
        }
    }
    false
}

/// The character that writes the decimal digit `d`.
pub open spec fn digit_char(d: nat) -> char {
    (48 + d) as char
}

/// `n` in decimal digits, without leading zeros.
pub open spec fn decimal(n: nat) -> Seq<char>
    decreases n,
{
    if n < 10 {
        seq![digit_char(n)]
    } else {
        decimal(n / 10).push(digit_char(n % 10))
    }
}

/// The number that a sequence of decimal digits stands for.
pub open spec fn digits_value(text: Seq<char>) -> nat
    decreases text.len(),
{
    if text.len() == 0 {
        0
    } else {
        digits_value(text.drop_last()) * 10 + (text.last() as int - 48) as nat
    }
}

pub open spec fn all_digits(text: Seq<char>) -> bool {
    forall|i: int| 0 <= i < text.len() ==> is_digit(#[trigger] text[i])
}

pub proof fn lemma_decimal(n: nat)
    ensures
        all_digits(decimal(n)),
        decimal(n).len() > 0,
        digits_value(decimal(n)) == n,
    decreases n,
{
    reveal_with_fuel(digits_value, 3);
    if n < 10 {
        assert(decimal(n).drop_last() =~= Seq::empty());
        assert(digits_value(decimal(n).drop_last()) == 0);
    } else {
        lemma_decimal(n / 10);
        assert(decimal(n).drop_last() =~= decimal(n / 10));
    }
}

/// Different numbers are written differently.
pub proof fn lemma_decimal_injective(m: nat, n: nat)
    requires
        decimal(m) == decimal(n),
    ensures
        m == n,
{
    lemma_decimal(m);
    lemma_decimal(n);
}

/// If the first `n` members of a family of different texts are all among
/// `used`, then `used` holds at least `n` texts.
pub proof fn lemma_family_used(family: spec_fn(nat) -> Seq<char>, n: nat, used: Seq<Seq<char>>)
    requires
        forall|i: nat, j: nat| i < j < n ==> #[trigger] family(i) != #[trigger] family(j),
        forall|i: nat| i < n ==> used.contains(#[trigger] family(i)),
    ensures
        n <= used.len(),
{
    let members = Seq::new(n, |i: int| family(i as nat));
    assert(members.no_duplicates()) by {
        assert forall|i: int, j: int|
            0 <= i < members.len() && 0 <= j < members.len() && i != j implies members[i]
            != members[j] by {
            let _ = (family(i as nat), family(j as nat));
        }
    }
    members.unique_seq_to_set();
    used.lemma_cardinality_of_set();
    assert(members.to_set().subset_of(used.to_set())) by {
        assert forall|t: Seq<char>| members.to_set().contains(t) implies used.to_set().contains(
            t,
        ) by {
            let i = choose|i: int| 0 <= i < members.len() && members[i] == t;
            assert(used.contains(family(i as nat)));
        }
    }
    vstd::set_lib::lemma_len_subset(members.to_set(), used.to_set());
}

pub fn decimal_text(n: u128) -> (text: String)
    ensures
        text@ == decimal(n as nat),
    decreases n,
{
    if n < 10 {
        let mut text = String::new();
        text.push((48 + n as u8) as char);
        assert(text@ =~= decimal(n as nat));
        text
    } else {
        let mut text = decimal_text(n / 10);
        text.push((48 + (n % 10) as u8) as char);
        text
    }
}

/// The number that `text` writes: decimal digits, at least one, after an optional `+`.
pub open spec fn parsed_number(text: Seq<char>) -> Option<nat> {
    let digits = if text.len() > 0 && text[0] == '+' {
        text.drop_first()
    } else {
        text
    };
    if digits.len() > 0 && all_digits(digits) {
        Some(digits_value(digits))
    } else {
        None
    }
}

/// Reads `text` as a number, where it writes one that fits.
pub fn parse_number(text: &str) -> (r: Option<usize>)
    ensures
        r == (match parsed_number(text@) {
            Some(n) => if n <= usize::MAX {
                Some(n as usize)
            } else {
                None
            },
            None => None,
        }),
{
    let chars = chars_of(text);
    let from: usize = if chars.len() > 0 && chars[0] == '+' {
        1
    } else {
        0
    };
    let ghost digits = chars@.skip(from as int);
    proof {
        if from == 1 {
            assert(chars@.skip(1) =~= chars@.drop_first());
        }
        assert(chars@.skip(0) =~= chars@);
    }
    if chars.len() == from {
        return None;
    }
    let mut value: usize = 0;
    let mut i: usize = from;
    let mut fits = true;
    while i < chars.len()
        invariant
            from <= i <= chars@.len(),
            chars@ == text@,
            from == (if text@.len() > 0 && text@[0] == '+' {
                1int
            } else {
                0
            }),
            digits == (if from == 1 {
                text@.drop_first()
            } else {
                text@
            }),
            digits == chars@.skip(from as int),
            digits.len() > 0,
            forall|k: int| 0 <= k < i - from ==> is_digit(digits[k]),
            fits ==> value == digits_value(digits.take(i - from)),
            !fits ==> digits_value(digits.take(i - from)) > usize::MAX,
        decreases chars.len() - i,
    {
        let c = chars[i];
        if !char_is_digit(c) {
            assert(!is_digit(digits[i - from]));
            return None;
        }
        proof {
            assert(digits.take(i + 1 - from).drop_last() =~= digits.take(i - from));
            assert(digits.take(i + 1 - from).last() == c);
        }
        let d: usize = (c as u8 - 48) as usize;
        if fits {
            if value > usize::MAX / 10 || value * 10 > usize::MAX - d {
                fits = false;
            } else {
                value = value * 10 + d;
            }
        }
        i += 1;
    }
    assert(digits.take(i - from) =~= digits);
    assert(all_digits(digits));
    if fits {
        Some(value)
    } else {
        None
    }
}

/// `text` with every occurrence of `pattern`, from the left and without
/// overlap, replaced by `with`.
pub open spec fn replaced(text: Seq<char>, pattern: Seq<char>, with: Seq<char>) -> Seq<char>
    decreases text.len(),
{
    if text.len() == 0 || pattern.len() == 0 {
        text
    } else if part_at(text, pattern, 0) {
        with + replaced(text.skip(pattern.len() as int), pattern, with)
    } else {
        seq![text[0]] + replaced(text.drop_first(), pattern, with)
    }
}

pub fn replace_text(text: &str, pattern: &str, with: &str) -> (r: String)
    requires
        pattern@.len() > 0,
    ensures
        r@ == replaced(text@, pattern@, with@),
{
    let t = chars_of(text);
    let p = chars_of(pattern);
    let mut r = String::new();
    let mut i: usize = 0;
    assert(t@.skip(0) =~= t@);
    assert(r@ + replaced(t@, p@, with@) =~= replaced(t@, p@, with@));
    while i < t.len()
        invariant
            i <= t@.len(),
            t@ == text@,
            p@ == pattern@,
            p@.len() > 0,
            r@ + replaced(t@.skip(i as int), p@, with@) == replaced(t@, p@, with@),
        decreases t.len() - i,
    {
        let ghost rest = t@.skip(i as int);
        let ghost before = r@;
        if chars_part_at(&t, &p, i) {
            r.append(with);
            proof {
                assert(rest.subrange(0, p@.len() as int) =~= t@.subrange(i as int, i + p@.len()));
                assert(part_at(rest, p@, 0));
                assert(rest.skip(p@.len() as int) =~= t@.skip(i + p@.len()));
                let next = replaced(t@.skip(i + p@.len()), p@, with@);
                assert(before + (with@ + next) =~= (before + with@) + next);
            }
            i += p.len();
        } else {
            r.push(t[i]);
            proof {
                if part_at(rest, p@, 0) {
                    assert(t@.subrange(i as int, i + p@.len()) =~= rest.subrange(
                        0,
                        p@.len() as int,
                    ));
                    assert(part_at(t@, p@, i as int));
                }
                assert(rest.drop_first() =~= t@.skip(i + 1));
                let next = replaced(t@.skip(i + 1), p@, with@);
                assert(before + (seq![rest[0]] + next) =~= before.push(rest[0]) + next);
            }
            i += 1;
        }
    }
    assert(t@.skip(i as int) =~= Seq::<char>::empty());
    assert(r@ + Seq::<char>::empty() =~= r@);
    r
}

/// `text` with every `from` made `to`.
pub open spec fn with_char(text: Seq<char>, from: char, to: char) -> Seq<char> {
    text.map_values(
        |c: char|
            if c == from {
                to
            } else {
                c
            },
    )
}

pub fn replace_char(text: &str, from: char, to: char) -> (r: String)
    ensures
        r@ == with_char(text@, from, to),
{
    let mut r = String::new();
    for c in it: text.chars()
        invariant
            it.seq() == text@,
            r@ == with_char(text@.take(it.index() as int), from, to),
    {
        proof {
            assert(text@.take(it.index() + 1) =~= text@.take(it.index() as int).push(c));
        }
        r.push(
            if c == from {
                to
            } else {
                c
            },
        );
        assert(r@ =~= with_char(text@.take(it.index() + 1), from, to));
    }
    proof {
        assert(text@.take(text@.len() as int) =~= text@);
    }
    r
}

/// The items of a sequence without those that came before.
pub open spec fn distinct(items: Seq<Seq<char>>) -> Seq<Seq<char>>
    decreases items.len(),
{
    if items.len() == 0 {
        Seq::empty()
    } else {
        let before = distinct(items.drop_last());
        if before.contains(items.last()) {
            before
        } else {
            before.push(items.last())
        }
    }
}

/// Those of `parts` that are not blank, trimmed.
pub open spec fn filled(parts: Seq<Seq<char>>) -> Seq<Seq<char>>
    decreases parts.len(),
{
    if parts.len() == 0 {
        Seq::empty()
    } else {
        let before = filled(parts.drop_last());
        if trim(parts.last()).len() > 0 {
            before.push(trim(parts.last()))
        } else {
            before
        }
    }
}

pub fn filled_parts(parts: &Vec<String>) -> (r: Vec<String>)
    ensures
        views(r@) == filled(views(parts@)),
{
    let ghost all = views(parts@);
    let mut kept: Vec<String> = Vec::new();
    let mut i: usize = 0;
    assert(all.take(0) =~= Seq::<Seq<char>>::empty());
    assert(views(kept@) =~= Seq::<Seq<char>>::empty());
    while i < parts.len()
        invariant
            i <= parts@.len(),
            all == views(parts@),
            views(kept@) == filled(all.take(i as int)),
        decreases parts.len() - i,
    {
        assert(all.take(i + 1).drop_last() =~= all.take(i as int));
        assert(all.take(i + 1).last() == parts@[i as int]@);
        let part = trimmed(parts[i].as_str());
        if !part.as_str().is_empty() {
            let ghost before = views(kept@);
            kept.push(part);
            assert(views(kept@) =~= before.push(part@));
        }
        i += 1;
    }
    assert(all.take(i as int) =~= all);
    kept
}

/// `parts` with `sep` between them.
pub open spec fn joined(parts: Seq<Seq<char>>, sep: Seq<char>) -> Seq<char>
    decreases parts.len(),
{
    if parts.len() == 0 {
        Seq::empty()
    } else if parts.len() == 1 {
        parts[0]
    } else {
        joined(parts.drop_last(), sep) + sep + parts.last()
    }
}

pub fn join_text(parts: &Vec<String>, sep: &str) -> (r: String)
    ensures
        r@ == joined(views(parts@), sep@),
{
    let ghost all = views(parts@);
    let mut text = String::new();
    let mut i: usize = 0;
    assert(text@ =~= joined(all.take(0), sep@));
    while i < parts.len()
        invariant
            i <= parts@.len(),
            all == views(parts@),
            text@ == joined(all.take(i as int), sep@),
        decreases parts.len() - i,
    {
        let ghost before = text@;
        if i > 0 {
            text.append(sep);
        }
        text.append(parts[i].as_str());
        i += 1;
        proof {
            let now = all.take(i as int);
            assert(now.drop_last() =~= all.take(i - 1));
            assert(now.last() == parts@[i - 1]@);
            assert(text@ =~= joined(now, sep@));
        }
    }
    assert(all.take(i as int) =~= all);
    text
}

/// [`distinct`] keeps each item once, and no other.
pub proof fn law_distinct(items: Seq<Seq<char>>)
    ensures
        distinct(items).no_duplicates(),
        forall|item: Seq<char>| #[trigger] distinct(items).contains(item) <==> items.contains(item),
    decreases items.len(),
{
    if items.len() > 0 {
        let init = items.drop_last();
        law_distinct(init);
        let before = distinct(init);
        let all = distinct(items);
        assert(items =~= init.push(items.last()));
        assert forall|item: Seq<char>| #[trigger] all.contains(item) <==> items.contains(item) by {
            if items.contains(item) && item != items.last() {
                let i = choose|i: int| 0 <= i < items.len() && items[i] == item;
                assert(init[i] == item);
                assert(before.contains(item));
                let j = choose|j: int| 0 <= j < before.len() && before[j] == item;
                assert(all[j] == item);
            }
            if item == items.last() {
                assert(items[items.len() - 1] == item);
                if before.contains(item) {
                    assert(all.contains(item));
                } else {
                    assert(all[all.len() - 1] == item);
                }
            }
            if all.contains(item) && item != items.last() {
                let j = choose|j: int| 0 <= j < all.len() && all[j] == item;
                assert(before[j] == item);
                assert(before.contains(item));
                assert(init.contains(item));
                let i = choose|i: int| 0 <= i < init.len() && init[i] == item;
                assert(items[i] == item);
            }
        }
        assert forall|i: int, j: int| 0 <= i < all.len() && 0 <= j < all.len() && i != j implies all[i]
            != all[j] by {
            if i < before.len() && j < before.len() {
                assert(before[i] != before[j]);
            } else if i < before.len() {
                assert(before.contains(before[i]));
            } else if j < before.len() {
                assert(before.contains(before[j]));
            }
        }
    }
}

/// `text` without the character `c`.
pub open spec fn without(text: Seq<char>, c: char) -> Seq<char>
    decreases text.len(),
{
    if text.len() == 0 {
        text
    } else if text.last() == c {
        without(text.drop_last(), c)
    } else {
        without(text.drop_last(), c).push(text.last())
    }
}

pub fn remove_char(text: &str, c: char) -> (r: String)
    ensures
        r@ == without(text@, c),
{
    let mut r = String::new();
    assert(text@.take(0) =~= Seq::<char>::empty());
    assert(r@ =~= Seq::<char>::empty());
    for x in it: text.chars()
        invariant
            it.seq() == text@,
            r@ == without(text@.take(it.index() as int), c),
    {
        proof {
            let next = text@.take(it.index() + 1);
            assert(next.drop_last() =~= text@.take(it.index() as int));
            assert(next.last() == x);
        }
        if x != c {
            r.push(x);
        }
    }
    proof {
        assert(text@.take(text@.len() as int) =~= text@);
    }
    r
}

/// `text` without leading `c`.
pub open spec fn strip_leading(text: Seq<char>, c: char) -> Seq<char>
    decreases text.len(),
{
    if text.len() > 0 && text[0] == c {
        strip_leading(text.drop_first(), c)
    } else {
        text
    }
}

/// `text` without trailing `c`.
pub open spec fn strip_trailing(text: Seq<char>, c: char) -> Seq<char>
    decreases text.len(),
{
    if text.len() > 0 && text.last() == c {
        strip_trailing(text.drop_last(), c)
    } else {
        text
    }
}

pub fn leading_stripped(text: &str, c: char) -> (r: String)
    ensures
        r@ == strip_leading(text@, c),
{
    let chars = chars_of(text);
    let mut from: usize = 0;
    assert(chars@.skip(0) =~= chars@);
    while from < chars.len() && chars[from] == c
        invariant
            from <= chars@.len(),
            strip_leading(chars@, c) == strip_leading(chars@.skip(from as int), c),
        decreases chars.len() - from,
    {
        assert(chars@.skip(from as int).drop_first() =~= chars@.skip(from + 1));
        from += 1;
    }
    assert(chars@.skip(from as int) =~= chars@.subrange(from as int, chars@.len() as int));
    text_of(&chars, from, chars.len())
}

pub fn trailing_stripped(text: &str, c: char) -> (r: String)
    ensures
        r@ == strip_trailing(text@, c),
{
    let chars = chars_of(text);
    let mut to: usize = chars.len();
    assert(chars@.take(to as int) =~= chars@);
    while to > 0 && chars[to - 1] == c
        invariant
            to <= chars@.len(),
            strip_trailing(chars@, c) == strip_trailing(chars@.take(to as int), c),
        decreases to,
    {
        assert(chars@.take(to as int).drop_last() =~= chars@.take(to - 1));
        to -= 1;
    }
    assert(chars@.take(to as int) =~= chars@.subrange(0, to as int));
    text_of(&chars, 0, to)
}

pub fn text_has_char(text: &str, c: char) -> (r: bool)
    ensures
        r == text@.contains(c),
{
    let chars = chars_of(text);
    let at: usize = find_char(&chars, c);
    proof {
        lemma_find(text@, c);
        if text@.contains(c) {
            let i = choose|i: int| 0 <= i < text@.len() && text@[i] == c;
            assert(i >= find(text@, c));
        }
    }
    at < chars.len()
}

/// Whether `text` starts with `c`.
pub open spec fn starts_with_char(text: Seq<char>, c: char) -> bool {
    text.len() > 0 && text[0] == c
}

pub fn text_starts_with_char(text: &str, c: char) -> (r: bool)
    ensures
        r == starts_with_char(text@, c),
{
    let chars = chars_of(text);
    chars.len() > 0 && chars[0] == c
}

} // verus!
