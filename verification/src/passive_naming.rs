//! Names for passive components, put together from their ratings: for example
//! `RES_10K_0402_C25804`.
//!
//! Ratings are written with numbers and units. What a number comes to in a unit
//! is measured outside this module: [`passive_quantities`] says what has to be
//! measured, and [`build_passive_component_name`] takes the readings.

use vstd::prelude::*;
use crate::schlib::{lcsc_id, normalize_lcsc_id, optional};
use crate::text::{
    all_digits, char_is_digit, char_upper, chars_of, cut, find_char, has_part, has_suffix,
    is_alphanumeric, is_digit, is_lower, is_upper, is_white, leading_stripped, lower_text,
    lowercased, remove_char, replace_char, same_but_case, same_text, same_text_but_case,
    starts_with_char, strip_leading, strip_trailing, text_ends_with, text_has_char, text_has_part,
    text_of, text_starts_with, text_starts_with_char, trailing_stripped, trim, trim_end, trim_start,
    trimmed, upper, upper_text, uppercased, with_char, without,
};

verus! {

/// A parameter of a schematic component.
#[derive(Debug, Clone)]
pub struct SchlibParameter {
    pub name: String,
    pub value: String,
}

/// The views of a sequence of parameters.
pub open spec fn param_views(parameters: Seq<SchlibParameter>) -> Seq<(Seq<char>, Seq<char>)> {
    parameters.map_values(|p: SchlibParameter| (p.name@, p.value@))
}

/// The power of ten by which a unit's prefix multiplies.
#[derive(Debug, Clone, Copy, PartialEq, Eq, Structural)]
pub enum Scale {
    Pico,
    Nano,
    Micro,
    Milli,
    One,
    Kilo,
    Mega,
}

/// How a scaled number is put into a unit.
#[derive(Debug, Clone, Copy, PartialEq, Eq, Structural)]
pub enum Rule {
    /// In millions from a million on, in thousands from a thousand on, else as it is.
    Resistance,
    /// In millionths from a millionth on, in thousand-millionths from one of
    /// those on, else in million-millionths.
    Capacitance,
    /// In millionths from a millionth on, else in thousand-millionths.
    Inductance,
    /// In thousandths.
    Thousandths,
    /// As it is.
    Plain,
}

/// A number as written, its scale, and the rule for its unit.
#[derive(Debug, Clone)]
pub struct Quantity {
    pub number: String,
    pub scale: Scale,
    pub rule: Rule,
}

/// What a quantity comes to: which unit of its rule applies, counted from the
/// largest, and the value in that unit with nine decimals. There is no text
/// where the value is not finite or below zero.
#[derive(Debug, Clone)]
pub struct Reading {
    pub unit: u8,
    pub text: Option<String>,
}

/// What a [`Quantity`] holds.
pub struct QuantityView {
    pub number: Seq<char>,
    pub scale: Scale,
    pub rule: Rule,
}

/// What a [`Reading`] holds.
pub struct ReadingView {
    pub unit: u8,
    pub text: Option<Seq<char>>,
}

impl View for Quantity {
    type V = QuantityView;

    open spec fn view(&self) -> QuantityView {
        QuantityView { number: self.number@, scale: self.scale, rule: self.rule }
    }
}

impl View for Reading {
    type V = ReadingView;

    open spec fn view(&self) -> ReadingView {
        ReadingView { unit: self.unit, text: optional(self.text) }
    }
}

/// Quantities with their readings.
pub type Table = Seq<(QuantityView, ReadingView)>;

pub open spec fn table_of(readings: Seq<(Quantity, Reading)>) -> Table {
    readings.map_values(|r: (Quantity, Reading)| (r.0@, r.1@))
}

/// The reading that `table` has for `quantity`, if any: the first.
pub open spec fn reading_of(table: Table, quantity: QuantityView) -> Option<ReadingView>
    decreases table.len(),
{
    if table.len() == 0 {
        None
    } else if table[0].0 == quantity {
        Some(table[0].1)
    } else {
        reading_of(table.drop_first(), quantity)
    }
}

fn find_reading<'a>(readings: &'a [(Quantity, Reading)], number: &str, scale: Scale, rule: Rule) -> (r:
    Option<&'a Reading>)
    ensures
        match r {
            Some(reading) => reading_of(
                table_of(readings@),
                (QuantityView { number: number@, scale, rule }),
            ) == Some(reading@),
            None => reading_of(
                table_of(readings@),
                (QuantityView { number: number@, scale, rule }),
            ) is None,
        },
{
    let ghost table = table_of(readings@);
    let ghost quantity = QuantityView { number: number@, scale, rule };
    let mut i: usize = 0;
    assert(table.skip(0) =~= table);
    while i < readings.len()
        invariant
            i <= readings@.len(),
            table == table_of(readings@),
            quantity == (QuantityView { number: number@, scale, rule }),
            reading_of(table.skip(i as int), quantity) == reading_of(table, quantity),
        decreases readings.len() - i,
    {
        assert(table.skip(i as int)[0] == (readings@[i as int].0@, readings@[i as int].1@));
        assert(table.skip(i as int).drop_first() =~= table.skip(i + 1));
        let known = &readings[i].0;
        if known.scale == scale && known.rule == rule && same_text(known.number.as_str(), number) {
            return Some(&readings[i].1);
        }
        i += 1;
    }
    None
}

// Classification

/// `text` without trailing digits and question marks.
pub open spec fn strip_numbering(text: Seq<char>) -> Seq<char>
    decreases text.len(),
{
    if text.len() > 0 && (text.last() == '?' || is_digit(text.last())) {
        strip_numbering(text.drop_last())
    } else {
        text
    }
}

/// The letters of a designator, such as `R` of `R12` or `R?`.
pub open spec fn stem(designator: Seq<char>) -> Seq<char> {
    upper_text(trim(strip_numbering(trim(designator))))
}

pub fn designator_stem(designator: &str) -> (r: String)
    ensures
        r@ == stem(designator@),
{
    let bare = trimmed(designator);
    let chars = chars_of(bare.as_str());
    let mut to: usize = chars.len();
    assert(chars@.take(to as int) =~= chars@);
    while to > 0 && (chars[to - 1] == '?' || char_is_digit(chars[to - 1]))
        invariant
            to <= chars@.len(),
            strip_numbering(chars@) == strip_numbering(chars@.take(to as int)),
        decreases to,
    {
        assert(chars@.take(to as int).drop_last() =~= chars@.take(to - 1));
        to -= 1;
    }
    assert(chars@.take(to as int) =~= chars@.subrange(0, to as int));
    let letters = text_of(chars.as_slice(), 0, to);
    let letters = trimmed(letters.as_str());
    uppercased(letters.as_str())
}

/// A kind of passive component.
#[derive(Debug, Clone, Copy, PartialEq, Eq, Structural)]
pub enum PassiveKind {
    Res,
    Cap,
    Ind,
    Fb,
}

/// What the names of components of this kind start with.
pub open spec fn kind_prefix(kind: PassiveKind) -> Seq<char> {
    match kind {
        PassiveKind::Res => "RES"@,
        PassiveKind::Cap => "CAP"@,
        PassiveKind::Ind => "IND"@,
        PassiveKind::Fb => "FB"@,
    }
}

impl PassiveKind {
    pub fn prefix(self) -> (r: &'static str)
        ensures
            r@ == kind_prefix(self),
    {
        match self {
            PassiveKind::Res => "RES",
            PassiveKind::Cap => "CAP",
            PassiveKind::Ind => "IND",
            PassiveKind::Fb => "FB",
        }
    }
}

/// Whether one of `keywords` occurs in `name`, its case aside.
pub open spec fn is_named(name: Seq<char>, keywords: Seq<Seq<char>>) -> bool {
    exists|k: int|
        0 <= k < keywords.len() && has_part(lower_text(name), #[trigger] keywords[k])
}

/// The value of the first parameter that one of `keywords` names.
pub open spec fn param_named(
    parameters: Seq<(Seq<char>, Seq<char>)>,
    keywords: Seq<Seq<char>>,
) -> Option<Seq<char>>
    decreases parameters.len(),
{
    if parameters.len() == 0 {
        None
    } else if is_named(parameters[0].0, keywords) {
        Some(parameters[0].1)
    } else {
        param_named(parameters.drop_first(), keywords)
    }
}

/// The views of a sequence of words.
pub open spec fn words(keywords: Seq<&str>) -> Seq<Seq<char>> {
    keywords.map_values(|k: &str| k@)
}

/// The view of an optional text.
pub open spec fn seen(text: Option<&str>) -> Option<Seq<char>> {
    match text {
        Some(text) => Some(text@),
        None => None,
    }
}

fn name_matches(name: &str, keywords: &[&str]) -> (r: bool)
    ensures
        r == is_named(name@, words(keywords@)),
{
    let small = lowercased(name);
    let mut k: usize = 0;
    while k < keywords.len()
        invariant
            k <= keywords@.len(),
            small@ == lower_text(name@),
            forall|j: int| 0 <= j < k ==> !has_part(small@, #[trigger] words(keywords@)[j]),
        decreases keywords.len() - k,
    {
        assert(words(keywords@)[k as int] == keywords@[k as int]@);
        if text_has_part(small.as_str(), keywords[k]) {
            return true;
        }
        k += 1;
    }
    false
}

pub fn find_param<'a>(parameters: &'a [SchlibParameter], keywords: &[&str]) -> (r: Option<&'a str>)
    ensures
        seen(r) == param_named(param_views(parameters@), words(keywords@)),
{
    let ghost all = param_views(parameters@);
    let mut i: usize = 0;
    assert(all.skip(0) =~= all);
    while i < parameters.len()
        invariant
            i <= parameters@.len(),
            all == param_views(parameters@),
            param_named(all.skip(i as int), words(keywords@)) == param_named(
                all,
                words(keywords@),
            ),
        decreases parameters.len() - i,
    {
        assert(all.skip(i as int)[0] == (parameters@[i as int].name@, parameters@[i as int].value@));
        assert(all.skip(i as int).drop_first() =~= all.skip(i + 1));
        if name_matches(parameters[i].name.as_str(), keywords) {
            return Some(parameters[i].value.as_str());
        }
        i += 1;
    }
    None
}

/// Whether the category of a component says that it is a ferrite bead.
pub open spec fn is_bead(parameters: Seq<(Seq<char>, Seq<char>)>) -> bool {
    match param_named(parameters, seq!["category"@]) {
        Some(category) => has_part(lower_text(category), "ferrite"@) && has_part(
            lower_text(category),
            "bead"@,
        ),
        None => false,
    }
}

/// The kind of component that a designator and parameters give.
pub open spec fn kind_of(
    designator: Seq<char>,
    parameters: Seq<(Seq<char>, Seq<char>)>,
) -> Option<PassiveKind> {
    let stem = stem(designator);
    if stem == "FB"@ {
        Some(PassiveKind::Fb)
    } else if stem == "L"@ {
        if is_bead(parameters) {
            Some(PassiveKind::Fb)
        } else {
            Some(PassiveKind::Ind)
        }
    } else if stem == "C"@ || stem == "CV"@ {
        Some(PassiveKind::Cap)
    } else if stem == "R"@ || stem == "RV"@ || stem == "VR"@ {
        Some(PassiveKind::Res)
    } else if is_bead(parameters) {
        Some(PassiveKind::Fb)
    } else {
        None
    }
}

pub fn classify_passive_kind(designator: &str, parameters: &[SchlibParameter]) -> (r: Option<
    PassiveKind,
>)
    ensures
        r == kind_of(designator@, param_views(parameters@)),
{
    let stem = designator_stem(designator);
    let stem = stem.as_str();
    let keywords: [&str; 1] = ["category"];
    assert(words(keywords@) =~= seq!["category"@]);
    let bead = match find_param(parameters, &keywords) {
        Some(category) => {
            let small = lowercased(category);
            text_has_part(small.as_str(), "ferrite") && text_has_part(small.as_str(), "bead")
        },
        None => false,
    };
    if same_text(stem, "FB") {
        Some(PassiveKind::Fb)
    } else if same_text(stem, "L") {
        if bead {
            Some(PassiveKind::Fb)
        } else {
            Some(PassiveKind::Ind)
        }
    } else if same_text(stem, "C") || same_text(stem, "CV") {
        Some(PassiveKind::Cap)
    } else if same_text(stem, "R") || same_text(stem, "RV") || same_text(stem, "VR") {
        Some(PassiveKind::Res)
    } else if bead {
        Some(PassiveKind::Fb)
    } else {
        None
    }
}

// Tokens

pub fn normalize_lcsc_token(id: Option<&str>) -> (r: Option<String>)
    ensures
        optional(r) == match seen(id) {
            Some(value) => lcsc_id(value),
            None => None,
        },
{
    match id {
        Some(value) => normalize_lcsc_id(value),
        None => None,
    }
}

/// What a character becomes in a token, if it stays at all.
pub open spec fn token_char(c: char) -> Option<char> {
    if is_lower(c) || is_upper(c) || is_digit(c) {
        Some(upper(c))
    } else if c == ' ' || c == '/' || c == '\\' || c == ',' || c == '(' || c == ')' || c == '['
        || c == ']' || c == '{' || c == '}' || c == '-' || c == '_' {
        Some('_')
    } else if c == '.' {
        Some('D')
    } else if c == '\u{b5}' || c == '\u{3bc}' {
        Some('U')
    } else if c == '\u{3a9}' || c == '\u{2126}' {
        Some('R')
    } else if c == '%' {
        Some('P')
    } else if c == '\u{d7}' {
        Some('X')
    } else {
        None
    }
}

fn map_token_char(c: char) -> (r: Option<char>)
    ensures
        r == token_char(c),
{
    if ('a' <= c && c <= 'z') || ('A' <= c && c <= 'Z') || ('0' <= c && c <= '9') {
        Some(char_upper(c))
    } else if c == ' ' || c == '/' || c == '\\' || c == ',' || c == '(' || c == ')' || c == '['
        || c == ']' || c == '{' || c == '}' || c == '-' || c == '_' {
        Some('_')
    } else if c == '.' {
        Some('D')
    } else if c == '\u{b5}' || c == '\u{3bc}' {
        Some('U')
    } else if c == '\u{3a9}' || c == '\u{2126}' {
        Some('R')
    } else if c == '%' {
        Some('P')
    } else if c == '\u{d7}' {
        Some('X')
    } else {
        None
    }
}

/// `text` with its characters made fit for a token, without a separator in
/// front and with one where several follow each other.
pub open spec fn squeezed(text: Seq<char>) -> Seq<char>
    decreases text.len(),
{
    if text.len() == 0 {
        text
    } else {
        let before = squeezed(text.drop_last());
        match token_char(text.last()) {
            Some(c) => if c == '_' && (before.len() == 0 || before.last() == '_') {
                before
            } else {
                before.push(c)
            },
            None => before,
        }
    }
}

/// Some text, unless it is empty.
pub open spec fn unless_empty(text: Seq<char>) -> Option<Seq<char>> {
    if text.len() > 0 {
        Some(text)
    } else {
        None
    }
}

fn some_unless_empty(text: String) -> (r: Option<String>)
    ensures
        optional(r) == unless_empty(text@),
{
    if text.as_str().is_empty() {
        None
    } else {
        Some(text)
    }
}

/// The token for a text of any form.
pub open spec fn freeform(value: Seq<char>) -> Option<Seq<char>> {
    unless_empty(strip_trailing(strip_leading(squeezed(trim(value)), '_'), '_'))
}

pub fn normalize_freeform_token(value: &str) -> (r: Option<String>)
    ensures
        optional(r) == freeform(value@),
{
    let bare = trimmed(value);
    let chars = chars_of(bare.as_str());
    let mut token = String::new();
    let mut started = false;
    let mut last_was_separator = false;
    let mut i: usize = 0;
    assert(chars@.take(0) =~= Seq::<char>::empty());
    assert(token@ =~= Seq::<char>::empty());
    while i < chars.len()
        invariant
            i <= chars@.len(),
            token@ == squeezed(chars@.take(i as int)),
            started == (token@.len() > 0),
            last_was_separator == (token@.len() > 0 && token@.last() == '_'),
        decreases chars.len() - i,
    {
        proof {
            assert(chars@.take(i + 1).drop_last() =~= chars@.take(i as int));
            assert(chars@.take(i + 1).last() == chars@[i as int]);
        }
        if let Some(c) = map_token_char(chars[i]) {
            if c == '_' {
                if started && !last_was_separator {
                    token.push('_');
                    last_was_separator = true;
                }
            } else {
                token.push(c);
                started = true;
                last_was_separator = false;
            }
        }
        i += 1;
    }
    assert(chars@.take(i as int) =~= chars@);
    let token = leading_stripped(token.as_str(), '_');
    some_unless_empty(trailing_stripped(token.as_str(), '_'))
}

/// Whether `c` leaves something in a token that is not a separator.
pub open spec fn is_token_sign(c: char) -> bool {
    is_alphanumeric(c) || c == '.' || c == '%' || c == '\u{b5}' || c == '\u{3bc}' || c == '\u{3a9}'
        || c == '\u{2126}' || c == '\u{d7}'
}

/// Whether `text` has capitals, digits and underscores, with none of these in
/// front and no two next to each other.
spec fn is_squeezed(text: Seq<char>) -> bool {
    &&& forall|i: int|
        0 <= i < text.len() ==> (is_upper(#[trigger] text[i]) || is_digit(text[i]) || text[i]
            == '_')
    &&& text.len() > 0 ==> text[0] != '_'
    &&& forall|i: int| 0 < i < text.len() && #[trigger] text[i] == '_' ==> text[i - 1] != '_'
}

/// Whether `text` has the shape of a token: capitals, digits and underscores,
/// these neither at an end nor next to each other.
pub open spec fn is_token(text: Seq<char>) -> bool {
    &&& text.len() > 0
    &&& forall|i: int|
        0 <= i < text.len() ==> (is_upper(#[trigger] text[i]) || is_digit(text[i]) || text[i]
            == '_')
    &&& text[0] != '_'
    &&& text.last() != '_'
    &&& forall|i: int| 0 < i < text.len() && #[trigger] text[i] == '_' ==> text[i - 1] != '_'
}

/// Whether `text` has a character that leaves something in a token.
spec fn has_sign(text: Seq<char>) -> bool {
    exists|i: int| 0 <= i < text.len() && is_token_sign(#[trigger] text[i])
}

proof fn lemma_squeezed(text: Seq<char>)
    ensures
        is_squeezed(squeezed(text)),
        squeezed(text).len() > 0 <==> has_sign(text),
    decreases text.len(),
{
    if text.len() > 0 {
        let init = text.drop_last();
        let n = text.len() - 1;
        lemma_squeezed(init);
        assert(text.last() == text[n]);
        if has_sign(init) {
            let i = choose|i: int| 0 <= i < init.len() && is_token_sign(#[trigger] init[i]);
            assert(text[i] == init[i]);
        }
        if has_sign(text) && !is_token_sign(text[n]) {
            let i = choose|i: int| 0 <= i < text.len() && is_token_sign(#[trigger] text[i]);
            assert(init[i] == text[i]);
        }
    }
}

/// Text that is squeezed already stays as it is.
proof fn lemma_squeezed_same(text: Seq<char>)
    requires
        is_squeezed(text),
    ensures
        squeezed(text) == text,
    decreases text.len(),
{
    if text.len() > 0 {
        let init = text.drop_last();
        let n = text.len() - 1;
        assert forall|i: int| 0 <= i < init.len() implies (is_upper(#[trigger] init[i]) || is_digit(
            init[i],
        ) || init[i] == '_') by {
            assert(init[i] == text[i]);
        }
        assert forall|i: int| 0 < i < init.len() && #[trigger] init[i] == '_' implies init[i - 1]
            != '_' by {
            assert(text[i] == '_');
        }
        lemma_squeezed_same(init);
        assert(text[n] == text.last());
        assert(init.push(text.last()) =~= text);
    }
}

proof fn lemma_sign_trimmed_start(text: Seq<char>)
    ensures
        has_sign(trim_start(text)) == has_sign(text),
    decreases text.len(),
{
    if text.len() > 0 && is_white(text[0]) {
        let rest = text.drop_first();
        lemma_sign_trimmed_start(rest);
        if has_sign(text) {
            let i = choose|i: int| 0 <= i < text.len() && is_token_sign(#[trigger] text[i]);
            assert(rest[i - 1] == text[i]);
        }
        if has_sign(rest) {
            let i = choose|i: int| 0 <= i < rest.len() && is_token_sign(#[trigger] rest[i]);
            assert(text[i + 1] == rest[i]);
        }
    }
}

proof fn lemma_sign_trimmed_end(text: Seq<char>)
    ensures
        has_sign(trim_end(text)) == has_sign(text),
    decreases text.len(),
{
    if text.len() > 0 && is_white(text.last()) {
        let init = text.drop_last();
        lemma_sign_trimmed_end(init);
        if has_sign(text) {
            let i = choose|i: int| 0 <= i < text.len() && is_token_sign(#[trigger] text[i]);
            assert(i < init.len());
            assert(init[i] == text[i]);
        }
        if has_sign(init) {
            let i = choose|i: int| 0 <= i < init.len() && is_token_sign(#[trigger] init[i]);
            assert(text[i] == init[i]);
        }
    }
}

/// A token has the shape of one and is its own token. There is none just for
/// text without a letter, a digit or another character that stands for one.
pub proof fn law_freeform_tokens(value: Seq<char>)
    ensures
        freeform(value) matches Some(token) ==> is_token(token) && freeform(token) == Some(token),
        freeform(value) is None <==> forall|i: int|
            0 <= i < value.len() ==> !is_token_sign(#[trigger] value[i]),
{
    let text = squeezed(trim(value));
    lemma_squeezed(trim(value));
    lemma_sign_trimmed_start(value);
    lemma_sign_trimmed_end(trim_start(value));
    assert(strip_leading(text, '_') == text);
    let token = strip_trailing(text, '_');
    if text.len() > 0 && text.last() == '_' {
        let n = text.len() - 1;
        assert(text[n] == '_');
        let init = text.drop_last();
        assert(init.last() == text[n - 1]);
        assert(strip_trailing(init, '_') == init);
        assert forall|i: int| 0 < i < init.len() && #[trigger] init[i] == '_' implies init[i - 1]
            != '_' by {
            assert(text[i] == '_');
        }
        assert forall|i: int| 0 <= i < init.len() implies (is_upper(#[trigger] init[i]) || is_digit(
            init[i],
        ) || init[i] == '_') by {
            assert(init[i] == text[i]);
        }
    }
    if text.len() > 0 {
        assert(is_token(token));
        lemma_squeezed_same(token);
        assert(token[token.len() - 1] == token.last());
        assert(trim_start(token) == token);
        assert(trim_end(token) == token);
        assert(strip_leading(token, '_') == token);
        assert(strip_trailing(token, '_') == token);
    }
    if freeform(value) is None {
        assert forall|i: int| 0 <= i < value.len() implies !is_token_sign(#[trigger] value[i]) by {
            if is_token_sign(value[i]) {
                assert(has_sign(value));
            }
        }
    }
}

/// The digits of `text`, with `D` for each point.
pub open spec fn dimension_chars(text: Seq<char>) -> Seq<char>
    decreases text.len(),
{
    if text.len() == 0 {
        text
    } else {
        let before = dimension_chars(text.drop_last());
        if is_digit(text.last()) {
            before.push(text.last())
        } else if text.last() == '.' {
            before.push('D')
        } else {
            before
        }
    }
}

/// The token for a length.
pub open spec fn dimension(value: Seq<char>) -> Option<Seq<char>> {
    unless_empty(dimension_chars(trim(value)))
}

pub fn normalize_decimal_dimension(value: &str) -> (r: Option<String>)
    ensures
        optional(r) == dimension(value@),
{
    let bare = trimmed(value);
    let chars = chars_of(bare.as_str());
    let mut token = String::new();
    let mut i: usize = 0;
    assert(chars@.take(0) =~= Seq::<char>::empty());
    assert(token@ =~= Seq::<char>::empty());
    while i < chars.len()
        invariant
            i <= chars@.len(),
            token@ == dimension_chars(chars@.take(i as int)),
        decreases chars.len() - i,
    {
        proof {
            assert(chars@.take(i + 1).drop_last() =~= chars@.take(i as int));
            assert(chars@.take(i + 1).last() == chars@[i as int]);
        }
        if char_is_digit(chars[i]) {
            token.push(chars[i]);
        } else if chars[i] == '.' {
            token.push('D');
        }
        i += 1;
    }
    assert(chars@.take(i as int) =~= chars@);
    some_unless_empty(token)
}

/// What follows `SMD` in a package name, where it gives dimensions: without
/// commas in front and `MM` at the end, cut at the first `X`.
pub open spec fn smd_dimensions(package: Seq<char>) -> Option<(Seq<char>, Seq<char>)> {
    if "SMD"@.is_prefix_of(package) {
        let rest = strip_leading(package.skip(3), ',');
        let dims = if has_suffix(rest, "MM"@) {
            rest.take(rest.len() - 2)
        } else {
            rest
        };
        cut(dims, 'X')
    } else {
        None
    }
}

/// The token for a package.
pub open spec fn package_token(value: Seq<char>) -> Option<Seq<char>> {
    let compact = with_char(without(trim(value), ' '), '\u{d7}', 'X');
    let package = upper_text(compact);
    if compact.len() == 0 {
        None
    } else if all_digits(package) {
        Some(package)
    } else {
        match smd_dimensions(package) {
            Some((left, right)) => match (dimension(left), dimension(right)) {
                (Some(l), Some(r)) => Some("SMD"@ + l + "X"@ + r),
                _ => None,
            },
            None => freeform(package),
        }
    }
}

fn text_all_digits(text: &str) -> (r: bool)
    ensures
        r == all_digits(text@),
{
    let chars = chars_of(text);
    let mut i: usize = 0;
    while i < chars.len()
        invariant
            i <= chars@.len(),
            chars@ == text@,
            forall|k: int| 0 <= k < i ==> is_digit(#[trigger] text@[k]),
        decreases chars.len() - i,
    {
        if !char_is_digit(chars[i]) {
            assert(!is_digit(text@[i as int]));
            return false;
        }
        i += 1;
    }
    true
}

/// `text` cut at the first `c`, by [`cut`].
pub fn cut_text(text: &str, c: char) -> (r: Option<(String, String)>)
    ensures
        match r {
            Some((a, b)) => cut(text@, c) == Some((a@, b@)),
            None => cut(text@, c) is None,
        },
{
    let chars = chars_of(text);
    let at: usize = find_char(chars.as_slice(), c);
    if at < chars.len() {
        assert(chars@.subrange(0, at as int) =~= chars@.take(at as int));
        assert(chars@.subrange(at + 1, chars@.len() as int) =~= chars@.skip(at + 1));
        Some((text_of(chars.as_slice(), 0, at), text_of(chars.as_slice(), at + 1, chars.len())))
    } else {
        None
    }
}

fn smd_parts(package: &str) -> (r: Option<(String, String)>)
    ensures
        match r {
            Some((a, b)) => smd_dimensions(package@) == Some((a@, b@)),
            None => smd_dimensions(package@) is None,
        },
{
    proof {
        reveal_strlit("SMD");
        reveal_strlit("MM");
    }
    if !text_starts_with(package, "SMD") {
        return None;
    }
    let chars = chars_of(package);
    assert(chars@.subrange(3, chars@.len() as int) =~= package@.skip(3));
    let rest = text_of(chars.as_slice(), 3, chars.len());
    let rest = leading_stripped(rest.as_str(), ',');
    let dims = if text_ends_with(rest.as_str(), "MM") {
        let chars = chars_of(rest.as_str());
        assert(rest@.subrange(0, rest@.len() - 2) =~= rest@.take(rest@.len() - 2));
        text_of(chars.as_slice(), 0, chars.len() - 2)
    } else {
        rest
    };
    cut_text(dims.as_str(), 'X')
}

pub fn normalize_package(value: &str) -> (r: Option<String>)
    ensures
        optional(r) == package_token(value@),
{
    let bare = trimmed(value);
    let compact = remove_char(bare.as_str(), ' ');
    let compact = replace_char(compact.as_str(), '\u{d7}', 'X');
    if compact.as_str().is_empty() {
        return None;
    }
    let package = uppercased(compact.as_str());
    if text_all_digits(package.as_str()) {
        return Some(package);
    }
    match smd_parts(package.as_str()) {
        Some((left, right)) => {
            let left = normalize_decimal_dimension(left.as_str());
            let right = normalize_decimal_dimension(right.as_str());
            match (left, right) {
                (Some(l), Some(r)) => {
                    let mut token = "SMD".to_owned();
                    token.append(l.as_str());
                    token.append("X");
                    token.append(r.as_str());
                    Some(token)
                },
                _ => None,
            }
        },
        None => normalize_freeform_token(package.as_str()),
    }
}

// Numbers and units

/// `value` without spaces and commas, with one spelling of the ohm sign, and
/// without a leading sign.
pub open spec fn number_text(value: Seq<char>) -> Seq<char> {
    let compact = with_char(without(without(trim(value), ' '), ','), '\u{2126}', '\u{3a9}');
    strip_leading(strip_leading(compact, '\u{b1}'), '+')
}

/// How many characters the number at the start of `text` has: digits with at
/// most one point, or none where a point was `seen`.
pub open spec fn number_len(text: Seq<char>, seen: bool) -> nat
    decreases text.len(),
{
    if text.len() == 0 {
        0
    } else if is_digit(text[0]) {
        1 + number_len(text.drop_first(), seen)
    } else if text[0] == '.' && !seen {
        1 + number_len(text.drop_first(), true)
    } else {
        0
    }
}

pub open spec fn has_digit(text: Seq<char>) -> bool {
    exists|i: int| 0 <= i < text.len() && is_digit(#[trigger] text[i])
}

/// The number that `value` starts with, and what follows it.
pub open spec fn number_and_suffix(value: Seq<char>) -> Option<(Seq<char>, Seq<char>)> {
    let text = number_text(value);
    let n = number_len(text, false) as int;
    if has_digit(text.take(n)) {
        Some((text.take(n), text.skip(n)))
    } else {
        None
    }
}

pub fn parse_number_and_suffix(value: &str) -> (r: Option<(String, String)>)
    ensures
        match r {
            Some((number, suffix)) => number_and_suffix(value@) == Some((number@, suffix@)),
            None => number_and_suffix(value@) is None,
        },
{
    let text = trimmed(value);
    let text = remove_char(text.as_str(), ' ');
    let text = remove_char(text.as_str(), ',');
    let text = replace_char(text.as_str(), '\u{2126}', '\u{3a9}');
    let text = leading_stripped(text.as_str(), '\u{b1}');
    let text = leading_stripped(text.as_str(), '+');
    let chars = chars_of(text.as_str());
    let mut seen_digit = false;
    let mut seen_dot = false;
    let mut end: usize = 0;
    assert(chars@.skip(0) =~= chars@);
    while end < chars.len() && (char_is_digit(chars[end]) || (chars[end] == '.' && !seen_dot))
        invariant
            end <= chars@.len(),
            end + number_len(chars@.skip(end as int), seen_dot) == number_len(chars@, false),
            seen_digit == has_digit(chars@.take(end as int)),
        decreases chars.len() - end,
    {
        let ghost before = chars@.take(end as int);
        let ghost next = chars@.take(end + 1);
        assert(chars@.skip(end as int).drop_first() =~= chars@.skip(end + 1));
        assert(next =~= before.push(chars@[end as int]));
        if char_is_digit(chars[end]) {
            assert(is_digit(next[end as int]));
            seen_digit = true;
        } else {
            seen_dot = true;
            assert(has_digit(next) == has_digit(before)) by {
                if has_digit(before) {
                    let i = choose|i: int| 0 <= i < before.len() && is_digit(#[trigger] before[i]);
                    assert(is_digit(next[i]));
                }
                if has_digit(next) {
                    let i = choose|i: int| 0 <= i < next.len() && is_digit(#[trigger] next[i]);
                    assert(is_digit(before[i]));
                }
            }
        }
        end += 1;
    }
    assert(chars@.subrange(0, end as int) =~= chars@.take(end as int));
    assert(chars@.subrange(end as int, chars@.len() as int) =~= chars@.skip(end as int));
    if seen_digit {
        Some((text_of(chars.as_slice(), 0, end), text_of(chars.as_slice(), end, chars.len())))
    } else {
        None
    }
}

/// A decimal text without the zeros at its end, as far as it has a point.
pub open spec fn without_zeros(text: Seq<char>) -> Seq<char>
    decreases text.len(),
{
    if text.contains('.') && text.last() == '0' {
        without_zeros(text.drop_last())
    } else {
        text
    }
}

/// A decimal text with `marker` in place of its point, or behind it where no
/// decimals are left.
pub open spec fn marked(text: Seq<char>, marker: Seq<char>) -> Seq<char> {
    let short = without_zeros(text);
    let short = if short.len() > 0 && short.last() == '.' {
        short.drop_last()
    } else {
        short
    };
    match cut(short, '.') {
        Some((whole, decimals)) => whole + marker + decimals,
        None => short + marker,
    }
}

/// The token for a decimal text and a unit.
pub fn format_marker_token(text: &str, marker: &str) -> (r: String)
    ensures
        r@ == marked(text@, marker@),
{
    let chars = chars_of(text);
    let point: usize = find_char(chars.as_slice(), '.');
    let mut len: usize = chars.len();
    proof {
        crate::text::lemma_find(chars@, '.');
        assert(chars@.take(len as int) =~= chars@);
    }
    while point < len && chars[len - 1] == '0'
        invariant
            len <= chars@.len(),
            point == crate::text::find(chars@, '.'),
            point < chars@.len() ==> point < len && chars@[point as int] == '.',
            forall|i: int| 0 <= i < point ==> chars@[i] != '.',
            without_zeros(chars@.take(len as int)) == without_zeros(chars@),
        decreases len,
    {
        let ghost now = chars@.take(len as int);
        assert(now[point as int] == '.');
        assert(now.contains('.'));
        assert(now.drop_last() =~= chars@.take(len - 1));
        len -= 1;
    }
    proof {
        let now = chars@.take(len as int);
        assert(without_zeros(now) == now) by {
            if now.contains('.') {
                let i = choose|i: int| 0 <= i < now.len() && now[i] == '.';
                assert(chars@[i] == '.');
            }
        }
    }
    if len > 0 && chars[len - 1] == '.' {
        assert(chars@.take(len as int).drop_last() =~= chars@.take(len - 1));
        len -= 1;
    }
    assert(chars@.subrange(0, len as int) =~= chars@.take(len as int));
    let short = text_of(chars.as_slice(), 0, len);
    match cut_text(short.as_str(), '.') {
        Some((whole, decimals)) => {
            let mut token = whole;
            token.append(marker);
            token.append(decimals.as_str());
            token
        },
        None => {
            let mut token = short;
            token.append(marker);
            token
        },
    }
}

/// The marker of the unit that applies.
pub open spec fn unit_marker(rule: Rule, unit: u8, marker: Seq<char>) -> Seq<char> {
    match rule {
        Rule::Resistance => if unit == 0 {
            "M"@
        } else if unit == 1 {
            "K"@
        } else {
            "R"@
        },
        Rule::Capacitance => if unit == 0 {
            "U"@
        } else if unit == 1 {
            "N"@
        } else {
            "P"@
        },
        Rule::Inductance => if unit == 0 {
            "U"@
        } else {
            "N"@
        },
        _ => marker,
    }
}

/// How a token comes about: at once, or from a measured quantity with a marker
/// for its unit and a tail.
pub enum Plan {
    Token(Option<String>),
    Measured(Quantity, &'static str, &'static str),
}

/// What a [`Plan`] holds.
pub enum PlanView {
    Token(Option<Seq<char>>),
    Measured(QuantityView, Seq<char>, Seq<char>),
}

impl View for Plan {
    type V = PlanView;

    open spec fn view(&self) -> PlanView {
        match self {
            Plan::Token(token) => PlanView::Token(optional(*token)),
            Plan::Measured(quantity, marker, tail) => PlanView::Measured(
                quantity@,
                marker@,
                tail@,
            ),
        }
    }
}

/// The token that a plan leads to.
pub open spec fn carried_out(plan: PlanView, table: Table) -> Option<Seq<char>> {
    match plan {
        PlanView::Token(token) => token,
        PlanView::Measured(quantity, marker, tail) => match reading_of(table, quantity) {
            Some(reading) => match reading.text {
                Some(text) => Some(
                    marked(text, unit_marker(quantity.rule, reading.unit, marker)) + tail,
                ),
                None => None,
            },
            None => None,
        },
    }
}

fn carry_out(plan: Plan, readings: &[(Quantity, Reading)]) -> (r: Option<String>)
    ensures
        optional(r) == carried_out(plan@, table_of(readings@)),
{
    match plan {
        Plan::Token(token) => token,
        Plan::Measured(quantity, marker, tail) => {
            let reading = match find_reading(
                readings,
                quantity.number.as_str(),
                quantity.scale,
                quantity.rule,
            ) {
                Some(reading) => reading,
                None => {
                    return None;
                },
            };
            let unit: u8 = reading.unit;
            let marker = match quantity.rule {
                Rule::Resistance => if unit == 0 {
                    "M"
                } else if unit == 1 {
                    "K"
                } else {
                    "R"
                },
                Rule::Capacitance => if unit == 0 {
                    "U"
                } else if unit == 1 {
                    "N"
                } else {
                    "P"
                },
                Rule::Inductance => if unit == 0 {
                    "U"
                } else {
                    "N"
                },
                Rule::Thousandths => marker,
                Rule::Plain => marker,
            };
            match &reading.text {
                Some(text) => {
                    let mut token = format_marker_token(text.as_str(), marker);
                    token.append(tail);
                    Some(token)
                },
                None => None,
            }
        },
    }
}

pub open spec fn measured(
    number: Seq<char>,
    scale: Scale,
    rule: Rule,
    marker: Seq<char>,
    tail: Seq<char>,
) -> PlanView {
    PlanView::Measured(QuantityView { number, scale, rule }, marker, tail)
}

fn plan_measured(
    number: String,
    scale: Scale,
    rule: Rule,
    marker: &'static str,
    tail: &'static str,
) -> (r: Plan)
    ensures
        r@ == measured(number@, scale, rule, marker@, tail@),
{
    Plan::Measured(Quantity { number, scale, rule }, marker, tail)
}

/// Whether `text` is made of letters, digits and underscores.
pub open spec fn is_word(text: Seq<char>) -> bool {
    forall|i: int| 0 <= i < text.len() ==> (is_alphanumeric(#[trigger] text[i]) || text[i] == '_')
}

fn text_is_word(text: &str) -> (r: bool)
    ensures
        r == is_word(text@),
{
    let chars = chars_of(text);
    let mut i: usize = 0;
    while i < chars.len()
        invariant
            i <= chars@.len(),
            chars@ == text@,
            forall|k: int|
                0 <= k < i ==> (is_alphanumeric(#[trigger] text@[k]) || text@[k] == '_'),
        decreases chars.len() - i,
    {
        if !crate::text::char_is_alphanumeric(chars[i]) && chars[i] != '_' {
            assert(!is_alphanumeric(text@[i as int]));
            return false;
        }
        i += 1;
    }
    true
}

/// Whether what follows a number means thousandths of an ohm.
pub open spec fn is_milliohm(suffix: Seq<char>) -> bool {
    starts_with_char(suffix, 'm') && (has_part(lower_text(suffix.skip(1)), "ohm"@)
        || suffix.contains('\u{3a9}') || suffix.contains('\u{2126}'))
}

/// Whether what follows a number means ohms, or nothing follows.
pub open spec fn is_ohm(suffix: Seq<char>) -> bool {
    suffix.len() == 0 || starts_with_char(suffix, 'R') || same_but_case(suffix, "OHM"@)
        || suffix.contains('\u{3a9}')
}

fn suffix_is_milliohm(suffix: &str) -> (r: bool)
    ensures
        r == is_milliohm(suffix@),
{
    if !text_starts_with_char(suffix, 'm') {
        return false;
    }
    let chars = chars_of(suffix);
    assert(chars@.subrange(1, chars@.len() as int) =~= suffix@.skip(1));
    let rest = text_of(chars.as_slice(), 1, chars.len());
    let rest = lowercased(rest.as_str());
    text_has_part(rest.as_str(), "ohm") || text_has_char(suffix, '\u{3a9}') || text_has_char(
        suffix,
        '\u{2126}',
    )
}

fn suffix_is_ohm(suffix: &str) -> (r: bool)
    ensures
        r == is_ohm(suffix@),
{
    suffix.is_empty() || text_starts_with_char(suffix, 'R') || same_text_but_case(suffix, "OHM")
        || text_has_char(suffix, '\u{3a9}')
}

/// How the token for a resistance comes about.
pub open spec fn resistance_plan(value: Seq<char>) -> PlanView {
    let prebuilt = upper_text(without(trim(value), ' '));
    if is_word(prebuilt) && (prebuilt.contains('R') || prebuilt.contains('K')
        || prebuilt.contains('M')) && !has_part(prebuilt, "OHM"@) {
        PlanView::Token(Some(prebuilt))
    } else {
        match number_and_suffix(value) {
            Some((number, suffix)) => if is_milliohm(suffix) {
                measured(number, Scale::Milli, Rule::Resistance, ""@, ""@)
            } else if starts_with_char(suffix, 'K') || starts_with_char(suffix, 'k') {
                measured(number, Scale::Kilo, Rule::Resistance, ""@, ""@)
            } else if starts_with_char(suffix, 'M') {
                measured(number, Scale::Mega, Rule::Resistance, ""@, ""@)
            } else if is_ohm(suffix) {
                measured(number, Scale::One, Rule::Resistance, ""@, ""@)
            } else {
                PlanView::Token(freeform(value))
            },
            None => PlanView::Token(None),
        }
    }
}

fn plan_resistance(value: &str) -> (r: Plan)
    ensures
        r@ == resistance_plan(value@),
{
    let bare = trimmed(value);
    let compact = remove_char(bare.as_str(), ' ');
    let prebuilt = uppercased(compact.as_str());
    let p = prebuilt.as_str();
    if text_is_word(p) && (text_has_char(p, 'R') || text_has_char(p, 'K') || text_has_char(p, 'M'))
        && !text_has_part(p, "OHM") {
        return Plan::Token(Some(prebuilt));
    }
    match parse_number_and_suffix(value) {
        Some((number, suffix)) => {
            let suffix = suffix.as_str();
            if suffix_is_milliohm(suffix) {
                plan_measured(number, Scale::Milli, Rule::Resistance, "", "")
            } else if text_starts_with_char(suffix, 'K') || text_starts_with_char(suffix, 'k') {
                plan_measured(number, Scale::Kilo, Rule::Resistance, "", "")
            } else if text_starts_with_char(suffix, 'M') {
                plan_measured(number, Scale::Mega, Rule::Resistance, "", "")
            } else if suffix_is_ohm(suffix) {
                plan_measured(number, Scale::One, Rule::Resistance, "", "")
            } else {
                Plan::Token(normalize_freeform_token(value))
            }
        },
        None => Plan::Token(None),
    }
}

pub fn normalize_resistance(value: &str, readings: &[(Quantity, Reading)]) -> (r: Option<String>)
    ensures
        optional(r) == carried_out(resistance_plan(value@), table_of(readings@)),
{
    carry_out(plan_resistance(value), readings)
}

/// `value` without spaces, with `u` for the micro sign.
pub open spec fn with_plain_micro(value: Seq<char>) -> Seq<char> {
    with_char(with_char(without(trim(value), ' '), '\u{b5}', 'u'), '\u{3bc}', 'u')
}

fn plain_micro(value: &str) -> (r: String)
    ensures
        r@ == with_plain_micro(value@),
{
    let bare = trimmed(value);
    let compact = remove_char(bare.as_str(), ' ');
    let compact = replace_char(compact.as_str(), '\u{b5}', 'u');
    replace_char(compact.as_str(), '\u{3bc}', 'u')
}

/// How the token for a capacitance comes about.
pub open spec fn capacitance_plan(value: Seq<char>) -> PlanView {
    let compact = with_plain_micro(value);
    let prebuilt = upper_text(compact);
    if is_word(prebuilt) && (prebuilt.contains('P') || prebuilt.contains('N')
        || prebuilt.contains('U')) && !prebuilt.contains('F') {
        PlanView::Token(Some(prebuilt))
    } else {
        match number_and_suffix(compact) {
            Some((number, suffix)) => if starts_with_char(suffix, 'p') || starts_with_char(
                suffix,
                'P',
            ) {
                measured(number, Scale::Pico, Rule::Capacitance, ""@, ""@)
            } else if starts_with_char(suffix, 'n') || starts_with_char(suffix, 'N') {
                measured(number, Scale::Nano, Rule::Capacitance, ""@, ""@)
            } else if starts_with_char(suffix, 'u') || starts_with_char(suffix, 'U') {
                measured(number, Scale::Micro, Rule::Capacitance, ""@, ""@)
            } else if starts_with_char(suffix, 'm') {
                measured(number, Scale::Milli, Rule::Capacitance, ""@, ""@)
            } else {
                PlanView::Token(freeform(value))
            },
            None => PlanView::Token(None),
        }
    }
}

fn plan_capacitance(value: &str) -> (r: Plan)
    ensures
        r@ == capacitance_plan(value@),
{
    let compact = plain_micro(value);
    let prebuilt = uppercased(compact.as_str());
    let p = prebuilt.as_str();
    if text_is_word(p) && (text_has_char(p, 'P') || text_has_char(p, 'N') || text_has_char(p, 'U'))
        && !text_has_char(p, 'F') {
        return Plan::Token(Some(prebuilt));
    }
    match parse_number_and_suffix(compact.as_str()) {
        Some((number, suffix)) => {
            let suffix = suffix.as_str();
            if text_starts_with_char(suffix, 'p') || text_starts_with_char(suffix, 'P') {
                plan_measured(number, Scale::Pico, Rule::Capacitance, "", "")
            } else if text_starts_with_char(suffix, 'n') || text_starts_with_char(suffix, 'N') {
                plan_measured(number, Scale::Nano, Rule::Capacitance, "", "")
            } else if text_starts_with_char(suffix, 'u') || text_starts_with_char(suffix, 'U') {
                plan_measured(number, Scale::Micro, Rule::Capacitance, "", "")
            } else if text_starts_with_char(suffix, 'm') {
                plan_measured(number, Scale::Milli, Rule::Capacitance, "", "")
            } else {
                Plan::Token(normalize_freeform_token(value))
            }
        },
        None => Plan::Token(None),
    }
}

pub fn normalize_capacitance(value: &str, readings: &[(Quantity, Reading)]) -> (r: Option<String>)
    ensures
        optional(r) == carried_out(capacitance_plan(value@), table_of(readings@)),
{
    carry_out(plan_capacitance(value), readings)
}

/// How the token for an inductance comes about.
pub open spec fn inductance_plan(value: Seq<char>) -> PlanView {
    let compact = with_plain_micro(value);
    let prebuilt = upper_text(compact);
    if is_word(prebuilt) && (prebuilt.contains('N') || prebuilt.contains('U'))
        && !prebuilt.contains('H') {
        PlanView::Token(Some(prebuilt))
    } else {
        match number_and_suffix(compact) {
            Some((number, suffix)) => if starts_with_char(suffix, 'n') || starts_with_char(
                suffix,
                'N',
            ) {
                measured(number, Scale::Nano, Rule::Inductance, ""@, ""@)
            } else if starts_with_char(suffix, 'u') || starts_with_char(suffix, 'U') {
                measured(number, Scale::Micro, Rule::Inductance, ""@, ""@)
            } else if starts_with_char(suffix, 'm') || starts_with_char(suffix, 'M') {
                measured(number, Scale::Milli, Rule::Inductance, ""@, ""@)
            } else {
                PlanView::Token(freeform(value))
            },
            None => PlanView::Token(None),
        }
    }
}

fn plan_inductance(value: &str) -> (r: Plan)
    ensures
        r@ == inductance_plan(value@),
{
    let compact = plain_micro(value);
    let prebuilt = uppercased(compact.as_str());
    let p = prebuilt.as_str();
    if text_is_word(p) && (text_has_char(p, 'N') || text_has_char(p, 'U')) && !text_has_char(
        p,
        'H',
    ) {
        return Plan::Token(Some(prebuilt));
    }
    match parse_number_and_suffix(compact.as_str()) {
        Some((number, suffix)) => {
            let suffix = suffix.as_str();
            if text_starts_with_char(suffix, 'n') || text_starts_with_char(suffix, 'N') {
                plan_measured(number, Scale::Nano, Rule::Inductance, "", "")
            } else if text_starts_with_char(suffix, 'u') || text_starts_with_char(suffix, 'U') {
                plan_measured(number, Scale::Micro, Rule::Inductance, "", "")
            } else if text_starts_with_char(suffix, 'm') || text_starts_with_char(suffix, 'M') {
                plan_measured(number, Scale::Milli, Rule::Inductance, "", "")
            } else {
                Plan::Token(normalize_freeform_token(value))
            }
        },
        None => Plan::Token(None),
    }
}

pub fn normalize_inductance(value: &str, readings: &[(Quantity, Reading)]) -> (r: Option<String>)
    ensures
        optional(r) == carried_out(inductance_plan(value@), table_of(readings@)),
{
    carry_out(plan_inductance(value), readings)
}

/// A number as it is, with a marker and a tail.
pub open spec fn plain(number: Seq<char>, marker: Seq<char>, tail: Seq<char>) -> PlanView {
    measured(number, Scale::One, Rule::Plain, marker, tail)
}

fn plan_plain(number: String, marker: &'static str, tail: &'static str) -> (r: Plan)
    ensures
        r@ == plain(number@, marker@, tail@),
{
    plan_measured(number, Scale::One, Rule::Plain, marker, tail)
}

/// How the token for a voltage comes about.
pub open spec fn voltage_plan(value: Seq<char>) -> PlanView {
    match number_and_suffix(value) {
        Some((number, suffix)) => if suffix.len() == 0 || same_but_case(suffix, "V"@) {
            plain(number, "V"@, ""@)
        } else {
            PlanView::Token(freeform(value))
        },
        None => PlanView::Token(None),
    }
}

fn plan_voltage(value: &str) -> (r: Plan)
    ensures
        r@ == voltage_plan(value@),
{
    match parse_number_and_suffix(value) {
        Some((number, suffix)) => if suffix.as_str().is_empty() || same_text_but_case(
            suffix.as_str(),
            "V",
        ) {
            plan_plain(number, "V", "")
        } else {
            Plan::Token(normalize_freeform_token(value))
        },
        None => Plan::Token(None),
    }
}

pub fn normalize_voltage(value: &str, readings: &[(Quantity, Reading)]) -> (r: Option<String>)
    ensures
        optional(r) == carried_out(voltage_plan(value@), table_of(readings@)),
{
    carry_out(plan_voltage(value), readings)
}

/// How the token for a tolerance comes about.
pub open spec fn tolerance_plan(value: Seq<char>) -> PlanView {
    match number_and_suffix(value) {
        Some((number, suffix)) => if suffix.contains('%') || suffix.len() == 0 {
            plain(number, "P"@, ""@)
        } else {
            PlanView::Token(freeform(value))
        },
        None => PlanView::Token(None),
    }
}

fn plan_tolerance(value: &str) -> (r: Plan)
    ensures
        r@ == tolerance_plan(value@),
{
    match parse_number_and_suffix(value) {
        Some((number, suffix)) => if text_has_char(suffix.as_str(), '%')
            || suffix.as_str().is_empty() {
            plan_plain(number, "P", "")
        } else {
            Plan::Token(normalize_freeform_token(value))
        },
        None => Plan::Token(None),
    }
}

pub fn normalize_tolerance(value: &str, readings: &[(Quantity, Reading)]) -> (r: Option<String>)
    ensures
        optional(r) == carried_out(tolerance_plan(value@), table_of(readings@)),
{
    carry_out(plan_tolerance(value), readings)
}

/// How the token for a power comes about.
pub open spec fn power_plan(value: Seq<char>) -> PlanView {
    match number_and_suffix(value) {
        Some((number, suffix)) => if starts_with_char(suffix, 'm') || starts_with_char(
            suffix,
            'M',
        ) {
            plain(number, "M"@, "W"@)
        } else if suffix.len() == 0 || same_but_case(suffix, "W"@) {
            plain(number, "W"@, ""@)
        } else {
            PlanView::Token(freeform(value))
        },
        None => PlanView::Token(None),
    }
}

fn plan_power(value: &str) -> (r: Plan)
    ensures
        r@ == power_plan(value@),
{
    match parse_number_and_suffix(value) {
        Some((number, suffix)) => {
            let suffix = suffix.as_str();
            if text_starts_with_char(suffix, 'm') || text_starts_with_char(suffix, 'M') {
                plan_plain(number, "M", "W")
            } else if suffix.is_empty() || same_text_but_case(suffix, "W") {
                plan_plain(number, "W", "")
            } else {
                Plan::Token(normalize_freeform_token(value))
            }
        },
        None => Plan::Token(None),
    }
}

pub fn normalize_power(value: &str, readings: &[(Quantity, Reading)]) -> (r: Option<String>)
    ensures
        optional(r) == carried_out(power_plan(value@), table_of(readings@)),
{
    carry_out(plan_power(value), readings)
}

/// How the token for a current comes about.
pub open spec fn current_plan(value: Seq<char>) -> PlanView {
    match number_and_suffix(value) {
        Some((number, suffix)) => if starts_with_char(suffix, 'm') {
            plain(number, "M"@, "A"@)
        } else if suffix.len() == 0 || same_but_case(suffix, "A"@) {
            plain(number, "A"@, ""@)
        } else {
            PlanView::Token(freeform(value))
        },
        None => PlanView::Token(None),
    }
}

fn plan_current(value: &str) -> (r: Plan)
    ensures
        r@ == current_plan(value@),
{
    match parse_number_and_suffix(value) {
        Some((number, suffix)) => {
            let suffix = suffix.as_str();
            if text_starts_with_char(suffix, 'm') {
                plan_plain(number, "M", "A")
            } else if suffix.is_empty() || same_text_but_case(suffix, "A") {
                plan_plain(number, "A", "")
            } else {
                Plan::Token(normalize_freeform_token(value))
            }
        },
        None => Plan::Token(None),
    }
}

pub fn normalize_current(value: &str, readings: &[(Quantity, Reading)]) -> (r: Option<String>)
    ensures
        optional(r) == carried_out(current_plan(value@), table_of(readings@)),
{
    carry_out(plan_current(value), readings)
}

/// How a series resistance is put into thousandths of an ohm.
pub open spec fn milliohm_plan(value: Seq<char>) -> PlanView {
    match number_and_suffix(value) {
        Some((number, suffix)) => if is_milliohm(suffix) {
            measured(number, Scale::Milli, Rule::Thousandths, "M"@, "OR"@)
        } else if is_ohm(suffix) {
            measured(number, Scale::One, Rule::Thousandths, "M"@, "OR"@)
        } else {
            PlanView::Token(None)
        },
        None => PlanView::Token(None),
    }
}

fn plan_milliohm(value: &str) -> (r: Plan)
    ensures
        r@ == milliohm_plan(value@),
{
    match parse_number_and_suffix(value) {
        Some((number, suffix)) => {
            let suffix = suffix.as_str();
            if suffix_is_milliohm(suffix) {
                plan_measured(number, Scale::Milli, Rule::Thousandths, "M", "OR")
            } else if suffix_is_ohm(suffix) {
                plan_measured(number, Scale::One, Rule::Thousandths, "M", "OR")
            } else {
                Plan::Token(None)
            }
        },
        None => Plan::Token(None),
    }
}

/// The token for a series resistance: in thousandths of an ohm, unless its
/// token as a resistance speaks of thousands or millions.
pub open spec fn dcr_token(value: Seq<char>, table: Table) -> Option<Seq<char>> {
    match carried_out(resistance_plan(value), table) {
        Some(token) => if token.contains('K') || token.contains('M') {
            None
        } else {
            carried_out(milliohm_plan(value), table)
        },
        None => None,
    }
}

pub fn normalize_dcr(value: &str, readings: &[(Quantity, Reading)]) -> (r: Option<String>)
    ensures
        optional(r) == dcr_token(value@, table_of(readings@)),
{
    match normalize_resistance(value, readings) {
        Some(token) => if text_has_char(token.as_str(), 'K') || text_has_char(
            token.as_str(),
            'M',
        ) {
            None
        } else {
            carry_out(plan_milliohm(value), readings)
        },
        None => None,
    }
}

/// How the token for a frequency comes about.
pub open spec fn frequency_plan(value: Seq<char>) -> PlanView {
    match number_and_suffix(value) {
        Some((number, suffix)) => if starts_with_char(suffix, 'G') || starts_with_char(
            suffix,
            'g',
        ) {
            plain(number, "G"@, "HZ"@)
        } else if starts_with_char(suffix, 'M') {
            plain(number, "M"@, "HZ"@)
        } else if starts_with_char(suffix, 'K') || starts_with_char(suffix, 'k') {
            plain(number, "K"@, "HZ"@)
        } else if same_but_case(suffix, "HZ"@) || suffix.len() == 0 {
            plain(number, ""@, "HZ"@)
        } else {
            PlanView::Token(freeform(value))
        },
        None => PlanView::Token(None),
    }
}

fn plan_frequency(value: &str) -> (r: Plan)
    ensures
        r@ == frequency_plan(value@),
{
    match parse_number_and_suffix(value) {
        Some((number, suffix)) => {
            let suffix = suffix.as_str();
            if text_starts_with_char(suffix, 'G') || text_starts_with_char(suffix, 'g') {
                plan_plain(number, "G", "HZ")
            } else if text_starts_with_char(suffix, 'M') {
                plan_plain(number, "M", "HZ")
            } else if text_starts_with_char(suffix, 'K') || text_starts_with_char(suffix, 'k') {
                plan_plain(number, "K", "HZ")
            } else if same_text_but_case(suffix, "HZ") || suffix.is_empty() {
                plan_plain(number, "", "HZ")
            } else {
                Plan::Token(normalize_freeform_token(value))
            }
        },
        None => Plan::Token(None),
    }
}

pub fn normalize_frequency(value: &str, readings: &[(Quantity, Reading)]) -> (r: Option<String>)
    ensures
        optional(r) == carried_out(frequency_plan(value@), table_of(readings@)),
{
    carry_out(plan_frequency(value), readings)
}

pub fn normalize_dielectric(value: &str) -> (r: Option<String>)
    ensures
        optional(r) == freeform(value@),
{
    normalize_freeform_token(value)
}

// Whole names

/// The word for the construction that a text in small letters speaks of.
pub open spec fn construction(small: Seq<char>) -> Option<Seq<char>> {
    if has_part(small, "unshielded"@) {
        Some("UNSHIELDED"@)
    } else if has_part(small, "shielded"@) {
        Some("SHIELDED"@)
    } else if has_part(small, "molded"@) {
        Some("MOLDED"@)
    } else {
        None
    }
}

fn construction_word(small: &str) -> (r: Option<String>)
    ensures
        optional(r) == construction(small@),
{
    if text_has_part(small, "unshielded") {
        Some("UNSHIELDED".to_owned())
    } else if text_has_part(small, "shielded") {
        Some("SHIELDED".to_owned())
    } else if text_has_part(small, "molded") {
        Some("MOLDED".to_owned())
    } else {
        None
    }
}

/// The construction that the first parameter to speak of one gives.
pub open spec fn construction_in(parameters: Seq<(Seq<char>, Seq<char>)>) -> Option<Seq<char>>
    decreases parameters.len(),
{
    if parameters.len() == 0 {
        None
    } else {
        match construction(lower_text(parameters[0].0 + " "@ + parameters[0].1)) {
            Some(word) => Some(word),
            None => construction_in(parameters.drop_first()),
        }
    }
}

/// The token for the type of an inductor.
pub open spec fn inductor_type(parameters: Seq<(Seq<char>, Seq<char>)>) -> Option<Seq<char>> {
    match param_named(parameters, seq!["type"@, "construction"@]) {
        Some(raw) => match construction(lower_text(raw)) {
            Some(word) => Some(word),
            None => match freeform(raw) {
                Some(token) => Some(token),
                None => construction_in(parameters),
            },
        },
        None => construction_in(parameters),
    }
}

pub fn normalize_inductor_type(parameters: &[SchlibParameter]) -> (r: Option<String>)
    ensures
        optional(r) == inductor_type(param_views(parameters@)),
{
    let keywords: [&str; 2] = ["type", "construction"];
    assert(words(keywords@) =~= seq!["type"@, "construction"@]);
    if let Some(raw) = find_param(parameters, &keywords) {
        let small = lowercased(raw);
        if let Some(word) = construction_word(small.as_str()) {
            return Some(word);
        }
        if let Some(token) = normalize_freeform_token(raw) {
            return Some(token);
        }
    }
    let ghost all = param_views(parameters@);
    let mut i: usize = 0;
    assert(all.skip(0) =~= all);
    while i < parameters.len()
        invariant
            i <= parameters@.len(),
            all == param_views(parameters@),
            inductor_type(all) == construction_in(all),
            construction_in(all.skip(i as int)) == construction_in(all),
        decreases parameters.len() - i,
    {
        assert(all.skip(i as int)[0] == (parameters@[i as int].name@, parameters@[i as int].value@));
        assert(all.skip(i as int).drop_first() =~= all.skip(i + 1));
        let mut both = parameters[i].name.clone();
        both.append(" ");
        both.append(parameters[i].value.as_str());
        let small = lowercased(both.as_str());
        if let Some(word) = construction_word(small.as_str()) {
            return Some(word);
        }
        i += 1;
    }
    None
}

/// The part of `text` before the first `@`, or all of it.
pub open spec fn before_at(text: Seq<char>) -> Seq<char> {
    match cut(text, '@') {
        Some((left, _)) => left,
        None => text,
    }
}

/// How the impedance of a ferrite bead comes about.
pub open spec fn impedance_plan(parameters: Seq<(Seq<char>, Seq<char>)>) -> PlanView {
    match param_named(parameters, seq!["impedance"@]) {
        Some(raw) => resistance_plan(before_at(raw)),
        None => PlanView::Token(None),
    }
}

fn plan_impedance(parameters: &[SchlibParameter]) -> (r: Plan)
    ensures
        r@ == impedance_plan(param_views(parameters@)),
{
    let keywords: [&str; 1] = ["impedance"];
    assert(words(keywords@) =~= seq!["impedance"@]);
    match find_param(parameters, &keywords) {
        Some(raw) => match cut_text(raw, '@') {
            Some((left, _)) => plan_resistance(left.as_str()),
            None => plan_resistance(raw),
        },
        None => Plan::Token(None),
    }
}

pub fn normalize_fb_impedance(parameters: &[SchlibParameter], readings: &[(Quantity, Reading)]) -> (r:
    Option<String>)
    ensures
        optional(r) == carried_out(
            impedance_plan(param_views(parameters@)),
            table_of(readings@),
        ),
{
    carry_out(plan_impedance(parameters), readings)
}

/// How the frequency of a ferrite bead comes about: from its own parameter, or
/// from what stands behind `@` in the impedance.
pub open spec fn bead_frequency_plan(parameters: Seq<(Seq<char>, Seq<char>)>) -> PlanView {
    match param_named(parameters, seq!["frequency"@]) {
        Some(raw) => frequency_plan(raw),
        None => match param_named(parameters, seq!["impedance"@]) {
            Some(raw) => match cut(raw, '@') {
                Some((_, right)) => frequency_plan(right),
                None => PlanView::Token(None),
            },
            None => PlanView::Token(None),
        },
    }
}

fn plan_bead_frequency(parameters: &[SchlibParameter]) -> (r: Plan)
    ensures
        r@ == bead_frequency_plan(param_views(parameters@)),
{
    let keywords: [&str; 1] = ["frequency"];
    assert(words(keywords@) =~= seq!["frequency"@]);
    if let Some(raw) = find_param(parameters, &keywords) {
        return plan_frequency(raw);
    }
    let keywords: [&str; 1] = ["impedance"];
    assert(words(keywords@) =~= seq!["impedance"@]);
    match find_param(parameters, &keywords) {
        Some(raw) => match cut_text(raw, '@') {
            Some((_, right)) => plan_frequency(right.as_str()),
            None => Plan::Token(None),
        },
        None => Plan::Token(None),
    }
}

pub fn normalize_fb_frequency(parameters: &[SchlibParameter], readings: &[(Quantity, Reading)]) -> (r:
    Option<String>)
    ensures
        optional(r) == carried_out(
            bead_frequency_plan(param_views(parameters@)),
            table_of(readings@),
        ),
{
    carry_out(plan_bead_frequency(parameters), readings)
}

/// The views of a sequence of optional tokens.
pub open spec fn token_views(tokens: Seq<Option<String>>) -> Seq<Option<Seq<char>>> {
    tokens.map_values(|t: Option<String>| optional(t))
}

/// The tokens that are there and not blank, each with an underscore in front.
pub open spec fn joined_tokens(tokens: Seq<Option<Seq<char>>>) -> Seq<char>
    decreases tokens.len(),
{
    if tokens.len() == 0 {
        Seq::empty()
    } else {
        let before = joined_tokens(tokens.drop_last());
        match tokens.last() {
            Some(token) => if trim(token).len() > 0 {
                before + "_"@ + token
            } else {
                before
            },
            None => before,
        }
    }
}

/// The name that tokens make: the prefix, the tokens and the part number with
/// underscores between them. There is none without a part number or a token.
pub open spec fn name_of_tokens(
    kind: PassiveKind,
    tokens: Seq<Option<Seq<char>>>,
    id: Option<Seq<char>>,
) -> Option<Seq<char>> {
    let number = match id {
        Some(value) => lcsc_id(value),
        None => None,
    };
    match number {
        Some(number) => if joined_tokens(tokens).len() > 0 {
            Some(kind_prefix(kind) + joined_tokens(tokens) + "_"@ + number)
        } else {
            None
        },
        None => None,
    }
}

pub fn build_name_from_tokens(kind: PassiveKind, tokens: Vec<Option<String>>, id: Option<&str>) -> (r:
    Option<String>)
    ensures
        optional(r) == name_of_tokens(kind, token_views(tokens@), seen(id)),
{
    let number = match normalize_lcsc_token(id) {
        Some(number) => number,
        None => {
            return None;
        },
    };
    let ghost all = token_views(tokens@);
    let prefix = kind.prefix();
    let mut name = prefix.to_owned();
    let mut parts: bool = false;
    let mut i: usize = 0;
    assert(all.take(0) =~= Seq::<Option<Seq<char>>>::empty());
    assert(name@ =~= prefix@ + joined_tokens(all.take(0)));
    proof {
        reveal_strlit("_");
    }
    while i < tokens.len()
        invariant
            i <= tokens@.len(),
            all == token_views(tokens@),
            "_"@.len() == 1,
            name@ == prefix@ + joined_tokens(all.take(i as int)),
            parts == (joined_tokens(all.take(i as int)).len() > 0),
        decreases tokens.len() - i,
    {
        let ghost before = name@;
        proof {
            assert(all.take(i + 1).drop_last() =~= all.take(i as int));
            assert(all.take(i + 1).last() == optional(tokens@[i as int]));
        }
        if let Some(token) = &tokens[i] {
            let bare = trimmed(token.as_str());
            if !bare.as_str().is_empty() {
                name.append("_");
                name.append(token.as_str());
                parts = true;
                assert(name@ =~= prefix@ + joined_tokens(all.take(i + 1)));
            }
        }
        i += 1;
    }
    assert(all.take(i as int) =~= all);
    if !parts {
        return None;
    }
    name.append("_");
    name.append(number.as_str());
    Some(name)
}

/// How a token comes about from the first parameter that one of `keywords` names.
pub open spec fn plan_for(
    parameters: Seq<(Seq<char>, Seq<char>)>,
    keywords: Seq<Seq<char>>,
    plan: spec_fn(Seq<char>) -> PlanView,
) -> PlanView {
    match param_named(parameters, keywords) {
        Some(value) => plan(value),
        None => PlanView::Token(None),
    }
}

/// The tokens of a component, in the order of its kind.
pub open spec fn tokens_of(
    kind: PassiveKind,
    parameters: Seq<(Seq<char>, Seq<char>)>,
    table: Table,
) -> Seq<Option<Seq<char>>> {
    let package = match param_named(parameters, seq!["package"@, "case"@]) {
        Some(value) => package_token(value),
        None => None,
    };
    let tolerance = plan_for(parameters, seq!["tolerance"@], |v: Seq<char>| tolerance_plan(v));
    let current = plan_for(parameters, seq!["current"@], |v: Seq<char>| current_plan(v));
    match kind {
        PassiveKind::Res => seq![
            carried_out(
                plan_for(parameters, seq!["resistance"@], |v: Seq<char>| resistance_plan(v)),
                table,
            ),
            package,
            carried_out(tolerance, table),
            carried_out(
                plan_for(parameters, seq!["power"@], |v: Seq<char>| power_plan(v)),
                table,
            ),
        ],
        PassiveKind::Cap => seq![
            carried_out(
                plan_for(parameters, seq!["capacitance"@], |v: Seq<char>| capacitance_plan(v)),
                table,
            ),
            package,
            carried_out(
                plan_for(parameters, seq!["voltage"@], |v: Seq<char>| voltage_plan(v)),
                table,
            ),
            match param_named(parameters, seq!["dielectric"@, "temperature characteristic"@]) {
                Some(value) => freeform(value),
                None => None,
            },
            carried_out(tolerance, table),
        ],
        PassiveKind::Ind => seq![
            carried_out(
                plan_for(parameters, seq!["inductance"@], |v: Seq<char>| inductance_plan(v)),
                table,
            ),
            package,
            carried_out(current, table),
            match param_named(parameters, seq!["dcr"@, "dc resistance"@]) {
                Some(value) => dcr_token(value, table),
                None => None,
            },
            inductor_type(parameters),
        ],
        PassiveKind::Fb => seq![
            carried_out(impedance_plan(parameters), table),
            carried_out(bead_frequency_plan(parameters), table),
            package,
            carried_out(current, table),
        ],
    }
}

/// Whether `name` is made of capitals, digits, underscores and dashes.
pub open spec fn is_portable(name: Seq<char>) -> bool {
    forall|i: int|
        0 <= i < name.len() ==> (is_upper(#[trigger] name[i]) || is_digit(name[i]) || name[i] == '_'
            || name[i] == '-')
}

/// The name of a passive component, where its ratings make one of plain characters.
pub open spec fn passive_name(
    designator: Seq<char>,
    parameters: Seq<(Seq<char>, Seq<char>)>,
    id: Option<Seq<char>>,
    table: Table,
) -> Option<Seq<char>> {
    match kind_of(designator, parameters) {
        Some(kind) => match name_of_tokens(kind, tokens_of(kind, parameters, table), id) {
            Some(name) => if is_portable(name) {
                Some(name)
            } else {
                None
            },
            None => None,
        },
        None => None,
    }
}

fn text_is_portable(text: &str) -> (r: bool)
    ensures
        r == is_portable(text@),
{
    let chars = chars_of(text);
    let mut i: usize = 0;
    while i < chars.len()
        invariant
            i <= chars@.len(),
            chars@ == text@,
            forall|k: int|
                0 <= k < i ==> (is_upper(#[trigger] text@[k]) || is_digit(text@[k]) || text@[k]
                    == '_' || text@[k] == '-'),
        decreases chars.len() - i,
    {
        let c = chars[i];
        if !(('A' <= c && c <= 'Z') || ('0' <= c && c <= '9') || c == '_' || c == '-') {
            assert(text@[i as int] == c);
            return false;
        }
        i += 1;
    }
    true
}

fn package_of(parameters: &[SchlibParameter]) -> (r: Option<String>)
    ensures
        optional(r) == match param_named(
            param_views(parameters@),
            seq!["package"@, "case"@],
        ) {
            Some(value) => package_token(value),
            None => None,
        },
{
    let keywords: [&str; 2] = ["package", "case"];
    assert(words(keywords@) =~= seq!["package"@, "case"@]);
    match find_param(parameters, &keywords) {
        Some(value) => normalize_package(value),
        None => None,
    }
}

fn plan_tolerance_of(parameters: &[SchlibParameter]) -> (r: Plan)
    ensures
        r@ == plan_for(
            param_views(parameters@),
            seq!["tolerance"@],
            |v: Seq<char>| tolerance_plan(v),
        ),
{
    let keywords: [&str; 1] = ["tolerance"];
    assert(words(keywords@) =~= seq!["tolerance"@]);
    match find_param(parameters, &keywords) {
        Some(value) => plan_tolerance(value),
        None => Plan::Token(None),
    }
}

fn plan_current_of(parameters: &[SchlibParameter]) -> (r: Plan)
    ensures
        r@ == plan_for(
            param_views(parameters@),
            seq!["current"@],
            |v: Seq<char>| current_plan(v),
        ),
{
    let keywords: [&str; 1] = ["current"];
    assert(words(keywords@) =~= seq!["current"@]);
    match find_param(parameters, &keywords) {
        Some(value) => plan_current(value),
        None => Plan::Token(None),
    }
}

fn plan_resistance_of(parameters: &[SchlibParameter]) -> (r: Plan)
    ensures
        r@ == plan_for(
            param_views(parameters@),
            seq!["resistance"@],
            |v: Seq<char>| resistance_plan(v),
        ),
{
    let keywords: [&str; 1] = ["resistance"];
    assert(words(keywords@) =~= seq!["resistance"@]);
    match find_param(parameters, &keywords) {
        Some(value) => plan_resistance(value),
        None => Plan::Token(None),
    }
}

fn plan_power_of(parameters: &[SchlibParameter]) -> (r: Plan)
    ensures
        r@ == plan_for(
            param_views(parameters@),
            seq!["power"@],
            |v: Seq<char>| power_plan(v),
        ),
{
    let keywords: [&str; 1] = ["power"];
    assert(words(keywords@) =~= seq!["power"@]);
    match find_param(parameters, &keywords) {
        Some(value) => plan_power(value),
        None => Plan::Token(None),
    }
}

fn plan_capacitance_of(parameters: &[SchlibParameter]) -> (r: Plan)
    ensures
        r@ == plan_for(
            param_views(parameters@),
            seq!["capacitance"@],
            |v: Seq<char>| capacitance_plan(v),
        ),
{
    let keywords: [&str; 1] = ["capacitance"];
    assert(words(keywords@) =~= seq!["capacitance"@]);
    match find_param(parameters, &keywords) {
        Some(value) => plan_capacitance(value),
        None => Plan::Token(None),
    }
}

fn plan_voltage_of(parameters: &[SchlibParameter]) -> (r: Plan)
    ensures
        r@ == plan_for(
            param_views(parameters@),
            seq!["voltage"@],
            |v: Seq<char>| voltage_plan(v),
        ),
{
    let keywords: [&str; 1] = ["voltage"];
    assert(words(keywords@) =~= seq!["voltage"@]);
    match find_param(parameters, &keywords) {
        Some(value) => plan_voltage(value),
        None => Plan::Token(None),
    }
}

fn plan_inductance_of(parameters: &[SchlibParameter]) -> (r: Plan)
    ensures
        r@ == plan_for(
            param_views(parameters@),
            seq!["inductance"@],
            |v: Seq<char>| inductance_plan(v),
        ),
{
    let keywords: [&str; 1] = ["inductance"];
    assert(words(keywords@) =~= seq!["inductance"@]);
    match find_param(parameters, &keywords) {
        Some(value) => plan_inductance(value),
        None => Plan::Token(None),
    }
}

fn dielectric_of(parameters: &[SchlibParameter]) -> (r: Option<String>)
    ensures
        optional(r) == match param_named(
            param_views(parameters@),
            seq!["dielectric"@, "temperature characteristic"@],
        ) {
            Some(value) => freeform(value),
            None => None,
        },
{
    let keywords: [&str; 2] = ["dielectric", "temperature characteristic"];
    assert(words(keywords@) =~= seq!["dielectric"@, "temperature characteristic"@]);
    match find_param(parameters, &keywords) {
        Some(value) => normalize_dielectric(value),
        None => None,
    }
}

fn dcr_value_of(parameters: &[SchlibParameter]) -> (r: Option<&str>)
    ensures
        seen(r) == param_named(param_views(parameters@), seq!["dcr"@, "dc resistance"@]),
{
    let keywords: [&str; 2] = ["dcr", "dc resistance"];
    assert(words(keywords@) =~= seq!["dcr"@, "dc resistance"@]);
    find_param(parameters, &keywords)
}

fn component_tokens(
    kind: PassiveKind,
    parameters: &[SchlibParameter],
    readings: &[(Quantity, Reading)],
) -> (tokens: Vec<Option<String>>)
    ensures
        token_views(tokens@) == tokens_of(kind, param_views(parameters@), table_of(readings@)),
{
    let mut tokens: Vec<Option<String>> = Vec::new();
    match kind {
        PassiveKind::Res => {
            tokens.push(carry_out(plan_resistance_of(parameters), readings));
            tokens.push(package_of(parameters));
            tokens.push(carry_out(plan_tolerance_of(parameters), readings));
            tokens.push(carry_out(plan_power_of(parameters), readings));
        },
        PassiveKind::Cap => {
            tokens.push(carry_out(plan_capacitance_of(parameters), readings));
            tokens.push(package_of(parameters));
            tokens.push(carry_out(plan_voltage_of(parameters), readings));
            tokens.push(dielectric_of(parameters));
            tokens.push(carry_out(plan_tolerance_of(parameters), readings));
        },
        PassiveKind::Ind => {
            tokens.push(carry_out(plan_inductance_of(parameters), readings));
            tokens.push(package_of(parameters));
            tokens.push(carry_out(plan_current_of(parameters), readings));
            let dcr = match dcr_value_of(parameters) {
                Some(value) => normalize_dcr(value, readings),
                None => None,
            };
            tokens.push(dcr);
            tokens.push(normalize_inductor_type(parameters));
        },
        PassiveKind::Fb => {
            tokens.push(normalize_fb_impedance(parameters, readings));
            tokens.push(normalize_fb_frequency(parameters, readings));
            tokens.push(package_of(parameters));
            tokens.push(carry_out(plan_current_of(parameters), readings));
        },
    }
    assert(token_views(tokens@) =~= tokens_of(
        kind,
        param_views(parameters@),
        table_of(readings@),
    ));
    tokens
}

/// The name of a passive component: for example `RES_10K_0402_C25804`.
pub fn build_passive_component_name(
    designator: &str,
    parameters: &[SchlibParameter],
    id: Option<&str>,
    readings: &[(Quantity, Reading)],
) -> (r: Option<String>)
    ensures
        optional(r) == passive_name(
            designator@,
            param_views(parameters@),
            seen(id),
            table_of(readings@),
        ),
{
    let kind = match classify_passive_kind(designator, parameters) {
        Some(kind) => kind,
        None => {
            return None;
        },
    };
    let tokens = component_tokens(kind, parameters, readings);
    match build_name_from_tokens(kind, tokens, id) {
        Some(name) => if text_is_portable(name.as_str()) {
            Some(name)
        } else {
            None
        },
        None => None,
    }
}

/// The quantity that a plan measures, if it measures one.
pub open spec fn plan_quantities(plan: PlanView) -> Seq<QuantityView> {
    match plan {
        PlanView::Token(_) => Seq::empty(),
        PlanView::Measured(quantity, _, _) => seq![quantity],
    }
}

/// The quantities that the name of a component is made from.
pub open spec fn quantities_of(
    designator: Seq<char>,
    parameters: Seq<(Seq<char>, Seq<char>)>,
) -> Seq<QuantityView> {
    let tolerance = plan_for(parameters, seq!["tolerance"@], |v: Seq<char>| tolerance_plan(v));
    let current = plan_for(parameters, seq!["current"@], |v: Seq<char>| current_plan(v));
    match kind_of(designator, parameters) {
        Some(PassiveKind::Res) => plan_quantities(
            plan_for(parameters, seq!["resistance"@], |v: Seq<char>| resistance_plan(v)),
        ) + plan_quantities(tolerance) + plan_quantities(
            plan_for(parameters, seq!["power"@], |v: Seq<char>| power_plan(v)),
        ),
        Some(PassiveKind::Cap) => plan_quantities(
            plan_for(parameters, seq!["capacitance"@], |v: Seq<char>| capacitance_plan(v)),
        ) + plan_quantities(
            plan_for(parameters, seq!["voltage"@], |v: Seq<char>| voltage_plan(v)),
        ) + plan_quantities(tolerance),
        Some(PassiveKind::Ind) => plan_quantities(
            plan_for(parameters, seq!["inductance"@], |v: Seq<char>| inductance_plan(v)),
        ) + plan_quantities(current) + plan_quantities(
            plan_for(
                parameters,
                seq!["dcr"@, "dc resistance"@],
                |v: Seq<char>| resistance_plan(v),
            ),
        ) + plan_quantities(
            plan_for(
                parameters,
                seq!["dcr"@, "dc resistance"@],
                |v: Seq<char>| milliohm_plan(v),
            ),
        ),
        Some(PassiveKind::Fb) => plan_quantities(impedance_plan(parameters)) + plan_quantities(
            bead_frequency_plan(parameters),
        ) + plan_quantities(current),
        None => Seq::empty(),
    }
}

pub open spec fn quantity_views(quantities: Seq<Quantity>) -> Seq<QuantityView> {
    quantities.map_values(|q: Quantity| q@)
}

fn note_quantity(quantities: &mut Vec<Quantity>, plan: Plan)
    ensures
        quantity_views(final(quantities)@) == quantity_views(old(quantities)@) + plan_quantities(
            plan@,
        ),
{
    match plan {
        Plan::Token(_) => {
            assert(quantity_views(quantities@) =~= quantity_views(old(quantities)@)
                + plan_quantities(plan@));
        },
        Plan::Measured(quantity, _, _) => {
            quantities.push(quantity);
            assert(quantity_views(quantities@) =~= quantity_views(old(quantities)@)
                + plan_quantities(plan@));
        },
    }
}

/// The quantities that have to be measured before a component can be named.
pub fn passive_quantities(designator: &str, parameters: &[SchlibParameter]) -> (quantities: Vec<
    Quantity,
>)
    ensures
        quantity_views(quantities@) == quantities_of(designator@, param_views(parameters@)),
{
    let mut quantities: Vec<Quantity> = Vec::new();
    assert(quantity_views(quantities@) =~= Seq::<QuantityView>::empty());
    match classify_passive_kind(designator, parameters) {
        Some(PassiveKind::Res) => {
            note_quantity(&mut quantities, plan_resistance_of(parameters));
            note_quantity(&mut quantities, plan_tolerance_of(parameters));
            note_quantity(&mut quantities, plan_power_of(parameters));
        },
        Some(PassiveKind::Cap) => {
            note_quantity(&mut quantities, plan_capacitance_of(parameters));
            note_quantity(&mut quantities, plan_voltage_of(parameters));
            note_quantity(&mut quantities, plan_tolerance_of(parameters));
        },
        Some(PassiveKind::Ind) => {
            note_quantity(&mut quantities, plan_inductance_of(parameters));
            note_quantity(&mut quantities, plan_current_of(parameters));
            match dcr_value_of(parameters) {
                Some(value) => {
                    note_quantity(&mut quantities, plan_resistance(value));
                    note_quantity(&mut quantities, plan_milliohm(value));
                },
                None => {},
            }
        },
        Some(PassiveKind::Fb) => {
            note_quantity(&mut quantities, plan_impedance(parameters));
            note_quantity(&mut quantities, plan_bead_frequency(parameters));
            note_quantity(&mut quantities, plan_current_of(parameters));
        },
        None => {},
    }
    assert(quantity_views(quantities@) =~= quantities_of(designator@, param_views(parameters@)));
    quantities
}

/// Whether two tables have the same reading for each of `quantities`.
pub open spec fn agree_on(quantities: Seq<QuantityView>, a: Table, b: Table) -> bool {
    forall|i: int|
        0 <= i < quantities.len() ==> reading_of(a, #[trigger] quantities[i]) == reading_of(
            b,
            quantities[i],
        )
}

proof fn lemma_agree_concat(x: Seq<QuantityView>, y: Seq<QuantityView>, a: Table, b: Table)
    requires
        agree_on(x + y, a, b),
    ensures
        agree_on(x, a, b),
        agree_on(y, a, b),
{
    assert forall|i: int| 0 <= i < x.len() implies reading_of(a, #[trigger] x[i]) == reading_of(
        b,
        x[i],
    ) by {
        assert((x + y)[i] == x[i]);
    }
    assert forall|i: int| 0 <= i < y.len() implies reading_of(a, #[trigger] y[i]) == reading_of(
        b,
        y[i],
    ) by {
        assert((x + y)[x.len() + i] == y[i]);
    }
}

proof fn lemma_agree_plan(plan: PlanView, a: Table, b: Table)
    requires
        agree_on(plan_quantities(plan), a, b),
    ensures
        carried_out(plan, a) == carried_out(plan, b),
{
    if let PlanView::Measured(quantity, _, _) = plan {
        assert(plan_quantities(plan)[0] == quantity);
    }
}

/// The name of a component depends on the readings of the listed quantities alone.
pub proof fn law_listed_quantities_suffice(
    designator: Seq<char>,
    parameters: Seq<(Seq<char>, Seq<char>)>,
    id: Option<Seq<char>>,
    a: Table,
    b: Table,
)
    requires
        agree_on(quantities_of(designator, parameters), a, b),
    ensures
        passive_name(designator, parameters, id, a) == passive_name(designator, parameters, id, b),
{
    let tolerance = plan_for(parameters, seq!["tolerance"@], |v: Seq<char>| tolerance_plan(v));
    let current = plan_for(parameters, seq!["current"@], |v: Seq<char>| current_plan(v));
    match kind_of(designator, parameters) {
        Some(kind) => {
            match kind {
                PassiveKind::Res => {
                    let p = plan_for(
                        parameters,
                        seq!["resistance"@],
                        |v: Seq<char>| resistance_plan(v),
                    );
                    let q = plan_for(parameters, seq!["power"@], |v: Seq<char>| power_plan(v));
                    lemma_agree_concat(
                        plan_quantities(p) + plan_quantities(tolerance),
                        plan_quantities(q),
                        a,
                        b,
                    );
                    lemma_agree_concat(plan_quantities(p), plan_quantities(tolerance), a, b);
                    lemma_agree_plan(p, a, b);
                    lemma_agree_plan(tolerance, a, b);
                    lemma_agree_plan(q, a, b);
                },
                PassiveKind::Cap => {
                    let p = plan_for(
                        parameters,
                        seq!["capacitance"@],
                        |v: Seq<char>| capacitance_plan(v),
                    );
                    let q = plan_for(parameters, seq!["voltage"@], |v: Seq<char>| voltage_plan(v));
                    lemma_agree_concat(
                        plan_quantities(p) + plan_quantities(q),
                        plan_quantities(tolerance),
                        a,
                        b,
                    );
                    lemma_agree_concat(plan_quantities(p), plan_quantities(q), a, b);
                    lemma_agree_plan(p, a, b);
                    lemma_agree_plan(q, a, b);
                    lemma_agree_plan(tolerance, a, b);
                },
                PassiveKind::Ind => {
                    let p = plan_for(
                        parameters,
                        seq!["inductance"@],
                        |v: Seq<char>| inductance_plan(v),
                    );
                    let q = plan_for(
                        parameters,
                        seq!["dcr"@, "dc resistance"@],
                        |v: Seq<char>| resistance_plan(v),
                    );
                    let r = plan_for(
                        parameters,
                        seq!["dcr"@, "dc resistance"@],
                        |v: Seq<char>| milliohm_plan(v),
                    );
                    lemma_agree_concat(
                        plan_quantities(p) + plan_quantities(current) + plan_quantities(q),
                        plan_quantities(r),
                        a,
                        b,
                    );
                    lemma_agree_concat(
                        plan_quantities(p) + plan_quantities(current),
                        plan_quantities(q),
                        a,
                        b,
                    );
                    lemma_agree_concat(plan_quantities(p), plan_quantities(current), a, b);
                    lemma_agree_plan(p, a, b);
                    lemma_agree_plan(current, a, b);
                    lemma_agree_plan(q, a, b);
                    lemma_agree_plan(r, a, b);
                },
                PassiveKind::Fb => {
                    let p = impedance_plan(parameters);
                    let q = bead_frequency_plan(parameters);
                    lemma_agree_concat(
                        plan_quantities(p) + plan_quantities(q),
                        plan_quantities(current),
                        a,
                        b,
                    );
                    lemma_agree_concat(plan_quantities(p), plan_quantities(q), a, b);
                    lemma_agree_plan(p, a, b);
                    lemma_agree_plan(q, a, b);
                    lemma_agree_plan(current, a, b);
                },
            }
            assert(tokens_of(kind, parameters, a) =~= tokens_of(kind, parameters, b));
        },
        None => {},
    }
}

/// A name made of a prefix, what stands in its fields and a part number.
pub open spec fn framed(
    prefix: Seq<char>,
    fields: Seq<char>,
    number: Seq<char>,
) -> Seq<char> {
    prefix + "_"@ + fields + "_"@ + number
}

/// Tokens that are joined start with an underscore, and there is one behind it.
proof fn lemma_joined_tokens(tokens: Seq<Option<Seq<char>>>)
    ensures
        joined_tokens(tokens).len() > 0 ==> joined_tokens(tokens).len() > 1
            && joined_tokens(tokens)[0] == '_',
    decreases tokens.len(),
{
    reveal_strlit("_");
    if tokens.len() > 0 {
        let before = joined_tokens(tokens.drop_last());
        lemma_joined_tokens(tokens.drop_last());
        if let Some(token) = tokens.last() {
            if trim(token).len() > 0 {
                assert(token.len() > 0) by {
                    if token.len() == 0 {
                        assert(trim(token) == token);
                    }
                }
                assert((before + "_"@ + token)[0] == if before.len() > 0 {
                    before[0]
                } else {
                    '_'
                });
            }
        }
    }
}

/// A name that is given holds nothing but capitals, digits, underscores and
/// dashes. It is the kind's prefix, one field or more and a part number, with
/// underscores between them.
pub proof fn law_passive_names(
    designator: Seq<char>,
    parameters: Seq<(Seq<char>, Seq<char>)>,
    id: Option<Seq<char>>,
    table: Table,
)
    ensures
        passive_name(designator, parameters, id, table) matches Some(name) ==> {
            &&& is_portable(name)
            &&& kind_of(designator, parameters) matches Some(kind)
            &&& id matches Some(value)
            &&& lcsc_id(value) matches Some(number)
            &&& exists|fields: Seq<char>|
                fields.len() > 0 && name == #[trigger] framed(kind_prefix(kind), fields, number)
        },
{
    if let Some(name) = passive_name(designator, parameters, id, table) {
        let kind = kind_of(designator, parameters)->0;
        let number = lcsc_id(id->0)->0;
        let tokens = tokens_of(kind, parameters, table);
        let joined = joined_tokens(tokens);
        let fields = joined.skip(1);
        lemma_joined_tokens(tokens);
        reveal_strlit("_");
        assert("_"@ + fields =~= joined);
        assert(name =~= framed(kind_prefix(kind), fields, number));
    }
}

} // verus!
