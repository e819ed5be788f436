//! What the ratings of passive components become in their names, whatever the
//! ratings are.

use vstd::prelude::*;
use crate::passive_naming::{
    capacitance_plan, construction, current_plan, dimension, dimension_chars, freeform,
    frequency_plan, has_digit, inductance_plan, is_word, joined_tokens, marked, milliohm_plan,
    number_and_suffix, number_len, number_text, package_token, power_plan, resistance_plan,
    squeezed, tolerance_plan, unit_marker, voltage_plan, with_plain_micro, without_zeros,
    PlanView, Rule, Scale,
};
use crate::text::{
    all_digits, cut, has_part, is_alphanumeric, is_digit, lemma_find_is, lower_text,
    same_but_case, strip_leading, strip_trailing, trim, upper, upper_text, with_char, without,
};
use crate::text_laws::{is_bare, law_same_but_case, law_trim, law_without};

verus! {

// Numbers and what follows them

/// Whether a text is a number as a rating has it: digits, at least one.
pub open spec fn is_count(text: Seq<char>) -> bool {
    text.len() > 0 && all_digits(text)
}

/// Whether a text can follow a number as its unit: it starts with no digit and no
/// point, and holds neither white space nor commas nor a second form of the ohm sign.
pub open spec fn is_unit(text: Seq<char>) -> bool {
    &&& text.len() > 0 ==> !is_digit(text[0]) && text[0] != '.'
    &&& forall|i: int|
        0 <= i < text.len() ==> {
            let c = #[trigger] text[i];
            c != ' ' && c != ',' && c != '\u{2126}' && !crate::text::is_white(c)
        }
}

proof fn lemma_number_len(number: Seq<char>, unit: Seq<char>)
    requires
        all_digits(number),
        unit.len() > 0 ==> !is_digit(unit[0]) && unit[0] != '.',
    ensures
        number_len(number + unit, false) == number.len(),
    decreases number.len(),
{
    let whole = number + unit;
    if number.len() > 0 {
        assert(whole[0] == number[0]);
        assert(whole.drop_first() =~= number.drop_first() + unit);
        assert forall|i: int| 0 <= i < number.drop_first().len() implies is_digit(
            #[trigger] number.drop_first()[i],
        ) by {
            assert(number.drop_first()[i] == number[i + 1]);
        }
        lemma_number_len(number.drop_first(), unit);
    } else {
        assert(whole =~= unit);
    }
}

proof fn lemma_plain_text(number: Seq<char>, unit: Seq<char>)
    requires
        is_count(number),
        is_unit(unit),
    ensures
        trim(number + unit) == number + unit,
        without(number + unit, ' ') == number + unit,
        without(number + unit, ',') == number + unit,
        with_char(number + unit, '\u{2126}', '\u{3a9}') == number + unit,
        (number + unit).len() > 0,
        is_digit((number + unit)[0]),
{
    let whole = number + unit;
    let none = Seq::<char>::empty();
    assert forall|i: int| 0 <= i < whole.len() implies {
        let c = #[trigger] whole[i];
        c != ' ' && c != ',' && c != '\u{2126}' && !crate::text::is_white(c)
    } by {
        if i < number.len() {
            assert(whole[i] == number[i]);
            assert(is_digit(number[i]));
        } else {
            assert(whole[i] == unit[i - number.len()]);
        }
    }
    assert(!crate::text::is_white(whole[0]));
    assert(!crate::text::is_white(whole[whole.len() - 1]));
    law_trim(none, whole, none);
    assert(none + whole + none =~= whole);
    law_without(whole, none, ' ');
    law_without(whole, none, ',');
    assert(with_char(whole, '\u{2126}', '\u{3a9}') =~= whole);
    assert(whole[0] == number[0]);
}

/// A rating is parted into its number and its unit. A sign in front of the number
/// does not count, be it a plus or a plus and minus.
pub proof fn law_number_and_unit(number: Seq<char>, unit: Seq<char>)
    requires
        is_count(number),
        is_unit(unit),
    ensures
        number_and_suffix(number + unit) == Some((number, unit)),
        number_and_suffix(seq!['\u{b1}'] + (number + unit)) == Some((number, unit)),
        number_and_suffix(seq!['+'] + (number + unit)) == Some((number, unit)),
{
    let whole = number + unit;
    lemma_plain_text(number, unit);
    lemma_number_len(number, unit);
    assert(whole.take(number.len() as int) =~= number);
    assert(whole.skip(number.len() as int) =~= unit);
    assert(has_digit(number)) by {
        assert(is_digit(number[0]));
    }
    assert(number_text(whole) == whole);
    lemma_signed(number, unit, '\u{b1}');
    lemma_signed(number, unit, '+');
}

proof fn lemma_signed(number: Seq<char>, unit: Seq<char>, sign: char)
    requires
        is_count(number),
        is_unit(unit),
        sign == '\u{b1}' || sign == '+',
    ensures
        number_text(seq![sign] + (number + unit)) == number + unit,
{
    let whole = number + unit;
    let text = seq![sign] + whole;
    let none = Seq::<char>::empty();
    lemma_plain_text(number, unit);
    assert(text.last() == whole.last());
    assert(is_bare(whole)) by {
        crate::text_laws::law_trimmed_parts(whole);
    }
    law_trim(none, text, none);
    assert(none + text + none =~= text);
    law_without(seq![sign], whole, ' ');
    law_without(seq![sign], whole, ',');
    assert(!seq![sign].contains(' ') && !seq![sign].contains(','));
    law_without(seq![sign], none, ' ');
    law_without(seq![sign], none, ',');
    assert forall|i: int| 0 <= i < text.len() implies #[trigger] text[i] != '\u{2126}' by {
        if i > 0 {
            assert(with_char(whole, '\u{2126}', '\u{3a9}')[i - 1] == whole[i - 1]);
        }
    }
    assert(with_char(text, '\u{2126}', '\u{3a9}') =~= text);
    assert(text.drop_first() =~= whole);
    assert(strip_leading(whole, '\u{b1}') == whole);
    assert(strip_leading(whole, '+') == whole);
    assert(strip_leading(text, sign) == whole);
    if sign == '+' {
        assert(strip_leading(text, '\u{b1}') == text);
    }
}

// Ratings

/// Whether a rating is measured: its number, times a power of ten, is put into the
/// unit that a rule gives, with a mark in place of its point and an end behind it.
pub open spec fn is_measured(
    plan: PlanView,
    number: Seq<char>,
    scale: Scale,
    rule: Rule,
    mark: Seq<char>,
    end: Seq<char>,
) -> bool {
    plan matches PlanView::Measured(quantity, m, e) && quantity.number == number && quantity.scale
        == scale && quantity.rule == rule && m == mark && e == end
}

/// A resistance in ohms is measured as its prefix says: thousandths for `m`,
/// thousands for `k` in either case, millions for `M`, and ohms without one.
pub proof fn law_resistance(number: Seq<char>)
    requires
        is_count(number),
    ensures
        is_measured(
            resistance_plan(number + seq!['\u{3a9}']),
            number,
            Scale::One,
            Rule::Resistance,
            Seq::empty(),
            Seq::empty(),
        ),
        is_measured(
            resistance_plan(number + seq!['k', '\u{3a9}']),
            number,
            Scale::Kilo,
            Rule::Resistance,
            Seq::empty(),
            Seq::empty(),
        ),
        is_measured(
            resistance_plan(number + seq!['K', '\u{3a9}']),
            number,
            Scale::Kilo,
            Rule::Resistance,
            Seq::empty(),
            Seq::empty(),
        ),
        is_measured(
            resistance_plan(number + seq!['M', '\u{3a9}']),
            number,
            Scale::Mega,
            Rule::Resistance,
            Seq::empty(),
            Seq::empty(),
        ),
        is_measured(
            resistance_plan(number + seq!['m', '\u{3a9}']),
            number,
            Scale::Milli,
            Rule::Resistance,
            Seq::empty(),
            Seq::empty(),
        ),
{
    lemma_ohms(number, seq!['\u{3a9}']);
    lemma_ohms(number, seq!['k', '\u{3a9}']);
    lemma_ohms(number, seq!['K', '\u{3a9}']);
    lemma_ohms(number, seq!['M', '\u{3a9}']);
    lemma_ohms(number, seq!['m', '\u{3a9}']);
    reveal_strlit("");
    assert(""@ =~= Seq::<char>::empty());
}

proof fn lemma_ohms(number: Seq<char>, unit: Seq<char>)
    requires
        is_count(number),
        unit.len() > 0,
        unit.last() == '\u{3a9}',
        is_unit(unit),
    ensures
        !is_word(upper_text(without(trim(number + unit), ' '))),
        number_and_suffix(number + unit) == Some((number, unit)),
        unit.contains('\u{3a9}'),
{
    let value = number + unit;
    lemma_plain_text(number, unit);
    law_number_and_unit(number, unit);
    let up = upper_text(value);
    assert(up[value.len() - 1] == '\u{3a9}');
    assert(!is_alphanumeric(up[up.len() - 1]) && up[up.len() - 1] != '_');
    assert(unit[unit.len() - 1] == '\u{3a9}');
}

/// A resistance with its mark in place of the point is taken as it is, in capitals.
pub proof fn law_marked_resistance(number: Seq<char>, mark: char, decimals: Seq<char>)
    requires
        is_count(number),
        all_digits(decimals),
        upper(mark) == 'R' || upper(mark) == 'K' || upper(mark) == 'M',
    ensures
        resistance_plan(number + seq![mark] + decimals) == PlanView::Token(
            Some(number + seq![upper(mark)] + decimals),
        ),
{
    let value = number + seq![mark] + decimals;
    let unit = seq![mark] + decimals;
    let made = number + seq![upper(mark)] + decimals;
    assert(value =~= number + unit);
    assert(is_unit(unit)) by {
        assert forall|i: int| 0 <= i < unit.len() implies {
            let c = #[trigger] unit[i];
            c != ' ' && c != ',' && c != '\u{2126}' && !crate::text::is_white(c)
        } by {
            if i > 0 {
                assert(is_digit(decimals[i - 1]));
            }
        }
    }
    lemma_plain_text(number, unit);
    let up = upper_text(value);
    let n = number.len() as int;
    assert forall|i: int| 0 <= i < value.len() implies up[i] == made[i] && (i != n ==> is_digit(
        #[trigger] up[i],
    )) by {
        if i < n {
            assert(is_digit(number[i]));
        } else if i > n {
            assert(is_digit(decimals[i - n - 1]));
            assert(value[i] == decimals[i - n - 1]);
        }
    }
    assert(up =~= made);
    assert(made[n] == upper(mark));
    assert(is_word(up)) by {
        assert forall|i: int| 0 <= i < up.len() implies (is_alphanumeric(#[trigger] up[i]) || up[i]
            == '_') by {}
    }
    reveal_strlit("OHM");
    assert("OHM"@[0] == 'O' && "OHM"@.len() == 3);
    if has_part(up, "OHM"@) {
        let i = choose|i: int| crate::text::part_at(up, "OHM"@, i);
        assert(up.subrange(i, i + 3)[0] == 'O');
        assert(up[i] == 'O');
    }
    assert(up.contains(upper(mark)));
}

/// A capacitance in farads is measured as its prefix says: `p`, `n` and `u` in
/// either case, either form of the micro sign, and `m`.
pub proof fn law_capacitance(number: Seq<char>, prefix: char)
    requires
        is_count(number),
    ensures
        ({
            let plan = capacitance_plan(number + seq![prefix, 'F']);
            let none = Seq::<char>::empty();
            let rule = Rule::Capacitance;
            &&& prefix == 'p' || prefix == 'P' ==> is_measured(
                plan,
                number,
                Scale::Pico,
                rule,
                none,
                none,
            )
            &&& prefix == 'n' || prefix == 'N' ==> is_measured(
                plan,
                number,
                Scale::Nano,
                rule,
                none,
                none,
            )
            &&& prefix == 'u' || prefix == 'U' || prefix == '\u{b5}' || prefix == '\u{3bc}'
                ==> is_measured(plan, number, Scale::Micro, rule, none, none)
            &&& prefix == 'm' ==> is_measured(plan, number, Scale::Milli, rule, none, none)
        }),
{
    reveal_strlit("");
    assert(""@ =~= Seq::<char>::empty());
    if is_prefix(prefix) {
        lemma_micro(number, prefix, 'F');
        let compact = with_plain_micro(number + seq![prefix, 'F']);
        assert(upper_text(compact)[compact.len() - 1] == 'F');
        assert(upper_text(compact).contains('F'));
    }
}

/// An inductance in henries is measured as its prefix says: `n`, `u` and `m` in
/// either case, and either form of the micro sign.
pub proof fn law_inductance(number: Seq<char>, prefix: char)
    requires
        is_count(number),
    ensures
        ({
            let plan = inductance_plan(number + seq![prefix, 'H']);
            let none = Seq::<char>::empty();
            let rule = Rule::Inductance;
            &&& prefix == 'n' || prefix == 'N' ==> is_measured(
                plan,
                number,
                Scale::Nano,
                rule,
                none,
                none,
            )
            &&& prefix == 'u' || prefix == 'U' || prefix == '\u{b5}' || prefix == '\u{3bc}'
                ==> is_measured(plan, number, Scale::Micro, rule, none, none)
            &&& prefix == 'm' || prefix == 'M' ==> is_measured(
                plan,
                number,
                Scale::Milli,
                rule,
                none,
                none,
            )
        }),
{
    reveal_strlit("");
    assert(""@ =~= Seq::<char>::empty());
    if is_prefix(prefix) {
        lemma_micro(number, prefix, 'H');
        let compact = with_plain_micro(number + seq![prefix, 'H']);
        assert(upper_text(compact)[compact.len() - 1] == 'H');
        assert(upper_text(compact).contains('H'));
    }
}

spec fn is_prefix(c: char) -> bool {
    c == 'p' || c == 'P' || c == 'n' || c == 'N' || c == 'u' || c == 'U' || c == '\u{b5}' || c
        == '\u{3bc}' || c == 'm' || c == 'M'
}

proof fn lemma_micro(number: Seq<char>, prefix: char, unit: char)
    requires
        is_count(number),
        is_prefix(prefix),
        unit == 'F' || unit == 'H',
    ensures
        ({
            let plain = if prefix == '\u{b5}' || prefix == '\u{3bc}' {
                'u'
            } else {
                prefix
            };
            &&& with_plain_micro(number + seq![prefix, unit]) == number + seq![plain, unit]
            &&& number_and_suffix(number + seq![plain, unit]) == Some((number, seq![plain, unit]))
        }),
{
    let plain = if prefix == '\u{b5}' || prefix == '\u{3bc}' {
        'u'
    } else {
        prefix
    };
    let value = number + seq![prefix, unit];
    lemma_plain_text(number, seq![prefix, unit]);
    law_number_and_unit(number, seq![plain, unit]);
    let once = with_char(value, '\u{b5}', 'u');
    let twice = with_char(once, '\u{3bc}', 'u');
    let made = number + seq![plain, unit];
    assert forall|i: int| 0 <= i < value.len() implies twice[i] == made[i] by {
        if i < number.len() {
            assert(is_digit(number[i]));
        }
    }
    assert(twice =~= made);
}

/// Voltages, tolerances, powers, currents and frequencies keep their number and
/// take the mark of their unit in place of the point. A prefix is that mark where
/// there is one, and the unit then stands at the end.
pub proof fn law_plain_ratings(number: Seq<char>)
    requires
        is_count(number),
    ensures
        ({
            let none = Seq::<char>::empty();
            let one = Scale::One;
            let rule = Rule::Plain;
            &&& is_measured(voltage_plan(number + seq!['V']), number, one, rule, seq!['V'], none)
            &&& is_measured(voltage_plan(number + seq!['v']), number, one, rule, seq!['V'], none)
            &&& is_measured(voltage_plan(number), number, one, rule, seq!['V'], none)
            &&& is_measured(tolerance_plan(number + seq!['%']), number, one, rule, seq!['P'], none)
            &&& is_measured(tolerance_plan(number), number, one, rule, seq!['P'], none)
            &&& is_measured(power_plan(number + seq!['W']), number, one, rule, seq!['W'], none)
            &&& is_measured(power_plan(number), number, one, rule, seq!['W'], none)
            &&& is_measured(
                power_plan(number + seq!['m', 'W']),
                number,
                one,
                rule,
                seq!['M'],
                seq!['W'],
            )
            &&& is_measured(current_plan(number + seq!['A']), number, one, rule, seq!['A'], none)
            &&& is_measured(current_plan(number), number, one, rule, seq!['A'], none)
            &&& is_measured(
                current_plan(number + seq!['m', 'A']),
                number,
                one,
                rule,
                seq!['M'],
                seq!['A'],
            )
        }),
{
    let none = Seq::<char>::empty();
    law_number_and_unit(number, seq!['V']);
    law_number_and_unit(number, seq!['v']);
    law_number_and_unit(number, seq!['%']);
    law_number_and_unit(number, seq!['W']);
    law_number_and_unit(number, seq!['m', 'W']);
    law_number_and_unit(number, seq!['A']);
    law_number_and_unit(number, seq!['m', 'A']);
    law_number_and_unit(number, none);
    assert(number + none =~= number);
    reveal_strlit("");
    reveal_strlit("V");
    reveal_strlit("P");
    reveal_strlit("W");
    reveal_strlit("M");
    reveal_strlit("A");
    assert(""@ =~= none);
    assert("V"@ =~= seq!['V']);
    assert("P"@ =~= seq!['P']);
    assert("W"@ =~= seq!['W']);
    assert("M"@ =~= seq!['M']);
    assert("A"@ =~= seq!['A']);
    law_same_but_case(seq!['V'], "V"@);
    law_same_but_case(seq!['v'], "V"@);
    assert(same_but_case(seq!['v'], "V"@)) by {
        assert(lower_text(seq!['v']) =~= lower_text("V"@));
    }
    assert(seq!['%'][0] == '%');
    assert(seq!['%'].contains('%'));
}

/// A frequency keeps its number and takes the letter of its prefix in place of the
/// point: `G`, `M` or `K`, or none where it is in hertz.
pub proof fn law_frequency(number: Seq<char>)
    requires
        is_count(number),
    ensures
        ({
            let one = Scale::One;
            let rule = Rule::Plain;
            let end = seq!['H', 'Z'];
            &&& is_measured(
                frequency_plan(number + seq!['G', 'H', 'z']),
                number,
                one,
                rule,
                seq!['G'],
                end,
            )
            &&& is_measured(
                frequency_plan(number + seq!['M', 'H', 'z']),
                number,
                one,
                rule,
                seq!['M'],
                end,
            )
            &&& is_measured(
                frequency_plan(number + seq!['k', 'H', 'z']),
                number,
                one,
                rule,
                seq!['K'],
                end,
            )
            &&& is_measured(
                frequency_plan(number + seq!['H', 'z']),
                number,
                one,
                rule,
                Seq::empty(),
                end,
            )
        }),
{
    law_number_and_unit(number, seq!['G', 'H', 'z']);
    law_number_and_unit(number, seq!['M', 'H', 'z']);
    law_number_and_unit(number, seq!['k', 'H', 'z']);
    law_number_and_unit(number, seq!['H', 'z']);
    reveal_strlit("");
    reveal_strlit("G");
    reveal_strlit("M");
    reveal_strlit("K");
    reveal_strlit("HZ");
    assert(""@ =~= Seq::<char>::empty());
    assert("G"@ =~= seq!['G']);
    assert("M"@ =~= seq!['M']);
    assert("K"@ =~= seq!['K']);
    assert("HZ"@ =~= seq!['H', 'Z']);
    assert(lower_text(seq!['H', 'z']) =~= lower_text("HZ"@));
}

/// A series resistance is put into thousandths of an ohm, whether it is given in
/// these or in ohms.
pub proof fn law_series_resistance(number: Seq<char>)
    requires
        is_count(number),
    ensures
        is_measured(
            milliohm_plan(number + seq!['m', '\u{3a9}']),
            number,
            Scale::Milli,
            Rule::Thousandths,
            seq!['M'],
            seq!['O', 'R'],
        ),
        is_measured(
            milliohm_plan(number + seq!['\u{3a9}']),
            number,
            Scale::One,
            Rule::Thousandths,
            seq!['M'],
            seq!['O', 'R'],
        ),
{
    lemma_ohms(number, seq!['m', '\u{3a9}']);
    lemma_ohms(number, seq!['\u{3a9}']);
    reveal_strlit("M");
    reveal_strlit("OR");
    assert("M"@ =~= seq!['M']);
    assert("OR"@ =~= seq!['O', 'R']);
}

/// The unit that a rating is put into gives its mark: of resistances millions,
/// thousands and ohms, of capacitances and inductances the letter of their prefix.
pub proof fn law_unit_marks(mark: Seq<char>)
    ensures
        unit_marker(Rule::Resistance, 0, mark) == seq!['M'],
        unit_marker(Rule::Resistance, 1, mark) == seq!['K'],
        unit_marker(Rule::Resistance, 2, mark) == seq!['R'],
        unit_marker(Rule::Capacitance, 0, mark) == seq!['U'],
        unit_marker(Rule::Capacitance, 1, mark) == seq!['N'],
        unit_marker(Rule::Capacitance, 2, mark) == seq!['P'],
        unit_marker(Rule::Inductance, 0, mark) == seq!['U'],
        unit_marker(Rule::Inductance, 1, mark) == seq!['N'],
        forall|unit: u8| unit_marker(Rule::Plain, unit, mark) == mark,
        forall|unit: u8| unit_marker(Rule::Thousandths, unit, mark) == mark,
{
    reveal_strlit("M");
    reveal_strlit("K");
    reveal_strlit("R");
    reveal_strlit("U");
    reveal_strlit("N");
    reveal_strlit("P");
    assert("M"@ =~= seq!['M']);
    assert("K"@ =~= seq!['K']);
    assert("R"@ =~= seq!['R']);
    assert("U"@ =~= seq!['U']);
    assert("N"@ =~= seq!['N']);
    assert("P"@ =~= seq!['P']);
}

proof fn lemma_zeros_dropped(text: Seq<char>, n: nat)
    requires
        text.contains('.'),
        text.last() != '0',
    ensures
        without_zeros(text + Seq::new(n, |i: int| '0')) == text,
    decreases n,
{
    let zeros = Seq::new(n, |i: int| '0');
    let whole = text + zeros;
    if n > 0 {
        let less = Seq::new((n - 1) as nat, |i: int| '0');
        let k = choose|k: int| 0 <= k < text.len() && text[k] == '.';
        assert(whole[k] == '.');
        assert(whole.drop_last() =~= text + less);
        assert(whole.last() == '0');
        lemma_zeros_dropped(text, (n - 1) as nat);
    } else {
        assert(whole =~= text);
    }
}

/// A mark stands in place of the point of a number, whose zeros at the end are left
/// out. Where no decimals are left, or there is no point, it stands behind.
pub proof fn law_marked(whole: Seq<char>, decimals: Seq<char>, zeros: nat, mark: Seq<char>)
    requires
        is_count(whole),
        all_digits(decimals),
        decimals.len() > 0 ==> decimals.last() != '0',
    ensures
        decimals.len() > 0 ==> marked(
            whole + seq!['.'] + decimals + Seq::new(zeros, |i: int| '0'),
            mark,
        ) == whole + mark + decimals,
        marked(whole + seq!['.'] + Seq::new(zeros, |i: int| '0'), mark) == whole + mark,
        marked(whole, mark) == whole + mark,
{
    let row = Seq::new(zeros, |i: int| '0');
    let pointed = whole + seq!['.'];
    let n = whole.len() as int;
    assert forall|i: int| 0 <= i < whole.len() implies #[trigger] whole[i] != '.' by {
        assert(is_digit(whole[i]));
    }
    if whole.contains('.') {
        let i = choose|i: int| 0 <= i < whole.len() && whole[i] == '.';
        assert(is_digit(whole[i]));
    }
    crate::text_laws::law_cut(whole, '.');
    assert(whole.last() == whole[n - 1]);
    assert(is_digit(whole[n - 1]));
    assert(marked(whole, mark) == whole + mark);
    assert(pointed[n] == '.');
    assert(pointed.last() == '.');
    lemma_zeros_dropped(pointed, zeros);
    assert(pointed.drop_last() =~= whole);
    if decimals.len() > 0 {
        let full = pointed + decimals;
        assert(full[n] == '.');
        assert(full.last() == decimals.last());
        assert(is_digit(decimals[decimals.len() - 1]));
        lemma_zeros_dropped(full, zeros);
        assert(whole + seq!['.'] + decimals + row =~= full + row);
        assert forall|i: int| 0 <= i < n implies full[i] != '.' by {
            assert(full[i] == whole[i]);
        }
        lemma_find_is(full, '.', whole.len());
        assert(full.take(n) =~= whole);
        assert(full.skip(n + 1) =~= decimals);
    }
}

// Tokens of any text

/// Whether a text is made of letters and digits, at least one.
pub open spec fn is_plain_word(text: Seq<char>) -> bool {
    text.len() > 0 && forall|i: int| 0 <= i < text.len() ==> is_alphanumeric(#[trigger] text[i])
}

proof fn lemma_squeezed_word(before: Seq<char>, word: Seq<char>)
    requires
        forall|i: int| 0 <= i < word.len() ==> is_alphanumeric(#[trigger] word[i]),
    ensures
        squeezed(before + word) == squeezed(before) + upper_text(word),
    decreases word.len(),
{
    let whole = before + word;
    if word.len() > 0 {
        let init = word.drop_last();
        assert(whole.drop_last() =~= before + init);
        assert(whole.last() == word[word.len() - 1]);
        assert forall|i: int| 0 <= i < init.len() implies is_alphanumeric(#[trigger] init[i]) by {
            assert(init[i] == word[i]);
        }
        lemma_squeezed_word(before, init);
        assert(upper_text(word) =~= upper_text(init).push(upper(word.last())));
        assert(upper(word.last()) != '_');
        assert(squeezed(whole) =~= squeezed(before) + upper_text(word));
    } else {
        assert(whole =~= before);
        assert(squeezed(before) + upper_text(word) =~= squeezed(before));
    }
}

proof fn lemma_freeform_plain(text: Seq<char>, token: Seq<char>)
    requires
        is_bare(text),
        squeezed(text) == token,
        token.len() > 0,
        token[0] != '_',
        token.last() != '_',
    ensures
        freeform(text) == Some(token),
{
    let none = Seq::<char>::empty();
    law_trim(none, text, none);
    assert(none + text + none =~= text);
    assert(strip_leading(token, '_') == token);
    assert(strip_trailing(token, '_') == token);
}

/// What stands between two words of letters and digits in a text makes their token:
/// separators an underscore, a point `D`, the micro sign `U`, the ohm sign `R`, the
/// percent sign `P`, the times sign `X`, and any other character nothing.
pub proof fn law_tokens_of_words(a: Seq<char>, c: char, b: Seq<char>)
    requires
        is_plain_word(a),
        is_plain_word(b),
    ensures
        ({
            let token = freeform(a + seq![c] + b);
            let left = upper_text(a);
            let right = upper_text(b);
            &&& freeform(a) == Some(left)
            &&& c == ' ' || c == '/' || c == '\\' || c == ',' || c == '-' || c == '_' || c == '('
                || c == ')' || c == '[' || c == ']' || c == '{' || c == '}' ==> token == Some(
                left + seq!['_'] + right,
            )
            &&& c == '.' ==> token == Some(left + seq!['D'] + right)
            &&& c == '\u{b5}' || c == '\u{3bc}' ==> token == Some(left + seq!['U'] + right)
            &&& c == '\u{3a9}' || c == '\u{2126}' ==> token == Some(left + seq!['R'] + right)
            &&& c == '%' ==> token == Some(left + seq!['P'] + right)
            &&& c == '\u{d7}' ==> token == Some(left + seq!['X'] + right)
            &&& c == '+' || c == '\u{b1}' || c == ':' || c == '@' || c == '#' ==> token == Some(
                left + right,
            )
        }),
{
    let none = Seq::<char>::empty();
    let left = upper_text(a);
    let right = upper_text(b);
    let text = a + seq![c] + b;
    let head = a + seq![c];
    assert(a =~= none + a);
    lemma_squeezed_word(none, a);
    assert(squeezed(none) =~= none);
    assert(squeezed(a) =~= left);
    assert(is_alphanumeric(a[0]) && is_alphanumeric(a[a.len() - 1]));
    assert(is_alphanumeric(b[0]) && is_alphanumeric(b[b.len() - 1]));
    assert(a.last() == a[a.len() - 1] && b.last() == b[b.len() - 1]);
    assert(left[0] == upper(a[0]) && left.last() == upper(a.last()));
    assert(right.last() == upper(b.last()));
    lemma_freeform_plain(a, left);
    assert(head.drop_last() =~= a);
    assert(head.last() == c);
    lemma_squeezed_word(head, b);
    assert(text =~= head + b);
    assert(text[0] == a[0] && text.last() == b.last());
    let token = squeezed(head) + right;
    assert(token[0] == left[0]);
    assert(token.last() == right.last());
    lemma_freeform_plain(text, token);
    assert(left + right =~= squeezed(head) + right || squeezed(head) != left);
    assert(squeezed(head) == left || squeezed(head) == left.push('_') || squeezed(head)
        == left.push('D') || squeezed(head) == left.push('U') || squeezed(head) == left.push('R')
        || squeezed(head) == left.push('P') || squeezed(head) == left.push('X') || squeezed(head)
        == left.push(upper(c)));
    assert(left.push('_') =~= left + seq!['_']);
    assert(left.push('D') =~= left + seq!['D']);
    assert(left.push('U') =~= left + seq!['U']);
    assert(left.push('R') =~= left + seq!['R']);
    assert(left.push('P') =~= left + seq!['P']);
    assert(left.push('X') =~= left + seq!['X']);
}

// Packages

/// Dimensions are taken part by part: digits stay, a point becomes `D`, and any
/// other character is left out.
pub proof fn law_dimensions(a: Seq<char>, b: Seq<char>, c: char)
    ensures
        dimension_chars(a + b) == dimension_chars(a) + dimension_chars(b),
        is_digit(c) ==> dimension_chars(seq![c]) == seq![c],
        c == '.' ==> dimension_chars(seq![c]) == seq!['D'],
        !is_digit(c) && c != '.' ==> dimension_chars(seq![c]) == Seq::<char>::empty(),
    decreases b.len(),
{
    reveal_with_fuel(dimension_chars, 2);
    assert(seq![c].drop_last() =~= Seq::<char>::empty());
    assert(Seq::<char>::empty().push(c) =~= seq![c]);
    assert(Seq::<char>::empty().push('D') =~= seq!['D']);
    if b.len() > 0 {
        assert((a + b).drop_last() =~= a + b.drop_last());
        law_dimensions(a, b.drop_last(), c);
        assert(dimension_chars(a + b) =~= dimension_chars(a) + dimension_chars(b));
    } else {
        assert(a + b =~= a);
        assert(dimension_chars(a) + dimension_chars(b) =~= dimension_chars(a));
    }
}

proof fn lemma_digits_dimension(text: Seq<char>)
    requires
        all_digits(text),
    ensures
        dimension_chars(text) == text,
    decreases text.len(),
{
    if text.len() > 0 {
        let init = text.drop_last();
        assert(is_digit(text[text.len() - 1]));
        assert forall|i: int| 0 <= i < init.len() implies is_digit(#[trigger] init[i]) by {
            assert(init[i] == text[i]);
        }
        lemma_digits_dimension(init);
        assert(dimension_chars(text) =~= text);
    }
}

proof fn lemma_digits_bare(text: Seq<char>)
    requires
        is_count(text),
    ensures
        is_bare(text),
        trim(text) == text,
        dimension(text) == Some(text),
{
    let none = Seq::<char>::empty();
    assert(is_digit(text[0]) && is_digit(text[text.len() - 1]));
    law_trim(none, text, none);
    assert(none + text + none =~= text);
    lemma_digits_dimension(text);
}

/// A package of digits is its own token. One with dimensions behind `SMD`, with or
/// without a comma before them and millimeters behind, is `SMD` and the dimensions
/// with an `X` between them.
pub proof fn law_packages(left: Seq<char>, right: Seq<char>)
    requires
        is_count(left),
        is_count(right),
    ensures
        package_token(left) == Some(left),
        package_token(seq!['S', 'M', 'D'] + left + seq!['x'] + right) == Some(
            seq!['S', 'M', 'D'] + left + seq!['X'] + right,
        ),
        package_token(seq!['S', 'M', 'D', ','] + left + seq!['x'] + right + seq!['m', 'm']) == Some(
            seq!['S', 'M', 'D'] + left + seq!['X'] + right,
        ),
{
    let none = Seq::<char>::empty();
    lemma_digits_bare(left);
    lemma_digits_bare(right);
    assert forall|i: int| 0 <= i < left.len() implies #[trigger] left[i] != ' ' && left[i] != '\u{d7}'
        by {
        assert(is_digit(left[i]));
    }
    if left.contains(' ') {
        let i = choose|i: int| 0 <= i < left.len() && left[i] == ' ';
        assert(left[i] == ' ');
    }
    law_without(left, none, ' ');
    assert(with_char(left, '\u{d7}', 'X') =~= left);
    assert(upper_text(left) =~= left) by {
        assert forall|i: int| 0 <= i < left.len() implies upper(#[trigger] left[i]) == left[i] by {
            assert(is_digit(left[i]));
        }
    }
    lemma_smd(seq!['S', 'M', 'D'], left, right, none);
    lemma_smd(seq!['S', 'M', 'D', ','], left, right, seq!['m', 'm']);
    assert(seq!['S', 'M', 'D'] + (left + seq!['x'] + right) + none =~= seq!['S', 'M', 'D'] + left
        + seq!['x'] + right);
    assert(seq!['S', 'M', 'D', ','] + (left + seq!['x'] + right) + seq!['m', 'm'] =~= seq![
        'S',
        'M',
        'D',
        ',',
    ] + left + seq!['x'] + right + seq!['m', 'm']);
}

proof fn lemma_smd_letters(head: Seq<char>, body: Seq<char>, tail: Seq<char>, i: int)
    requires
        head == seq!['S', 'M', 'D'] || head == seq!['S', 'M', 'D', ','],
        forall|k: int| 0 <= k < body.len() ==> (is_digit(#[trigger] body[k]) || body[k] == 'x'),
        tail == Seq::<char>::empty() || tail == seq!['m', 'm'],
        0 <= i < (head + body + tail).len(),
    ensures
        ({
            let c = (head + body + tail)[i];
            c != ' ' && c != '\u{d7}' && !crate::text::is_white(c)
        }),
{
    let h = head.len() as int;
    if h <= i < h + body.len() {
        assert((head + body + tail)[i] == body[i - h]);
    }
}

proof fn lemma_smd_compact(head: Seq<char>, body: Seq<char>, tail: Seq<char>)
    requires
        head == seq!['S', 'M', 'D'] || head == seq!['S', 'M', 'D', ','],
        body.len() > 0,
        forall|k: int| 0 <= k < body.len() ==> (is_digit(#[trigger] body[k]) || body[k] == 'x'),
        tail == Seq::<char>::empty() || tail == seq!['m', 'm'],
    ensures
        with_char(without(trim(head + body + tail), ' '), '\u{d7}', 'X') == head + body + tail,
        upper_text(head + body + tail) == head + upper_text(body) + upper_text(tail),
{
    let none = Seq::<char>::empty();
    let value = head + body + tail;
    lemma_smd_letters(head, body, tail, 0);
    lemma_smd_letters(head, body, tail, value.len() - 1);
    law_trim(none, value, none);
    assert(none + value + none =~= value);
    if value.contains(' ') {
        let i = choose|i: int| 0 <= i < value.len() && value[i] == ' ';
        lemma_smd_letters(head, body, tail, i);
    }
    law_without(value, none, ' ');
    assert forall|i: int| 0 <= i < value.len() implies #[trigger] value[i] != '\u{d7}' by {
        lemma_smd_letters(head, body, tail, i);
    }
    assert(with_char(value, '\u{d7}', 'X') =~= value);
    assert(upper_text(value) =~= head + upper_text(body) + upper_text(tail));
}

proof fn lemma_dimensions_upper(left: Seq<char>, right: Seq<char>)
    requires
        is_count(left),
        is_count(right),
    ensures
        upper_text(left + seq!['x'] + right) == left + seq!['X'] + right,
        forall|k: int|
            0 <= k < (left + seq!['x'] + right).len() ==> (is_digit(
                #[trigger] (left + seq!['x'] + right)[k],
            ) || (left + seq!['x'] + right)[k] == 'x'),
{
    let body = left + seq!['x'] + right;
    let l = left.len() as int;
    assert forall|k: int| 0 <= k < body.len() implies (is_digit(#[trigger] body[k]) || body[k]
        == 'x') && upper(body[k]) == (left + seq!['X'] + right)[k] by {
        if k < l {
            assert(is_digit(left[k]));
        } else if k > l {
            assert(body[k] == right[k - l - 1]);
            assert(is_digit(right[k - l - 1]));
        }
    }
    assert(upper_text(body) =~= left + seq!['X'] + right);
}

proof fn lemma_dimensions_cut(left: Seq<char>, right: Seq<char>)
    requires
        is_count(left),
    ensures
        cut(left + seq!['X'] + right, 'X') == Some((left, right)),
{
    let body = left + seq!['X'] + right;
    let l = left.len() as int;
    assert forall|i: int| 0 <= i < l implies body[i] != 'X' by {
        assert(is_digit(left[i]));
    }
    assert(body[l] == 'X');
    lemma_find_is(body, 'X', left.len());
    assert(body.take(l) =~= left);
    assert(body.skip(l + 1) =~= right);
}

proof fn lemma_smd_dimensions(head: Seq<char>, left: Seq<char>, right: Seq<char>, tail: Seq<char>)
    requires
        is_count(left),
        is_count(right),
        head == seq!['S', 'M', 'D'] || head == seq!['S', 'M', 'D', ','],
        tail == Seq::<char>::empty() || tail == seq!['M', 'M'],
    ensures
        crate::passive_naming::smd_dimensions(head + (left + seq!['X'] + right) + tail) == Some(
            (left, right),
        ),
{
    let body = left + seq!['X'] + right;
    let rest = body + tail;
    let package = head + body + tail;
    let shed = package.skip(3);
    let n = rest.len() as int;
    reveal_strlit("SMD");
    reveal_strlit("MM");
    assert("SMD"@ =~= seq!['S', 'M', 'D']);
    assert("MM"@ =~= seq!['M', 'M']);
    assert(package.take(3) =~= "SMD"@);
    assert(is_digit(left[0]));
    assert(rest[0] == left[0]);
    assert(strip_leading(rest, ',') == rest);
    if head.len() == 3 {
        assert(shed =~= rest);
    } else {
        assert(shed.drop_first() =~= rest);
        assert(shed[0] == ',');
        assert(strip_leading(shed, ',') == strip_leading(rest, ','));
    }
    if tail.len() == 0 {
        assert(rest =~= body);
        assert(is_digit(right[right.len() - 1]));
        assert(rest[n - 1] == right[right.len() - 1]);
        if crate::text::has_suffix(rest, "MM"@) {
            assert(rest.skip(n - 2)[1] == 'M');
        }
    } else {
        assert(rest.skip(n - 2) =~= "MM"@);
        assert(rest.take(n - 2) =~= body);
    }
    lemma_dimensions_cut(left, right);
}

proof fn lemma_package(value: Seq<char>, compact: Seq<char>, left: Seq<char>, right: Seq<char>)
    requires
        is_count(left),
        is_count(right),
        with_char(without(trim(value), ' '), '\u{d7}', 'X') == compact,
        compact.len() > 0,
        !all_digits(upper_text(compact)),
        crate::passive_naming::smd_dimensions(upper_text(compact)) == Some((left, right)),
    ensures
        package_token(value) == Some(seq!['S', 'M', 'D'] + left + seq!['X'] + right),
{
    lemma_digits_bare(left);
    lemma_digits_bare(right);
    reveal_strlit("SMD");
    reveal_strlit("X");
    assert("SMD"@ =~= seq!['S', 'M', 'D']);
    assert("X"@ =~= seq!['X']);
}

proof fn lemma_smd_upper(head: Seq<char>, left: Seq<char>, right: Seq<char>, tail: Seq<char>)
    requires
        is_count(left),
        is_count(right),
        head == seq!['S', 'M', 'D'] || head == seq!['S', 'M', 'D', ','],
        tail == Seq::<char>::empty() || tail == seq!['m', 'm'],
    ensures
        ({
            let value = head + (left + seq!['x'] + right) + tail;
            &&& with_char(without(trim(value), ' '), '\u{d7}', 'X') == value
            &&& upper_text(value) == head + (left + seq!['X'] + right) + upper_text(tail)
        }),
{
    lemma_dimensions_upper(left, right);
    lemma_smd_compact(head, left + seq!['x'] + right, tail);
}

proof fn lemma_smd(head: Seq<char>, left: Seq<char>, right: Seq<char>, tail: Seq<char>)
    requires
        is_count(left),
        is_count(right),
        head == seq!['S', 'M', 'D'] || head == seq!['S', 'M', 'D', ','],
        tail == Seq::<char>::empty() || tail == seq!['m', 'm'],
    ensures
        package_token(head + (left + seq!['x'] + right) + tail) == Some(
            seq!['S', 'M', 'D'] + left + seq!['X'] + right,
        ),
{
    let value = head + (left + seq!['x'] + right) + tail;
    let big = upper_text(tail);
    lemma_smd_upper(head, left, right, tail);
    if tail.len() == 0 {
        assert(big =~= Seq::<char>::empty());
    } else {
        assert(big =~= seq!['M', 'M']);
    }
    lemma_smd_dimensions(head, left, right, big);
    assert(upper_text(value)[0] == 'S');
    assert(!is_digit(upper_text(value)[0]));
    lemma_package(value, value, left, right);
}

// Names out of tokens

/// The fields of a name are its tokens in their order, each behind an underscore.
/// One that is missing or blank leaves nothing.
pub proof fn law_joined_tokens(
    a: Seq<Option<Seq<char>>>,
    b: Seq<Option<Seq<char>>>,
    token: Seq<char>,
)
    ensures
        joined_tokens(a + b) == joined_tokens(a) + joined_tokens(b),
        trim(token).len() > 0 ==> joined_tokens(seq![Some(token)]) == seq!['_'] + token,
        trim(token).len() == 0 ==> joined_tokens(seq![Some(token)]).len() == 0,
        joined_tokens(seq![None]).len() == 0,
    decreases b.len(),
{
    reveal_with_fuel(joined_tokens, 2);
    reveal_strlit("_");
    assert("_"@ =~= seq!['_']);
    assert(seq![Some(token)].drop_last() =~= Seq::<Option<Seq<char>>>::empty());
    assert(seq![None::<Seq<char>>].drop_last() =~= Seq::<Option<Seq<char>>>::empty());
    assert(Seq::<char>::empty() + "_"@ + token =~= seq!['_'] + token);
    if b.len() > 0 {
        assert((a + b).drop_last() =~= a + b.drop_last());
        law_joined_tokens(a, b.drop_last(), token);
        assert(joined_tokens(a + b) =~= joined_tokens(a) + joined_tokens(b));
    } else {
        assert(a + b =~= a);
        assert(joined_tokens(a) + joined_tokens(b) =~= joined_tokens(a));
    }
}

/// A text in small letters that speaks of a construction gives its word, where one
/// that is unshielded is not shielded, and shielding comes before molding.
pub proof fn law_construction(text: Seq<char>)
    ensures
        construction(text) == Some("UNSHIELDED"@) <==> has_part(text, "unshielded"@),
        construction(text) == Some("SHIELDED"@) <==> has_part(text, "shielded"@) && !has_part(
            text,
            "unshielded"@,
        ),
        construction(text) == Some("MOLDED"@) <==> has_part(text, "molded"@) && !has_part(
            text,
            "shielded"@,
        ) && !has_part(text, "unshielded"@),
        construction(text) is None <==> !has_part(text, "molded"@) && !has_part(text, "shielded"@)
            && !has_part(text, "unshielded"@),
{
    reveal_strlit("UNSHIELDED");
    reveal_strlit("SHIELDED");
    reveal_strlit("MOLDED");
    assert("UNSHIELDED"@[0] == 'U' && "SHIELDED"@[0] == 'S' && "MOLDED"@[0] == 'M');
}

/// Ohms may be spelled out, in whatever case, behind the same prefixes.
pub proof fn law_spelled_ohms(number: Seq<char>)
    requires
        is_count(number),
    ensures
        ({
            let none = Seq::<char>::empty();
            let rule = Rule::Resistance;
            &&& is_measured(
                resistance_plan(number + seq!['o', 'h', 'm']),
                number,
                Scale::One,
                rule,
                none,
                none,
            )
            &&& is_measured(
                resistance_plan(number + seq!['m', 'o', 'h', 'm']),
                number,
                Scale::Milli,
                rule,
                none,
                none,
            )
            &&& is_measured(
                resistance_plan(number + seq!['k', 'o', 'h', 'm']),
                number,
                Scale::Kilo,
                rule,
                none,
                none,
            )
            &&& is_measured(
                resistance_plan(number + seq!['M', 'o', 'h', 'm']),
                number,
                Scale::Mega,
                rule,
                none,
                none,
            )
        }),
{
    reveal_strlit("");
    assert(""@ =~= Seq::<char>::empty());
    lemma_spelled(number, Seq::empty());
    lemma_spelled(number, seq!['m']);
    lemma_spelled(number, seq!['k']);
    lemma_spelled(number, seq!['M']);
    assert(Seq::<char>::empty() + seq!['o', 'h', 'm'] =~= seq!['o', 'h', 'm']);
    assert(seq!['m'] + seq!['o', 'h', 'm'] =~= seq!['m', 'o', 'h', 'm']);
    assert(seq!['k'] + seq!['o', 'h', 'm'] =~= seq!['k', 'o', 'h', 'm']);
    assert(seq!['M'] + seq!['o', 'h', 'm'] =~= seq!['M', 'o', 'h', 'm']);
    reveal_strlit("ohm");
    reveal_strlit("OHM");
    let unit = seq!['m', 'o', 'h', 'm'];
    let rest = lower_text(unit.skip(1));
    assert(rest.subrange(0, 3) =~= "ohm"@);
    assert(crate::text::part_at(rest, "ohm"@, 0));
    assert(lower_text(seq!['o', 'h', 'm']) =~= lower_text("OHM"@));
}

proof fn lemma_spelled(number: Seq<char>, prefix: Seq<char>)
    requires
        is_count(number),
        prefix == Seq::<char>::empty() || prefix == seq!['m'] || prefix == seq!['k'] || prefix
            == seq!['M'],
    ensures
        ({
            let unit = prefix + seq!['o', 'h', 'm'];
            &&& has_part(upper_text(without(trim(number + unit), ' ')), "OHM"@)
            &&& number_and_suffix(number + unit) == Some((number, unit))
        }),
{
    let unit = prefix + seq!['o', 'h', 'm'];
    assert(is_unit(unit));
    lemma_plain_text(number, unit);
    law_number_and_unit(number, unit);
    let up = upper_text(number + unit);
    let at = (number.len() + prefix.len()) as int;
    reveal_strlit("OHM");
    assert(up.subrange(at, at + 3) =~= "OHM"@);
    assert(crate::text::part_at(up, "OHM"@, at));
}

/// A plain rating without a number has no token, and one whose unit is another has
/// the token of its text.
pub proof fn law_other_units(value: Seq<char>, number: Seq<char>, unit: Seq<char>)
    requires
        is_count(number),
        is_unit(unit),
        unit.len() > 0,
        unit[0] == 'x',
        !unit.contains('%'),
        number_and_suffix(value) is None,
    ensures
        voltage_plan(value) == PlanView::Token(None),
        tolerance_plan(value) == PlanView::Token(None),
        power_plan(value) == PlanView::Token(None),
        current_plan(value) == PlanView::Token(None),
        frequency_plan(value) == PlanView::Token(None),
        milliohm_plan(value) == PlanView::Token(None),
        voltage_plan(number + unit) == PlanView::Token(freeform(number + unit)),
        tolerance_plan(number + unit) == PlanView::Token(freeform(number + unit)),
        power_plan(number + unit) == PlanView::Token(freeform(number + unit)),
        current_plan(number + unit) == PlanView::Token(freeform(number + unit)),
        frequency_plan(number + unit) == PlanView::Token(freeform(number + unit)),
{
    law_number_and_unit(number, unit);
    reveal_strlit("V");
    reveal_strlit("W");
    reveal_strlit("A");
    reveal_strlit("HZ");
    law_same_but_case(unit, "V"@);
    law_same_but_case(unit, "W"@);
    law_same_but_case(unit, "A"@);
    law_same_but_case(unit, "HZ"@);
    assert(crate::text::lower(unit[0]) == 'x');
    assert(crate::text::lower("V"@[0]) == 'v' && crate::text::lower("W"@[0]) == 'w'
        && crate::text::lower("A"@[0]) == 'a' && crate::text::lower("HZ"@[0]) == 'h');
}

} // verus!
