//! What the names of passive components say, whatever the components are.

use vstd::prelude::*;
use crate::passive_naming::{
    capacitance_plan, carried_out, construction, construction_in, current_plan, freeform,
    framed, frequency_plan, inductance_plan, is_named, kind_of, kind_prefix, law_passive_names,
    marked, milliohm_plan, package_token, param_named, passive_name, power_plan, reading_of,
    resistance_plan, stem, strip_numbering, tokens_of, tolerance_plan, unit_marker,
    voltage_plan, PassiveKind, PlanView, QuantityView, Table,
};
use crate::schlib::lcsc_id;
use crate::text::{has_part, has_suffix, is_digit, lower_text, same_but_case, upper_text};
use crate::text_laws::{all_white, is_bare, law_same_but_case, law_trim};

verus! {

// Kinds

/// Whether a text is a numbering: digits and question marks alone.
pub open spec fn is_numbering(text: Seq<char>) -> bool {
    forall|i: int| 0 <= i < text.len() ==> (is_digit(#[trigger] text[i]) || text[i] == '?')
}

/// Whether a text is the letters of a designator: some text without white space at
/// its ends that no numbering follows.
pub open spec fn is_stem(word: Seq<char>) -> bool {
    word.len() > 0 && is_bare(word) && !is_digit(word.last()) && word.last() != '?'
}

proof fn lemma_numbering_stripped(word: Seq<char>, numbering: Seq<char>)
    requires
        is_stem(word),
        is_numbering(numbering),
    ensures
        strip_numbering(word + numbering) == word,
    decreases numbering.len(),
{
    let whole = word + numbering;
    if numbering.len() > 0 {
        let less = numbering.drop_last();
        assert(whole.last() == numbering[numbering.len() - 1]);
        assert(whole.drop_last() =~= word + less);
        assert forall|i: int| 0 <= i < less.len() implies (is_digit(#[trigger] less[i]) || less[i]
            == '?') by {
            assert(less[i] == numbering[i]);
        }
        lemma_numbering_stripped(word, less);
    } else {
        assert(whole =~= word);
    }
}

proof fn lemma_stem(
    before: Seq<char>,
    word: Seq<char>,
    numbering: Seq<char>,
    after: Seq<char>,
)
    requires
        all_white(before),
        is_stem(word),
        is_numbering(numbering),
        all_white(after),
    ensures
        stem(before + (word + numbering) + after) == upper_text(word),
{
    let whole = word + numbering;
    let none = Seq::<char>::empty();
    assert(whole[0] == word[0]);
    if numbering.len() > 0 {
        assert(whole.last() == numbering[numbering.len() - 1]);
    } else {
        assert(whole =~= word);
    }
    law_trim(before, whole, after);
    lemma_numbering_stripped(word, numbering);
    law_trim(none, word, none);
    assert(none + word + none =~= word);
}

/// Whether the parameter at `k` is the first whose name has one of the keywords in
/// it, its case aside.
pub open spec fn is_first_named(
    parameters: Seq<(Seq<char>, Seq<char>)>,
    k: int,
    keywords: Seq<Seq<char>>,
) -> bool {
    &&& 0 <= k < parameters.len()
    &&& exists|w: int|
        0 <= w < keywords.len() && has_part(lower_text(parameters[k].0), #[trigger] keywords[w])
    &&& forall|j: int, w: int|
        0 <= j < k && 0 <= w < keywords.len() ==> !has_part(
            lower_text((#[trigger] parameters[j]).0),
            #[trigger] keywords[w],
        )
}

/// A parameter is found as the value of the first whose name has one of the keywords
/// in it, and none is found where no name has.
pub proof fn law_param_named(
    parameters: Seq<(Seq<char>, Seq<char>)>,
    k: int,
    keywords: Seq<Seq<char>>,
)
    ensures
        is_first_named(parameters, k, keywords) ==> param_named(parameters, keywords) == Some(
            parameters[k].1,
        ),
        (forall|j: int| !is_first_named(parameters, j, keywords)) ==> param_named(
            parameters,
            keywords,
        ) is None,
{
    if is_first_named(parameters, k, keywords) {
        lemma_param_found(parameters, k, keywords);
    }
    if forall|j: int| !is_first_named(parameters, j, keywords) {
        if param_named(parameters, keywords) is Some {
            let j = lemma_param_place(parameters, keywords);
            assert(is_first_named(parameters, j, keywords));
        }
    }
}

proof fn lemma_param_found(
    parameters: Seq<(Seq<char>, Seq<char>)>,
    k: int,
    keywords: Seq<Seq<char>>,
)
    requires
        is_first_named(parameters, k, keywords),
    ensures
        param_named(parameters, keywords) == Some(parameters[k].1),
    decreases parameters.len(),
{
    if k > 0 {
        let rest = parameters.drop_first();
        assert(!is_named(parameters[0].0, keywords));
        assert(rest[k - 1] == parameters[k]);
        assert forall|j: int, w: int| 0 <= j < k - 1 && 0 <= w < keywords.len() implies !has_part(
            lower_text((#[trigger] rest[j]).0),
            #[trigger] keywords[w],
        ) by {
            assert(rest[j] == parameters[j + 1]);
        }
        lemma_param_found(rest, k - 1, keywords);
    } else {
        assert(is_named(parameters[0].0, keywords));
    }
}

proof fn lemma_param_place(
    parameters: Seq<(Seq<char>, Seq<char>)>,
    keywords: Seq<Seq<char>>,
) -> (k: int)
    requires
        param_named(parameters, keywords) is Some,
    ensures
        is_first_named(parameters, k, keywords),
    decreases parameters.len(),
{
    if is_named(parameters[0].0, keywords) {
        0
    } else {
        let rest = parameters.drop_first();
        let k = lemma_param_place(rest, keywords);
        assert(parameters[k + 1] == rest[k]);
        assert forall|j: int, w: int| 0 <= j < k + 1 && 0 <= w < keywords.len() implies !has_part(
            lower_text((#[trigger] parameters[j]).0),
            #[trigger] keywords[w],
        ) by {
            if j > 0 {
                assert(parameters[j] == rest[j - 1]);
            }
        }
        k + 1
    }
}

/// Whether the category of a component speaks of a ferrite bead: the first parameter
/// that is named one has both words in its value, their case aside.
pub open spec fn speaks_of_bead(parameters: Seq<(Seq<char>, Seq<char>)>) -> bool {
    exists|k: int| #[trigger]
        is_first_named(parameters, k, seq!["category"@]) && has_part(
            lower_text(parameters[k].1),
            "ferrite"@,
        ) && has_part(lower_text(parameters[k].1), "bead"@)
}

proof fn lemma_bead(parameters: Seq<(Seq<char>, Seq<char>)>)
    ensures
        crate::passive_naming::is_bead(parameters) == speaks_of_bead(parameters),
{
    let keywords = seq!["category"@];
    if param_named(parameters, keywords) is Some {
        let k = lemma_param_place(parameters, keywords);
        law_param_named(parameters, k, keywords);
        if speaks_of_bead(parameters) {
            let j = choose|j: int| #[trigger]
                is_first_named(parameters, j, keywords) && has_part(
                    lower_text(parameters[j].1),
                    "ferrite"@,
                ) && has_part(lower_text(parameters[j].1), "bead"@);
            law_param_named(parameters, j, keywords);
        }
    } else if speaks_of_bead(parameters) {
        let j = choose|j: int| #[trigger]
            is_first_named(parameters, j, keywords) && has_part(
                lower_text(parameters[j].1),
                "ferrite"@,
            ) && has_part(lower_text(parameters[j].1), "bead"@);
        law_param_named(parameters, j, keywords);
    }
}

proof fn lemma_stem_words()
    ensures
        upper_text("FB"@) == "FB"@,
        upper_text("L"@) == "L"@,
        upper_text("C"@) == "C"@,
        upper_text("CV"@) == "CV"@,
        upper_text("R"@) == "R"@,
        upper_text("RV"@) == "RV"@,
        upper_text("VR"@) == "VR"@,
        "FB"@ == seq!['F', 'B'],
        "L"@ == seq!['L'],
        "C"@ == seq!['C'],
        "CV"@ == seq!['C', 'V'],
        "R"@ == seq!['R'],
        "RV"@ == seq!['R', 'V'],
        "VR"@ == seq!['V', 'R'],
{
    reveal_strlit("FB");
    reveal_strlit("L");
    reveal_strlit("C");
    reveal_strlit("CV");
    reveal_strlit("R");
    reveal_strlit("RV");
    reveal_strlit("VR");
    assert(upper_text("FB"@) =~= "FB"@);
    assert(upper_text("L"@) =~= "L"@);
    assert(upper_text("C"@) =~= "C"@);
    assert(upper_text("CV"@) =~= "CV"@);
    assert(upper_text("R"@) =~= "R"@);
    assert(upper_text("RV"@) =~= "RV"@);
    assert(upper_text("VR"@) =~= "VR"@);
    assert("FB"@ =~= seq!['F', 'B']);
    assert("L"@ =~= seq!['L']);
    assert("C"@ =~= seq!['C']);
    assert("CV"@ =~= seq!['C', 'V']);
    assert("R"@ =~= seq!['R']);
    assert("RV"@ =~= seq!['R', 'V']);
    assert("VR"@ =~= seq!['V', 'R']);
}

/// A designator tells the kind of a component by its letters, in either case and
/// whatever digits or question marks follow them: `FB` is a ferrite bead, `R`, `RV`
/// and `VR` are resistors, `C` and `CV` capacitors, and `L` is an inductor unless
/// the category speaks of a ferrite bead. Any other designator tells nothing, and
/// the category alone makes its component a ferrite bead.
pub proof fn law_kinds(
    before: Seq<char>,
    word: Seq<char>,
    numbering: Seq<char>,
    after: Seq<char>,
    parameters: Seq<(Seq<char>, Seq<char>)>,
)
    requires
        all_white(before),
        is_stem(word),
        is_numbering(numbering),
        all_white(after),
    ensures
        ({
            let kind = kind_of(before + (word + numbering) + after, parameters);
            let letters = |text: Seq<char>| same_but_case(word, text);
            &&& letters(seq!['F', 'B']) ==> kind == Some(PassiveKind::Fb)
            &&& letters(seq!['R']) || letters(seq!['R', 'V']) || letters(seq!['V', 'R']) ==> kind
                == Some(PassiveKind::Res)
            &&& letters(seq!['C']) || letters(seq!['C', 'V']) ==> kind == Some(PassiveKind::Cap)
            &&& letters(seq!['L']) && !speaks_of_bead(parameters) ==> kind == Some(PassiveKind::Ind)
            &&& letters(seq!['L']) && speaks_of_bead(parameters) ==> kind == Some(PassiveKind::Fb)
            &&& !letters(seq!['F', 'B']) && !letters(seq!['R']) && !letters(seq!['R', 'V'])
                && !letters(seq!['V', 'R']) && !letters(seq!['C']) && !letters(seq!['C', 'V'])
                && !letters(seq!['L']) ==> kind == if speaks_of_bead(parameters) {
                Some(PassiveKind::Fb)
            } else {
                None
            }
        }),
{
    lemma_stem(before, word, numbering, after);
    lemma_bead(parameters);
    lemma_stem_words();
    law_same_but_case(word, seq!['F', 'B']);
    law_same_but_case(word, seq!['R']);
    law_same_but_case(word, seq!['R', 'V']);
    law_same_but_case(word, seq!['V', 'R']);
    law_same_but_case(word, seq!['C']);
    law_same_but_case(word, seq!['C', 'V']);
    law_same_but_case(word, seq!['L']);
    let up = upper_text(word);
    assert(seq!['F', 'B'][0] == 'F' && seq!['F', 'B'].len() == 2);
    assert(seq!['R', 'V'][0] == 'R' && seq!['R', 'V'].len() == 2);
    assert(seq!['V', 'R'][0] == 'V' && seq!['V', 'R'].len() == 2);
    assert(seq!['C', 'V'][0] == 'C' && seq!['C', 'V'].len() == 2);
    assert(seq!['R'][0] == 'R' && seq!['R'].len() == 1);
    assert(seq!['C'][0] == 'C' && seq!['C'].len() == 1);
    assert(seq!['L'][0] == 'L' && seq!['L'].len() == 1);
}

/// Every name that is given starts with the word for the kind and an underscore,
/// and ends with an underscore and the part number.
pub proof fn law_name_prefixes(
    designator: Seq<char>,
    parameters: Seq<(Seq<char>, Seq<char>)>,
    id: Option<Seq<char>>,
    table: Table,
)
    ensures
        passive_name(designator, parameters, id, table) matches Some(name) ==> {
            &&& kind_of(designator, parameters) == Some(PassiveKind::Fb) ==> seq![
                'F',
                'B',
                '_',
            ].is_prefix_of(name)
            &&& kind_of(designator, parameters) == Some(PassiveKind::Res) ==> seq![
                'R',
                'E',
                'S',
                '_',
            ].is_prefix_of(name)
            &&& kind_of(designator, parameters) == Some(PassiveKind::Cap) ==> seq![
                'C',
                'A',
                'P',
                '_',
            ].is_prefix_of(name)
            &&& kind_of(designator, parameters) == Some(PassiveKind::Ind) ==> seq![
                'I',
                'N',
                'D',
                '_',
            ].is_prefix_of(name)
            &&& id matches Some(value) && lcsc_id(value) matches Some(number) && has_suffix(
                name,
                seq!['_'] + number,
            )
        },
{
    law_passive_names(designator, parameters, id, table);
    reveal_strlit("FB");
    reveal_strlit("RES");
    reveal_strlit("CAP");
    reveal_strlit("IND");
    reveal_strlit("_");
    if let Some(name) = passive_name(designator, parameters, id, table) {
        let kind = kind_of(designator, parameters)->0;
        let number = lcsc_id(id->0)->0;
        let fields = choose|fields: Seq<char>|
            fields.len() > 0 && name == #[trigger] framed(kind_prefix(kind), fields, number);
        let tail = seq!['_'] + number;
        assert(name.skip(name.len() - tail.len()) =~= tail);
        assert(name.take(3) =~= seq!['F', 'B', '_'] || kind != PassiveKind::Fb);
        assert(name.take(4) =~= seq!['R', 'E', 'S', '_'] || kind != PassiveKind::Res);
        assert(name.take(4) =~= seq!['C', 'A', 'P', '_'] || kind != PassiveKind::Cap);
        assert(name.take(4) =~= seq!['I', 'N', 'D', '_'] || kind != PassiveKind::Ind);
    }
}

/// Every name that is given for an `FB` designator starts with `FB_`.
pub proof fn law_bead_names(
    before: Seq<char>,
    word: Seq<char>,
    numbering: Seq<char>,
    after: Seq<char>,
    parameters: Seq<(Seq<char>, Seq<char>)>,
    id: Option<Seq<char>>,
    table: Table,
)
    requires
        all_white(before),
        is_stem(word),
        same_but_case(word, seq!['F', 'B']),
        is_numbering(numbering),
        all_white(after),
    ensures
        passive_name(before + (word + numbering) + after, parameters, id, table) matches Some(name)
            ==> seq!['F', 'B', '_'].is_prefix_of(name),
{
    law_kinds(before, word, numbering, after, parameters);
    law_name_prefixes(before + (word + numbering) + after, parameters, id, table);
}

// Fields

/// A rating that is measured becomes the text of its reading, the first that there
/// is for it, with a mark and an end. Without a reading it has no token.
pub proof fn law_carried_out(
    table: Table,
    quantity: QuantityView,
    mark: Seq<char>,
    end: Seq<char>,
    k: int,
    token: Option<Seq<char>>,
)
    ensures
        carried_out(PlanView::Token(token), table) == token,
        0 <= k < table.len() && table[k].0 == quantity && (forall|j: int|
            0 <= j < k ==> (#[trigger] table[j]).0 != quantity) ==> carried_out(
            PlanView::Measured(quantity, mark, end),
            table,
        ) == match table[k].1.text {
            Some(text) => Some(
                marked(text, unit_marker(quantity.rule, table[k].1.unit, mark)) + end,
            ),
            None => None,
        },
        (forall|j: int| 0 <= j < table.len() ==> (#[trigger] table[j]).0 != quantity)
            ==> carried_out(PlanView::Measured(quantity, mark, end), table) is None,
{
    if 0 <= k < table.len() && table[k].0 == quantity && (forall|j: int|
        0 <= j < k ==> (#[trigger] table[j]).0 != quantity) {
        lemma_reading(table, quantity, k);
    }
    if forall|j: int| 0 <= j < table.len() ==> (#[trigger] table[j]).0 != quantity {
        lemma_no_reading(table, quantity);
    }
}

proof fn lemma_reading(table: Table, quantity: QuantityView, k: int)
    requires
        0 <= k < table.len(),
        table[k].0 == quantity,
        forall|j: int| 0 <= j < k ==> (#[trigger] table[j]).0 != quantity,
    ensures
        reading_of(table, quantity) == Some(table[k].1),
    decreases table.len(),
{
    if k > 0 {
        let rest = table.drop_first();
        assert(table[0].0 != quantity);
        assert(rest[k - 1] == table[k]);
        assert forall|j: int| 0 <= j < k - 1 implies (#[trigger] rest[j]).0 != quantity by {
            assert(rest[j] == table[j + 1]);
        }
        lemma_reading(rest, quantity, k - 1);
    }
}

proof fn lemma_no_reading(table: Table, quantity: QuantityView)
    requires
        forall|j: int| 0 <= j < table.len() ==> (#[trigger] table[j]).0 != quantity,
    ensures
        reading_of(table, quantity) is None,
    decreases table.len(),
{
    if table.len() > 0 {
        let rest = table.drop_first();
        assert(table[0].0 != quantity);
        assert forall|j: int| 0 <= j < rest.len() implies (#[trigger] rest[j]).0 != quantity by {
            assert(rest[j] == table[j + 1]);
        }
        lemma_no_reading(rest, quantity);
    }
}

/// The fields of a resistor are its resistance, package, tolerance and power, each
/// out of the first parameter that is named for it.
pub proof fn law_resistor_fields(
    parameters: Seq<(Seq<char>, Seq<char>)>,
    table: Table,
    k: int,
)
    ensures
        ({
            let tokens = tokens_of(PassiveKind::Res, parameters, table);
            let named = |words: Seq<Seq<char>>| is_first_named(parameters, k, words);
            &&& tokens.len() == 4
            &&& named(seq!["resistance"@]) ==> tokens[0] == carried_out(
                resistance_plan(parameters[k].1),
                table,
            )
            &&& named(seq!["package"@, "case"@]) ==> tokens[1] == package_token(parameters[k].1)
            &&& named(seq!["tolerance"@]) ==> tokens[2] == carried_out(
                tolerance_plan(parameters[k].1),
                table,
            )
            &&& named(seq!["power"@]) ==> tokens[3] == carried_out(
                power_plan(parameters[k].1),
                table,
            )
        }),
{
    law_param_named(parameters, k, seq!["resistance"@]);
    law_param_named(parameters, k, seq!["package"@, "case"@]);
    law_param_named(parameters, k, seq!["tolerance"@]);
    law_param_named(parameters, k, seq!["power"@]);
}

/// The fields of a capacitor are its capacitance, package, voltage, dielectric and
/// tolerance, each out of the first parameter that is named for it.
pub proof fn law_capacitor_fields(
    parameters: Seq<(Seq<char>, Seq<char>)>,
    table: Table,
    k: int,
)
    ensures
        ({
            let tokens = tokens_of(PassiveKind::Cap, parameters, table);
            let named = |words: Seq<Seq<char>>| is_first_named(parameters, k, words);
            &&& tokens.len() == 5
            &&& named(seq!["capacitance"@]) ==> tokens[0] == carried_out(
                capacitance_plan(parameters[k].1),
                table,
            )
            &&& named(seq!["package"@, "case"@]) ==> tokens[1] == package_token(parameters[k].1)
            &&& named(seq!["voltage"@]) ==> tokens[2] == carried_out(
                voltage_plan(parameters[k].1),
                table,
            )
            &&& named(seq!["dielectric"@, "temperature characteristic"@]) ==> tokens[3]
                == freeform(parameters[k].1)
            &&& named(seq!["tolerance"@]) ==> tokens[4] == carried_out(
                tolerance_plan(parameters[k].1),
                table,
            )
        }),
{
    law_param_named(parameters, k, seq!["capacitance"@]);
    law_param_named(parameters, k, seq!["package"@, "case"@]);
    law_param_named(parameters, k, seq!["voltage"@]);
    law_param_named(parameters, k, seq!["dielectric"@, "temperature characteristic"@]);
    law_param_named(parameters, k, seq!["tolerance"@]);
}

/// The fields of an inductor are its inductance, package, current, series
/// resistance and type, each out of the first parameter that is named for it. A
/// series resistance that speaks of thousands or millions of ohms has no field.
pub proof fn law_inductor_fields(
    parameters: Seq<(Seq<char>, Seq<char>)>,
    table: Table,
    k: int,
)
    ensures
        ({
            let tokens = tokens_of(PassiveKind::Ind, parameters, table);
            let named = |words: Seq<Seq<char>>| is_first_named(parameters, k, words);
            &&& tokens.len() == 5
            &&& named(seq!["inductance"@]) ==> tokens[0] == carried_out(
                inductance_plan(parameters[k].1),
                table,
            )
            &&& named(seq!["package"@, "case"@]) ==> tokens[1] == package_token(parameters[k].1)
            &&& named(seq!["current"@]) ==> tokens[2] == carried_out(
                current_plan(parameters[k].1),
                table,
            )
            &&& named(seq!["dcr"@, "dc resistance"@]) ==> (match carried_out(
                resistance_plan(parameters[k].1),
                table,
            ) {
                Some(token) => tokens[3] == if token.contains('K') || token.contains('M') {
                    None
                } else {
                    carried_out(milliohm_plan(parameters[k].1), table)
                },
                None => tokens[3] is None,
            })
            &&& named(seq!["type"@, "construction"@]) ==> (match construction(
                lower_text(parameters[k].1),
            ) {
                Some(word) => tokens[4] == Some(word),
                None => freeform(parameters[k].1) is Some ==> tokens[4] == freeform(
                    parameters[k].1,
                ),
            })
        }),
{
    law_param_named(parameters, k, seq!["inductance"@]);
    law_param_named(parameters, k, seq!["package"@, "case"@]);
    law_param_named(parameters, k, seq!["current"@]);
    law_param_named(parameters, k, seq!["dcr"@, "dc resistance"@]);
    law_param_named(parameters, k, seq!["type"@, "construction"@]);
}

/// The fields of a ferrite bead are its impedance, frequency, package and current.
/// What follows `@` in an impedance is its frequency, where no parameter is named
/// for that.
pub proof fn law_bead_fields(
    parameters: Seq<(Seq<char>, Seq<char>)>,
    table: Table,
    k: int,
    left: Seq<char>,
    right: Seq<char>,
)
    requires
        !left.contains('@'),
    ensures
        ({
            let tokens = tokens_of(PassiveKind::Fb, parameters, table);
            let named = |words: Seq<Seq<char>>| is_first_named(parameters, k, words);
            &&& tokens.len() == 4
            &&& named(seq!["impedance"@]) && parameters[k].1 == left ==> tokens[0] == carried_out(
                resistance_plan(left),
                table,
            )
            &&& named(seq!["impedance"@]) && parameters[k].1 == left + seq!['@'] + right
                ==> tokens[0] == carried_out(resistance_plan(left), table) && ((forall|j: int|
                !is_first_named(parameters, j, seq!["frequency"@])) ==> tokens[1] == carried_out(
                frequency_plan(right),
                table,
            ))
            &&& named(seq!["frequency"@]) ==> tokens[1] == carried_out(
                frequency_plan(parameters[k].1),
                table,
            )
            &&& named(seq!["package"@, "case"@]) ==> tokens[2] == package_token(parameters[k].1)
            &&& named(seq!["current"@]) ==> tokens[3] == carried_out(
                current_plan(parameters[k].1),
                table,
            )
        }),
{
    law_param_named(parameters, k, seq!["impedance"@]);
    law_param_named(parameters, k, seq!["frequency"@]);
    law_param_named(parameters, k, seq!["package"@, "case"@]);
    law_param_named(parameters, k, seq!["current"@]);
    crate::text_laws::law_cut(left, '@');
    let whole = left + seq!['@'] + right;
    let n = left.len();
    assert forall|i: int| 0 <= i < n implies whole[i] != '@' by {
        if whole[i] == '@' {
            assert(left[i] == '@');
        }
    }
    assert(whole[n as int] == '@');
    crate::text::lemma_find_is(whole, '@', n);
    assert(whole.take(n as int) =~= left);
    assert(whole.skip(n as int + 1) =~= right);
}

/// A name is given exactly where the kind is known, there is a part number and a
/// field, and the name is of plain characters.
pub proof fn law_name_given(
    designator: Seq<char>,
    parameters: Seq<(Seq<char>, Seq<char>)>,
    id: Seq<char>,
    table: Table,
    kind: PassiveKind,
    number: Seq<char>,
)
    requires
        kind_of(designator, parameters) == Some(kind),
        lcsc_id(id) == Some(number),
    ensures
        ({
            let fields = crate::passive_naming::joined_tokens(tokens_of(kind, parameters, table));
            let name = kind_prefix(kind) + fields + seq!['_'] + number;
            &&& fields.len() == 0 ==> passive_name(designator, parameters, Some(id), table) is None
            &&& fields.len() > 0 && crate::passive_naming::is_portable(name) ==> passive_name(
                designator,
                parameters,
                Some(id),
                table,
            ) == Some(name)
            &&& passive_name(designator, parameters, None, table) is None
        }),
{
    reveal_strlit("_");
    assert("_"@ =~= seq!['_']);
}

proof fn lemma_construction_found(parameters: Seq<(Seq<char>, Seq<char>)>, k: int)
    requires
        0 <= k < parameters.len(),
        construction(lower_text(parameters[k].0 + seq![' '] + parameters[k].1)) is Some,
        forall|j: int|
            0 <= j < k ==> construction(
                lower_text((#[trigger] parameters[j]).0 + seq![' '] + parameters[j].1),
            ) is None,
    ensures
        construction_in(parameters) == construction(
            lower_text(parameters[k].0 + seq![' '] + parameters[k].1),
        ),
    decreases parameters.len(),
{
    reveal_strlit(" ");
    assert(" "@ =~= seq![' ']);
    if k > 0 {
        let rest = parameters.drop_first();
        assert(construction(
            lower_text(parameters[0].0 + seq![' '] + parameters[0].1),
        ) is None);
        assert(rest[k - 1] == parameters[k]);
        assert forall|j: int| 0 <= j < k - 1 implies construction(
            lower_text((#[trigger] rest[j]).0 + seq![' '] + rest[j].1),
        ) is None by {
            assert(rest[j] == parameters[j + 1]);
        }
        lemma_construction_found(rest, k - 1);
    }
}

/// Where no parameter is named for the type of an inductor, the first parameter whose
/// name or value speaks of a construction gives it.
pub proof fn law_inductor_construction(
    parameters: Seq<(Seq<char>, Seq<char>)>,
    table: Table,
    k: int,
)
    requires
        forall|j: int| !is_first_named(parameters, j, seq!["type"@, "construction"@]),
        0 <= k < parameters.len(),
        construction(lower_text(parameters[k].0 + seq![' '] + parameters[k].1)) is Some,
        forall|j: int|
            0 <= j < k ==> construction(
                lower_text((#[trigger] parameters[j]).0 + seq![' '] + parameters[j].1),
            ) is None,
    ensures
        tokens_of(PassiveKind::Ind, parameters, table)[4] == construction(
            lower_text(parameters[k].0 + seq![' '] + parameters[k].1),
        ),
{
    law_param_named(parameters, 0, seq!["type"@, "construction"@]);
    lemma_construction_found(parameters, k);
}

} // verus!
