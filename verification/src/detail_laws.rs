//! What is said of footprints in words, dates and file names, whatever they are.

use vstd::prelude::*;
use crate::calendar::{clock_hour, date_text, is_date_of, law_dates_differ, time_text, two_digits};
use crate::footprint_text::{
    candidate_height, component_height, family_height, first_part, footprint_description,
    model_base, number_end, preferred_description, region_params, rotations_in, step_name,
    titled_height, DescriptionFields, HeightCandidate,
};
use crate::pcb_records::{
    count_of, file_name_param, library_params, models_stream, pcblib_header_stream, StepModel,
};
use crate::reals::Real;
use crate::text::{
    decimal, filled, has_part, has_suffix, is_digit, lower_text, part_from, split, trim,
    upper_text, with_char,
};
use crate::text_laws::{is_bare, law_part_from, law_trim};
use crate::wire::{le_bytes, short_string};

verus! {

// Descriptions

/// Of the parts of a text the first that is not blank is taken, trimmed.
pub proof fn law_first_part(parts: Seq<Seq<char>>, k: int)
    ensures
        0 <= k < parts.len() && trim(parts[k]).len() > 0 && (forall|j: int|
            0 <= j < k ==> trim(#[trigger] parts[j]).len() == 0) ==> first_part(parts) == Some(
            trim(parts[k]),
        ),
        (forall|j: int| 0 <= j < parts.len() ==> trim(#[trigger] parts[j]).len() == 0)
            ==> first_part(parts) is None,
    decreases parts.len(),
{
    if parts.len() > 0 {
        let rest = parts.drop_first();
        law_first_part(rest, k - 1);
        if 0 < k < parts.len() {
            assert(rest[k - 1] == parts[k]);
        }
        assert forall|j: int| 0 <= j < rest.len() implies #[trigger] rest[j] == parts[j + 1] by {}
    }
}

/// A footprint is described by its description, by the one around it where it has
/// none, and where that says nothing by the first of its titles and packages that
/// there is.
pub proof fn law_descriptions(fields: DescriptionFields)
    ensures
        ({
            let said = match fields.description {
                Some(text) => first_part(split(text@, ';')),
                None => match fields.outer_description {
                    Some(text) => first_part(split(text@, ';')),
                    None => None,
                },
            };
            let text = preferred_description(fields);
            &&& said is Some ==> text == said
            &&& said is None ==> {
                &&& fields.display_title matches Some(t) ==> text == Some(t@)
                &&& fields.display_title is None ==> {
                    &&& fields.outer_display_title matches Some(t) ==> text == Some(t@)
                    &&& fields.outer_display_title is None ==> {
                        &&& fields.package matches Some(t) ==> text == Some(t@)
                        &&& fields.package is None ==> {
                            &&& fields.outer_package matches Some(t) ==> text == Some(t@)
                            &&& fields.outer_package is None ==> text is None
                        }
                    }
                }
            }
        }),
{
}

/// A footprint has the description that its fields give, as far as 256 characters
/// go. Where they give none, or a blank one, it is described by its name.
pub proof fn law_description_text(fields: DescriptionFields, name: Seq<char>)
    ensures
        ({
            let text = footprint_description(fields, name);
            let said = preferred_description(fields);
            let named = "Generated from EasyEDA footprint ("@ + name + ")"@;
            &&& said is Some && trim(said->0).len() > 0 && said->0.len() <= 256 ==> text == said->0
            &&& said is Some && trim(said->0).len() > 0 && said->0.len() > 256 ==> text
                == said->0.take(256)
            &&& (said is None || trim(said->0).len() == 0) && named.len() <= 256 ==> text == named
            &&& (said is None || trim(said->0).len() == 0) && named.len() > 256 ==> text
                == named.take(256)
        }),
{
}

// Heights

proof fn lemma_number_end(text: Seq<char>, from: int, to: int)
    requires
        0 <= from <= to <= text.len(),
        forall|i: int| from <= i < to ==> (is_digit(#[trigger] text[i]) || text[i] == '.'),
        to < text.len() ==> !is_digit(text[to]) && text[to] != '.',
    ensures
        number_end(text, from) == to,
    decreases to - from,
{
    if from < to {
        assert(is_digit(text[from]) || text[from] == '.');
        lemma_number_end(text, from + 1, to);
    }
}

/// The height in a title is the number behind the first `-H`, or behind the first
/// `_H` where there is no `-H`, in whatever case: all digits and points there.
pub proof fn law_titled_height(title: Seq<char>, at: int, end: int)
    requires
        ({
            let bare = upper_text(trim(title));
            &&& part_from(bare, "-H"@, 0) == Some(at) || part_from(bare, "-H"@, 0) is None
                && part_from(bare, "_H"@, 0) == Some(at)
            &&& at + 2 <= end <= bare.len()
            &&& forall|i: int|
                at + 2 <= i < end ==> (is_digit(#[trigger] bare[i]) || bare[i] == '.')
            &&& end < bare.len() ==> !is_digit(bare[end]) && bare[end] != '.'
        }),
    ensures
        end > at + 2 ==> titled_height(title) == Some(
            upper_text(trim(title)).subrange(at + 2, end),
        ),
        end == at + 2 ==> titled_height(title) is None,
{
    let bare = upper_text(trim(title));
    law_part_from(bare, "-H"@, 0);
    law_part_from(bare, "_H"@, 0);
    lemma_number_end(bare, at + 2, end);
}

/// A title without either mark says no height.
pub proof fn law_untitled_height(title: Seq<char>)
    requires
        !has_part(upper_text(trim(title)), "-H"@),
        !has_part(upper_text(trim(title)), "_H"@),
    ensures
        titled_height(title) is None,
{
    law_part_from(upper_text(trim(title)), "-H"@, 0);
    law_part_from(upper_text(trim(title)), "_H"@, 0);
}

/// The family that a text speaks of, in whatever case, gives a height: 1 for flat
/// packages without leads, 1.2 for ball grids, 1.4 for flat packages with leads on
/// four sides, 1.6 for small outlines and 4 for dual in line, in this order.
pub proof fn law_family_heights(text: Seq<char>)
    ensures
        ({
            let name = upper_text(trim(text));
            let flat = has_part(name, "QFN"@) || has_part(name, "DFN"@) || has_part(name, "LGA"@);
            let small = has_part(name, "SOIC"@) || has_part(name, "SOP"@) || has_part(name, "SOT"@);
            let height = family_height(text);
            &&& flat ==> height == Some(Real { bits: 0x3ff0_0000_0000_0000 })
            &&& !flat && has_part(name, "BGA"@) ==> height == Some(
                Real { bits: 0x3ff3_3333_3333_3333 },
            )
            &&& !flat && !has_part(name, "BGA"@) && has_part(name, "QFP"@) ==> height == Some(
                Real { bits: 0x3ff6_6666_6666_6666 },
            )
            &&& !flat && !has_part(name, "BGA"@) && !has_part(name, "QFP"@) && small ==> height
                == Some(Real { bits: 0x3ff9_9999_9999_999a })
            &&& !flat && !has_part(name, "BGA"@) && !has_part(name, "QFP"@) && !small && has_part(
                name,
                "DIP"@,
            ) ==> height == Some(Real { bits: 0x4010_0000_0000_0000 })
            &&& !flat && !has_part(name, "BGA"@) && !has_part(name, "QFP"@) && !small && !has_part(
                name,
                "DIP"@,
            ) ==> height is None
        }),
{
}

/// Of the candidates for a height the first that says one decides: by its title, or
/// else by its family.
pub proof fn law_candidates_in_turn(candidates: Seq<HeightCandidate>, k: int)
    ensures
        0 <= k < candidates.len() && (candidates[k].titled is Some || family_height(
            candidates[k].text@,
        ) is Some) && (forall|j: int|
            0 <= j < k ==> (#[trigger] candidates[j]).titled is None && family_height(
                candidates[j].text@,
            ) is None) ==> candidate_height(candidates) == if candidates[k].titled is Some {
            candidates[k].titled
        } else {
            family_height(candidates[k].text@)
        },
        (forall|j: int|
            0 <= j < candidates.len() ==> (#[trigger] candidates[j]).titled is None && family_height(
                candidates[j].text@,
            ) is None) ==> candidate_height(candidates) is None,
    decreases candidates.len(),
{
    if candidates.len() > 0 {
        let rest = candidates.drop_first();
        law_candidates_in_turn(rest, k - 1);
        if 0 < k < candidates.len() {
            assert(rest[k - 1] == candidates[k]);
        }
        assert forall|j: int| 0 <= j < rest.len() implies #[trigger] rest[j] == candidates[j
            + 1] by {}
    }
}

/// A component is as high as its model where that has a height above next to nothing,
/// else as its candidates say, and else one millimeter.
pub proof fn law_component_height(model: Option<Real>, candidates: Seq<HeightCandidate>)
    ensures
        model is Some && (Real { bits: 0x3eb0_c6f7_a0b5_ed8d }).lt(model->0) ==> component_height(
            model,
            candidates,
        ) == model->0,
        (model is None || !(Real { bits: 0x3eb0_c6f7_a0b5_ed8d }).lt(model->0)) && candidate_height(
            candidates,
        ) is Some ==> component_height(model, candidates) == candidate_height(candidates)->0,
        (model is None || !(Real { bits: 0x3eb0_c6f7_a0b5_ed8d }).lt(model->0)) && candidate_height(
            candidates,
        ) is None ==> component_height(model, candidates).bits == 0x3ff0_0000_0000_0000,
{
}

// Models

/// The rotations of a model are the fourth, fifth and sixth of the numbers in a list
/// with commas. Blank places do not count, and a shorter list has none.
pub proof fn law_rotations(transform: Seq<char>)
    ensures
        ({
            let numbers = filled(split(transform, ','));
            &&& numbers.len() >= 6 ==> rotations_in(transform) == Some(
                (numbers[3], numbers[4], numbers[5]),
            )
            &&& numbers.len() < 6 ==> rotations_in(transform) is None
        }),
{
}

/// The file of a model is named after its title, white space around it aside, and
/// after the component where that is blank. An extension is added where there is
/// none.
pub proof fn law_model_names(name: Seq<char>, before: Seq<char>, title: Seq<char>, after: Seq<char>)
    requires
        crate::text_laws::all_white(before),
        is_bare(title),
        crate::text_laws::all_white(after),
    ensures
        title.len() > 0 ==> model_base(name, before + title + after) == title,
        title.len() == 0 ==> model_base(name, before + title + after) == name,
        has_suffix(lower_text(name), ".step"@) || has_suffix(lower_text(name), ".stp"@)
            ==> step_name(name) == name,
        !has_suffix(lower_text(name), ".step"@) && !has_suffix(lower_text(name), ".stp"@)
            ==> step_name(name) == name + seq!['.', 's', 't', 'e', 'p'],
{
    law_trim(before, title, after);
    reveal_strlit(".step");
    assert(".step"@ =~= seq!['.', 's', 't', 'e', 'p']);
}

/// A region that shows a pad says its layer, and for the rest what all of them say.
pub proof fn law_region_params(layer: Seq<char>)
    ensures
        region_params(layer).len() == 6,
        region_params(layer).contains(("V7_LAYER"@, layer)),
        region_params(layer).contains(("SUBPOLYINDEX"@, "-1"@)),
        region_params(layer).contains(("UNIONINDEX"@, "0"@)),
        region_params(layer).contains(("ARCRESOLUTION"@, "0.5mil"@)),
        region_params(layer).contains(("ISSHAPEBASED"@, "FALSE"@)),
        region_params(layer).contains(("CAVITYHEIGHT"@, "0mil"@)),
{
    let params = region_params(layer);
    assert(params[0] == ("V7_LAYER"@, layer));
    assert(params[1] == ("SUBPOLYINDEX"@, "-1"@));
    assert(params[2] == ("UNIONINDEX"@, "0"@));
    assert(params[3] == ("ARCRESOLUTION"@, "0.5mil"@));
    assert(params[4] == ("ISSHAPEBASED"@, "FALSE"@));
    assert(params[5] == ("CAVITYHEIGHT"@, "0mil"@));
}

// Dates

/// A date is written as its month, its day and its year, with slashes between them.
pub proof fn law_date_text(days: int, year: int, month: int, day: int)
    requires
        is_date_of(days, (year, month, day)),
    ensures
        date_text(days) == decimal(month as nat) + seq!['/'] + decimal(day as nat) + seq!['/']
            + decimal(year as nat),
{
    let chosen = choose|date: (int, int, int)| is_date_of(days, date);
    assert(is_date_of(days, chosen));
    law_dates_differ(year, month, day, chosen.0, chosen.1, chosen.2);
}

/// A time of day is written with an hour from 1 to 12, minutes and seconds, and the
/// half of the day: together they make up the seconds since midnight.
pub proof fn law_time_text(second_of_day: nat)
    requires
        second_of_day < 86_400,
    ensures
        exists|hour: nat, minute: nat, second: nat|
            1 <= hour <= 12 && minute < 60 && second < 60 && (second_of_day < 43_200
                && second_of_day == (hour % 12) * 3600 + minute * 60 + second && time_text(
                second_of_day,
            ) == #[trigger] decimal(hour) + seq![':'] + #[trigger] two_digits(minute) + seq![':']
                + #[trigger] two_digits(second) + seq![' ', 'A', 'M'] || second_of_day >= 43_200
                && second_of_day == 43_200 + (hour % 12) * 3600 + minute * 60 + second && time_text(
                second_of_day,
            ) == decimal(hour) + seq![':'] + two_digits(minute) + seq![':'] + two_digits(second)
                + seq![' ', 'P', 'M']),
{
    let hour = clock_hour(second_of_day / 3600);
    let minute = second_of_day / 60 % 60;
    let second = second_of_day % 60;
    reveal_strlit(" AM");
    reveal_strlit(" PM");
    assert(" AM"@ =~= seq![' ', 'A', 'M']);
    assert(" PM"@ =~= seq![' ', 'P', 'M']);
    assert(second_of_day / 60 == second_of_day / 3600 * 60 + minute);
    assert(second_of_day == second_of_day / 60 * 60 + second);
    let text = decimal(hour) + seq![':'] + two_digits(minute) + seq![':'] + two_digits(second);
    assert(second_of_day < 43_200 ==> time_text(second_of_day) == text + seq![' ', 'A', 'M']);
}

// Footprint libraries

/// The header of a footprint library is the length of its title, in four bytes, and
/// the title as a short string.
pub proof fn law_pcblib_title()
    ensures
        pcblib_header_stream() == le_bytes("PCB 6.0 Binary Library File"@.len() as u32)
            + short_string("PCB 6.0 Binary Library File"@),
{
    reveal_strlit("PCB 6.0 Binary Library File");
}

/// The entries of models stand behind each other, each with its length in front.
pub proof fn law_models_stream(a: Seq<StepModel>, b: Seq<StepModel>, model: StepModel)
    requires
        model.entry.len() <= i32::MAX,
    ensures
        models_stream(a + b) == models_stream(a) + models_stream(b),
        models_stream(seq![model]) == le_bytes(model.entry.len() as u32) + model.entry,
    decreases b.len(),
{
    reveal_with_fuel(models_stream, 2);
    assert(seq![model].drop_last() =~= Seq::<StepModel>::empty());
    assert(models_stream(seq![model].drop_last()) =~= Seq::<u8>::empty());
    let n = model.entry.len() as i32;
    assert(n >= 0 ==> (n as u32) as int == n as int) by (bit_vector);
    assert(models_stream(seq![model]) =~= le_bytes(model.entry.len() as u32) + model.entry);
    if b.len() > 0 {
        assert((a + b).drop_last() =~= a + b.drop_last());
        law_models_stream(a, b.drop_last(), model);
        assert(models_stream(a + b) =~= models_stream(a) + models_stream(b));
    } else {
        assert(a + b =~= a);
        assert(models_stream(a) + models_stream(b) =~= models_stream(a));
    }
}

/// A count below zero means none.
pub proof fn law_count_of(value: i32)
    ensures
        value >= 0 ==> count_of(value) == value,
        value < 0 ==> count_of(value) == 0,
{
}

/// A library carries the name of its file with backslashes, without the prefix of
/// extended paths.
pub proof fn law_file_names(path: Seq<char>, i: int)
    requires
        path.len() < 4 || !(path[0] == '/' || path[0] == '\\') || !(path[1] == '/' || path[1]
            == '\\') || path[2] != '?' || !(path[3] == '/' || path[3] == '\\'),
    ensures
        file_name_param(path).len() == path.len(),
        0 <= i < path.len() && path[i] == '/' ==> file_name_param(path)[i] == '\\',
        0 <= i < path.len() && path[i] != '/' ==> file_name_param(path)[i] == path[i],
        !(path.len() >= 4 && path[0] == '\\' && path[1] == '\\' && path[2] == '?' && path[3]
            == '\\') ==> file_name_param(seq!['\\', '\\', '?', '\\'] + path) == file_name_param(
            path,
        ),
{
    reveal_strlit("\\\\?\\");
    let prefix = "\\\\?\\"@;
    assert(prefix =~= seq!['\\', '\\', '?', '\\']);
    let name = with_char(path, '/', '\\');
    if prefix.is_prefix_of(name) {
        assert(name[0] == prefix[0] && name[1] == prefix[1] && name[2] == prefix[2] && name[3]
            == prefix[3]);
    }
    let long = seq!['\\', '\\', '?', '\\'] + path;
    let full = with_char(long, '/', '\\');
    assert(full.take(4) =~= prefix);
    assert(full.skip(4) =~= name);
}

/// The parameters of a library are its template with the name of the file, the date
/// and the time in their places. A template without places stays as it is.
pub proof fn law_library_params(
    template: Seq<char>,
    path: Seq<char>,
    date: Seq<char>,
    time: Seq<char>,
)
    ensures
        !has_part(template, "__FILE__"@) && !has_part(template, "__DATE__"@) && !has_part(
            template,
            "__TIME__"@,
        ) ==> library_params(template, path, date, time) == template,
{
    reveal_strlit("__FILE__");
    reveal_strlit("__DATE__");
    reveal_strlit("__TIME__");
    if !has_part(template, "__FILE__"@) && !has_part(template, "__DATE__"@) && !has_part(
        template,
        "__TIME__"@,
    ) {
        law_part_from(template, "__FILE__"@, 0);
        law_part_from(template, "__DATE__"@, 0);
        law_part_from(template, "__TIME__"@, 0);
        crate::text_laws::law_replaced(template, "__FILE__"@, file_name_param(path));
        crate::text_laws::law_replaced(template, "__DATE__"@, date);
        crate::text_laws::law_replaced(template, "__TIME__"@, time);
    }
}

} // verus!
