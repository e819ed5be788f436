//! What is said of a footprint: its description, its height, its model.

use vstd::prelude::*;
use crate::params::{pair_views, Pair};
use crate::reals::{Real, MILLIONTH_BITS, ONE_BITS};
use crate::schlib::optional;
use crate::text::{
    char_is_digit, chars_of, filled, filled_parts, find_part, has_part, has_suffix, is_digit, lower_text, lowercased,
    part_from, split, split_text, text_ends_with, text_has_part, text_of, trim, trimmed,
    upper_text, uppercased, views,
};

verus! {

// Descriptions

/// How long the description of a footprint may be.
pub const DESCRIPTION_MAX_CHARS: usize = 256;

/// The first of `parts` that is not blank, trimmed.
pub open spec fn first_part(parts: Seq<Seq<char>>) -> Option<Seq<char>>
    decreases parts.len(),
{
    if parts.len() == 0 {
        None
    } else if trim(parts[0]).len() > 0 {
        Some(trim(parts[0]))
    } else {
        first_part(parts.drop_first())
    }
}

/// The first part of a description, between semicolons, that is not blank.
pub fn normalize_footprint_description(text: &str) -> (r: Option<String>)
    ensures
        optional(r) == first_part(split(text@, ';')),
{
    let parts = split_text(text, ';');
    let ghost all = split(text@, ';');
    let mut i: usize = 0;
    assert(all.skip(0) =~= all);
    while i < parts.len()
        invariant
            i <= parts@.len(),
            views(parts@) == all,
            all == split(text@, ';'),
            first_part(all) == first_part(all.skip(i as int)),
        decreases parts.len() - i,
    {
        assert(all.skip(i as int)[0] == parts@[i as int]@);
        assert(all.skip(i as int).drop_first() =~= all.skip(i + 1));
        let part = trimmed(parts[i].as_str());
        if !part.as_str().is_empty() {
            return Some(part);
        }
        i += 1;
    }
    assert(views(parts@).len() == parts@.len());
    None
}

/// The first `max_chars` characters of a text.
pub open spec fn shortened(text: Seq<char>, max_chars: nat) -> Seq<char> {
    if text.len() <= max_chars {
        text
    } else {
        text.take(max_chars as int)
    }
}

pub fn truncate_to_char_boundary(s: &str, max_chars: usize) -> (r: String)
    ensures
        r@ == shortened(s@, max_chars as nat),
{
    let chars = chars_of(s);
    if chars.len() <= max_chars {
        return s.to_owned();
    }
    let r = text_of(chars.as_slice(), 0, max_chars);
    assert(r@ =~= shortened(s@, max_chars as nat));
    r
}

/// A shortened text is no longer than asked for, starts as the text does, and is
/// the text itself where that is short enough.
pub proof fn law_shortened(text: Seq<char>, max_chars: nat)
    ensures
        shortened(text, max_chars).len() <= max_chars,
        shortened(text, max_chars).is_prefix_of(text),
        text.len() <= max_chars ==> shortened(text, max_chars) == text,
        shortened(shortened(text, max_chars), max_chars) == shortened(text, max_chars),
{
}

/// The fields of a footprint that may describe it. Each is looked for in two places.
#[derive(Debug)]
pub struct DescriptionFields {
    pub description: Option<String>,
    pub outer_description: Option<String>,
    pub display_title: Option<String>,
    pub outer_display_title: Option<String>,
    pub package: Option<String>,
    pub outer_package: Option<String>,
}

/// `first`, or else `second`.
pub open spec fn either(first: Option<Seq<char>>, second: Option<Seq<char>>) -> Option<Seq<char>> {
    if first is Some {
        first
    } else {
        second
    }
}

/// The text that describes a footprint best, if there is any.
pub open spec fn preferred_description(fields: DescriptionFields) -> Option<Seq<char>> {
    let said = match either(optional(fields.description), optional(fields.outer_description)) {
        Some(text) => first_part(split(text, ';')),
        None => None,
    };
    either(
        said,
        either(
            optional(fields.display_title),
            either(
                optional(fields.outer_display_title),
                either(optional(fields.package), optional(fields.outer_package)),
            ),
        ),
    )
}

/// The description of a footprint that goes by a name.
pub open spec fn footprint_description(fields: DescriptionFields, name: Seq<char>) -> Seq<char> {
    let generated = "Generated from EasyEDA footprint ("@ + name + ")"@;
    shortened(
        match preferred_description(fields) {
            Some(text) => if trim(text).len() > 0 {
                text
            } else {
                generated
            },
            None => generated,
        },
        DESCRIPTION_MAX_CHARS as nat,
    )
}

fn first_of(first: Option<String>, second: Option<String>) -> (r: Option<String>)
    ensures
        optional(r) == either(optional(first), optional(second)),
{
    match first {
        Some(text) => Some(text),
        None => second,
    }
}

pub fn resolve_footprint_description(fields: DescriptionFields, component_name: &str) -> (r: String)
    ensures
        r@ == footprint_description(fields, component_name@),
{
    let said = match first_of(fields.description, fields.outer_description) {
        Some(text) => normalize_footprint_description(text.as_str()),
        None => None,
    };
    let package = first_of(fields.package, fields.outer_package);
    let outer = first_of(fields.outer_display_title, package);
    let title = first_of(fields.display_title, outer);
    if let Some(text) = first_of(said, title) {
        let bare = trimmed(text.as_str());
        if !bare.as_str().is_empty() {
            return truncate_to_char_boundary(text.as_str(), DESCRIPTION_MAX_CHARS);
        }
    }
    let mut generated = "Generated from EasyEDA footprint (".to_owned();
    generated.append(component_name);
    generated.append(")");
    truncate_to_char_boundary(generated.as_str(), DESCRIPTION_MAX_CHARS)
}

/// A footprint is always described, and not at length.
pub proof fn law_description_length(fields: DescriptionFields, name: Seq<char>)
    ensures
        0 < footprint_description(fields, name).len() <= DESCRIPTION_MAX_CHARS,
{
    reveal_strlit("Generated from EasyEDA footprint (");
    if let Some(text) = preferred_description(fields) {
        if text.len() == 0 {
            assert(trim(text) == text);
        }
    }
}

// Heights

/// Where the number that starts at `at` ends: behind its digits and points.
pub open spec fn number_end(text: Seq<char>, at: int) -> int
    decreases text.len() - at,
{
    if 0 <= at < text.len() && (is_digit(text[at]) || text[at] == '.') {
        number_end(text, at + 1)
    } else {
        at
    }
}

proof fn lemma_number_end(text: Seq<char>, at: int)
    requires
        0 <= at <= text.len(),
    ensures
        at <= number_end(text, at) <= text.len(),
    decreases text.len() - at,
{
    if at < text.len() && (is_digit(text[at]) || text[at] == '.') {
        lemma_number_end(text, at + 1);
    }
}

/// Where the height in a title starts: behind a mark for it.
pub open spec fn height_start(title: Seq<char>) -> Option<int> {
    match part_from(title, "-H"@, 0) {
        Some(at) => Some(at + 2),
        None => match part_from(title, "_H"@, 0) {
            Some(at) => Some(at + 2),
            None => None,
        },
    }
}

/// The digits and points of the height that a title says.
pub open spec fn titled_height(title: Seq<char>) -> Option<Seq<char>> {
    let bare = upper_text(trim(title));
    match height_start(bare) {
        Some(start) => if number_end(bare, start) > start {
            Some(bare.subrange(start, number_end(bare, start)))
        } else {
            None
        },
        None => None,
    }
}

proof fn lemma_part_from(text: Seq<char>, pattern: Seq<char>, i: int)
    requires
        0 <= i,
    ensures
        part_from(text, pattern, i) matches Some(at) ==> i <= at <= text.len() - pattern.len(),
    decreases text.len() + 1 - i,
{
    if i <= text.len() - pattern.len() {
        lemma_part_from(text, pattern, i + 1);
    }
}

pub fn height_text(title: &str) -> (r: Option<String>)
    ensures
        optional(r) == titled_height(title@),
{
    let trimmed_title = trimmed(title);
    let upper = uppercased(trimmed_title.as_str());
    let chars = chars_of(upper.as_str());
    let count: usize = chars.len();
    proof {
        assert(upper@.len() == count);
        reveal_strlit("-H");
        reveal_strlit("_H");
        assert("-H"@.len() == 2 && "_H"@.len() == 2);
        lemma_part_from(upper@, "-H"@, 0);
        lemma_part_from(upper@, "_H"@, 0);
    }
    let start: usize = match find_part(chars.as_slice(), "-H") {
        Some(at) => at + 2,
        None => match find_part(chars.as_slice(), "_H") {
            Some(at) => at + 2,
            None => {
                return None;
            },
        },
    };
    let mut end: usize = start;
    while end < count && (char_is_digit(chars[end]) || chars[end] == '.')
        invariant
            start <= end <= count,
            count == chars@.len(),
            chars@ == upper@,
            number_end(upper@, start as int) == number_end(upper@, end as int),
        decreases count - end,
    {
        end += 1;
    }
    if end > start {
        Some(text_of(chars.as_slice(), start, end))
    } else {
        None
    }
}

/// 1.2
pub const HEIGHT_BGA_BITS: u64 = 0x3ff3_3333_3333_3333;

/// 1.4
pub const HEIGHT_QFP_BITS: u64 = 0x3ff6_6666_6666_6666;

/// 1.6
pub const HEIGHT_SO_BITS: u64 = 0x3ff9_9999_9999_999a;

/// 4.0
pub const HEIGHT_DIP_BITS: u64 = 0x4010_0000_0000_0000;

/// How high, in millimeters, the packages of a family are.
pub open spec fn family_height(text: Seq<char>) -> Option<Real> {
    let name = upper_text(trim(text));
    if has_part(name, "QFN"@) || has_part(name, "DFN"@) || has_part(name, "LGA"@) {
        Some(Real { bits: ONE_BITS })
    } else if has_part(name, "BGA"@) {
        Some(Real { bits: HEIGHT_BGA_BITS })
    } else if has_part(name, "QFP"@) {
        Some(Real { bits: HEIGHT_QFP_BITS })
    } else if has_part(name, "SOIC"@) || has_part(name, "SOP"@) || has_part(name, "SOT"@) {
        Some(Real { bits: HEIGHT_SO_BITS })
    } else if has_part(name, "DIP"@) {
        Some(Real { bits: HEIGHT_DIP_BITS })
    } else {
        None
    }
}

/// The families `TQFP` and `LQFP` are among `QFP`, and `SSOP`, `TSSOP` and
/// `MSOP` among `SOP`.
pub fn guess_package_family_height(text: &str) -> (r: Option<Real>)
    ensures
        r == family_height(text@),
{
    let bare = trimmed(text);
    let name = uppercased(bare.as_str());
    let name = name.as_str();
    if text_has_part(name, "QFN") || text_has_part(name, "DFN") || text_has_part(name, "LGA") {
        Some(Real::new(ONE_BITS))
    } else if text_has_part(name, "BGA") {
        Some(Real::new(HEIGHT_BGA_BITS))
    } else if text_has_part(name, "QFP") {
        Some(Real::new(HEIGHT_QFP_BITS))
    } else if text_has_part(name, "SOIC") || text_has_part(name, "SOP") || text_has_part(
        name,
        "SOT",
    ) {
        Some(Real::new(HEIGHT_SO_BITS))
    } else if text_has_part(name, "DIP") {
        Some(Real::new(HEIGHT_DIP_BITS))
    } else {
        None
    }
}

/// A text that may say how high a component is, with the height that it says
/// outright, if it does.
#[derive(Debug)]
pub struct HeightCandidate {
    pub text: String,
    pub titled: Option<Real>,
}

/// The height that the first candidate says that says any.
pub open spec fn candidate_height(candidates: Seq<HeightCandidate>) -> Option<Real>
    decreases candidates.len(),
{
    if candidates.len() == 0 {
        None
    } else if candidates[0].titled is Some {
        candidates[0].titled
    } else if family_height(candidates[0].text@) is Some {
        family_height(candidates[0].text@)
    } else {
        candidate_height(candidates.drop_first())
    }
}

/// The height of a component: that of its model, or the first that a candidate
/// says, or one millimeter.
pub open spec fn component_height(model: Option<Real>, candidates: Seq<HeightCandidate>) -> Real {
    let said = match candidate_height(candidates) {
        Some(height) => height,
        None => Real { bits: ONE_BITS },
    };
    match model {
        Some(height) => if (Real { bits: MILLIONTH_BITS }).lt(height) {
            height
        } else {
            said
        },
        None => said,
    }
}

pub fn resolve_component_height(model: Option<Real>, candidates: &Vec<HeightCandidate>) -> (r: Real)
    ensures
        r == component_height(model, candidates@),
{
    if let Some(height) = model {
        if Real::new(MILLIONTH_BITS).is_less(height) {
            return height;
        }
    }
    let mut i: usize = 0;
    assert(candidates@.skip(0) =~= candidates@);
    while i < candidates.len()
        invariant
            i <= candidates@.len(),
            candidate_height(candidates@) == candidate_height(candidates@.skip(i as int)),
            component_height(model, candidates@) == match candidate_height(candidates@) {
                Some(height) => height,
                None => Real { bits: ONE_BITS },
            },
        decreases candidates.len() - i,
    {
        assert(candidates@.skip(i as int)[0] == candidates@[i as int]);
        assert(candidates@.skip(i as int).drop_first() =~= candidates@.skip(i + 1));
        if let Some(height) = candidates[i].titled {
            return height;
        }
        if let Some(height) = guess_package_family_height(candidates[i].text.as_str()) {
            return height;
        }
        i += 1;
    }
    Real::new(ONE_BITS)
}

// Models

/// Where the model of a component is to be had, and its title.
#[derive(Debug)]
pub struct ModelLink {
    pub uri: String,
    pub title: String,
    /// The rotations about the three axes, where they are said.
    pub rotations: Option<(String, String, String)>,
}

/// The rotations in a list of at least six numbers.
pub open spec fn rotations_in(transform: Seq<char>) -> Option<(Seq<char>, Seq<char>, Seq<char>)> {
    let parts = filled(split(transform, ','));
    if parts.len() >= 6 {
        Some((parts[3], parts[4], parts[5]))
    } else {
        None
    }
}

pub open spec fn rotation_views(rotations: Option<(String, String, String)>) -> Option<
    (Seq<char>, Seq<char>, Seq<char>),
> {
    match rotations {
        Some((x, y, z)) => Some((x@, y@, z@)),
        None => None,
    }
}

fn transform_rotations(transform: &str) -> (r: Option<(String, String, String)>)
    ensures
        rotation_views(r) == rotations_in(transform@),
{
    let parts = filled_parts(&split_text(transform, ','));
    assert(views(parts@).len() == parts@.len());
    if parts.len() >= 6 {
        assert(views(parts@)[3] == parts@[3]@);
        assert(views(parts@)[4] == parts@[4]@);
        assert(views(parts@)[5] == parts@[5]@);
        Some((parts[3].clone(), parts[4].clone(), parts[5].clone()))
    } else {
        None
    }
}

/// The link to the model of a component, where it has one.
pub fn parse_model_link(uri: Option<&str>, title: Option<&str>, transform: Option<&str>) -> (r:
    Option<ModelLink>)
    ensures
        match r {
            Some(link) => {
                &&& uri matches Some(uri) && trim(uri@).len() > 0 && link.uri@ == trim(uri@)
                &&& link.title@ == match title {
                    Some(title) => title@,
                    None => ""@,
                }
                &&& rotation_views(link.rotations) == rotations_in(
                    match transform {
                        Some(transform) => transform@,
                        None => ""@,
                    },
                )
            },
            None => uri matches Some(uri) ==> trim(uri@).len() == 0,
        },
{
    let bare = match uri {
        Some(uri) => trimmed(uri),
        None => {
            return None;
        },
    };
    if bare.as_str().is_empty() {
        return None;
    }
    let title = match title {
        Some(title) => title,
        None => "",
    };
    let transform = match transform {
        Some(transform) => transform,
        None => "",
    };
    Some(
        ModelLink {
            uri: bare,
            title: title.to_owned(),
            rotations: transform_rotations(transform),
        },
    )
}

/// What the file of a model is named after: its title, or the component.
pub open spec fn model_base(component_name: Seq<char>, title: Seq<char>) -> Seq<char> {
    if trim(title).len() == 0 {
        component_name
    } else {
        trim(title)
    }
}

pub fn step_model_base(component_name: &str, title: &str) -> (r: String)
    ensures
        r@ == model_base(component_name@, title@),
{
    let bare = trimmed(title);
    if bare.as_str().is_empty() {
        component_name.to_owned()
    } else {
        bare
    }
}

/// A file name with an extension for models, which is added where there is none.
pub open spec fn step_name(base: Seq<char>) -> Seq<char> {
    let lower = lower_text(base);
    if has_suffix(lower, ".step"@) || has_suffix(lower, ".stp"@) {
        base
    } else {
        base + ".step"@
    }
}

pub fn choose_step_model_name(base: &str) -> (r: String)
    ensures
        r@ == step_name(base@),
{
    let lower = lowercased(base);
    let mut name = base.to_owned();
    if !text_ends_with(lower.as_str(), ".step") && !text_ends_with(lower.as_str(), ".stp") {
        name.append(".step");
    }
    name
}

/// The name of a model has its extension, and choosing it again changes nothing.
pub proof fn law_step_name(base: Seq<char>)
    ensures
        has_suffix(lower_text(step_name(base)), ".step"@) || has_suffix(
            lower_text(step_name(base)),
            ".stp"@,
        ),
        step_name(step_name(base)) == step_name(base),
{
    reveal_strlit(".step");
    let lower = lower_text(base);
    if !has_suffix(lower, ".step"@) && !has_suffix(lower, ".stp"@) {
        let named = lower_text(base + ".step"@);
        assert(named =~= lower + ".step"@);
        assert(named.subrange(lower.len() as int, named.len() as int) =~= ".step"@);
    }
}

// Regions

/// What is said, beside its outline, of a region that shows the shape of a pad.
pub open spec fn region_params(v7_layer: Seq<char>) -> Seq<Pair> {
    seq![
        ("V7_LAYER"@, v7_layer),
        ("SUBPOLYINDEX"@, "-1"@),
        ("UNIONINDEX"@, "0"@),
        ("ARCRESOLUTION"@, "0.5mil"@),
        ("ISSHAPEBASED"@, "FALSE"@),
        ("CAVITYHEIGHT"@, "0mil"@),
    ]
}

pub fn pad_shape_region_params(v7_layer: &str) -> (r: Vec<(String, String)>)
    ensures
        pair_views(r@) == region_params(v7_layer@),
{
    let mut params: Vec<(String, String)> = Vec::new();
    params.push(("V7_LAYER".to_owned(), v7_layer.to_owned()));
    params.push(("SUBPOLYINDEX".to_owned(), "-1".to_owned()));
    params.push(("UNIONINDEX".to_owned(), "0".to_owned()));
    params.push(("ARCRESOLUTION".to_owned(), "0.5mil".to_owned()));
    params.push(("ISSHAPEBASED".to_owned(), "FALSE".to_owned()));
    params.push(("CAVITYHEIGHT".to_owned(), "0mil".to_owned()));
    assert(pair_views(params@) =~= region_params(v7_layer@));
    params
}

} // verus!
