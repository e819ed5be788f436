//! What a footprint is made of, whatever its drawing is.

use vstd::prelude::*;
use crate::footprint::{graphic_layer, mask_layers, pad_shape, Draft, Figure, PadSketch};
use crate::footprint_parts::{
    all_openings, all_pads, all_regions, area_plans, body_extents, body_outline, circle_arcs,
    closed, counts, draft_reach, drawn_regions, extents_of, first_opening, hole_plans, hole_tracks,
    is_component, is_library, is_opening_info, is_pad, is_region, is_through, line_tracks, markers,
    mask_plans, mended_sides, outline_plans, pad_outline, pad_plan, pad_reach, part_arcs, settles,
    through_plans, without_repeats, FootprintPlan, Measure, MeasuredDraft, MeasuredPad, Pad, PadGeometry,
    PathMeasure, RawExtents, RawPoint,
};
use crate::footprint_text::region_params;
use crate::params::pair_views;
use crate::pcblib::{CoordPoint, PcbComponent, PcbLibrary};
use crate::reals::{zero, Real};
use crate::text::same_but_case;

verus! {

// Lines

/// Whether a figure is drawn as lines along its points: a line, a box, or a path
/// with as many points as it needs.
pub open spec fn is_line(draft: Draft, m: Measure) -> bool {
    &&& draft.role is Stroke
    &&& match draft.figure {
        Figure::Segment { x1, y1, x2, y2 } => true,
        Figure::Frame { x1, y1, x2, y2 } => true,
        Figure::Path { steps, least } => m.points@.len() >= least,
        Figure::Circle(circle) => false,
        Figure::Arc { circle, start, end } => false,
    }
}

/// How many tracks the lines among the first `n` figures take: one less than they
/// have points, each.
pub open spec fn line_count(drafts: Seq<MeasuredDraft>, n: int) -> nat
    decreases n,
{
    if n <= 0 {
        0
    } else if is_line(drafts[n - 1].0, drafts[n - 1].1) && drafts[n - 1].1.points@.len() > 0 {
        (line_count(drafts, n - 1) + drafts[n - 1].1.points@.len() - 1) as nat
    } else {
        line_count(drafts, n - 1)
    }
}

/// Whether a figure is an alignment hole: a filled circle through all layers that
/// is marked.
pub open spec fn is_hole(draft: Draft, m: Measure) -> bool {
    draft.role is Fill && draft.layer_code == 12 && draft.figure is Circle && m.is_marked
}

/// How many alignment holes are among the first `n` figures.
pub open spec fn hole_count(drafts: Seq<MeasuredDraft>, n: int) -> nat
    decreases n,
{
    if n <= 0 {
        0
    } else if is_hole(drafts[n - 1].0, drafts[n - 1].1) {
        hole_count(drafts, n - 1) + 1
    } else {
        hole_count(drafts, n - 1)
    }
}

/// How many tracks go around the alignment holes among the first `n` figures: two
/// rings around each.
pub open spec fn ring_count(drafts: Seq<MeasuredDraft>, n: int) -> nat
    decreases n,
{
    if n <= 0 {
        0
    } else if is_hole(drafts[n - 1].0, drafts[n - 1].1) && drafts[n - 1].1.ring@.len() >= 2 {
        ring_count(drafts, n - 1) + 2 * drafts[n - 1].1.ring@.len()
    } else {
        ring_count(drafts, n - 1)
    }
}

/// The width that is drawn with: that of the line, or 1.9685 mil where it has none.
pub open spec fn drawn_width(width_raw: i32) -> i32 {
    if width_raw == 0 {
        19_685
    } else {
        width_raw
    }
}

proof fn lemma_lines(drafts: Seq<MeasuredDraft>, n: int, d: int, i: int)
    requires
        0 <= n <= drafts.len(),
    ensures
        line_tracks(drafts, n).len() == line_count(drafts, n),
        0 <= d < n && is_line(drafts[d].0, drafts[d].1) && 0 <= i < drafts[d].1.points@.len() - 1
            ==> ({
            let t = line_tracks(drafts, n)[line_count(drafts, d) + i];
            let points = drafts[d].1.points@;
            &&& line_count(drafts, d) + i < line_count(drafts, n)
            &&& t.start == points[i]
            &&& t.end == points[i + 1]
            &&& t.layer == graphic_layer(drafts[d].0.layer_code)
            &&& t.width_raw == drawn_width(drafts[d].1.width_raw)
            &&& !t.is_locked && !t.is_keepout && !t.is_tenting_top && !t.is_tenting_bottom
            &&& t.net_index == 0 && t.component_index == 0
        }),
    decreases n,
{
    if n > 0 {
        lemma_lines(drafts, n - 1, d, i);
        let before = line_tracks(drafts, n - 1);
        let (draft, m) = drafts[n - 1];
        if is_line(draft, m) {
            assert(counts(draft, m));
        }
    }
}

proof fn lemma_rings(drafts: Seq<MeasuredDraft>, n: int, d: int, i: int)
    requires
        0 <= n <= drafts.len(),
    ensures
        hole_tracks(drafts, n).len() == ring_count(drafts, n),
        0 <= d < n && is_hole(drafts[d].0, drafts[d].1) && 0 <= i < drafts[d].1.ring@.len()
            && drafts[d].1.ring@.len() >= 2 ==> ({
            let ring = drafts[d].1.ring@;
            let over = hole_tracks(drafts, n)[ring_count(drafts, d) + i];
            let under = hole_tracks(drafts, n)[ring_count(drafts, d) + ring.len() + i];
            &&& ring_count(drafts, d) + ring.len() + i < ring_count(drafts, n)
            &&& over.start == ring[i] && under.start == ring[i]
            &&& i + 1 < ring.len() ==> over.end == ring[i + 1] && under.end == ring[i + 1]
            &&& i + 1 == ring.len() ==> over.end == ring[0] && under.end == ring[0]
            &&& over.layer == 33 && under.layer == 57
            &&& over.width_raw >= 19_685
            &&& drafts[d].1.width_raw > 19_685 ==> over.width_raw == drafts[d].1.width_raw
            &&& under.width_raw == over.width_raw
        }),
    decreases n,
{
    if n > 0 {
        lemma_rings(drafts, n - 1, d, i);
        let (draft, m) = drafts[n - 1];
        if is_hole(draft, m) {
            assert(is_through(draft));
        }
    }
}

/// A footprint has the tracks of its lines and of the rings around its alignment
/// holes, and no others.
pub proof fn law_track_count(component: PcbComponent, plan: FootprintPlan)
    requires
        is_component(component, plan),
    ensures
        component.tracks@.len() == ring_count(plan.drafts@, plan.drafts@.len() as int) + line_count(
            plan.drafts@,
            plan.drafts@.len() as int,
        ),
{
    let drafts = plan.drafts@;
    lemma_lines(drafts, drafts.len() as int, 0, 0);
    lemma_rings(drafts, drafts.len() as int, 0, 0);
}

/// Each line, box or path is drawn by tracks in a row, on its layer and with its
/// width: the track at place `i` goes from the point at place `i` to the next one.
pub proof fn law_lines_drawn(component: PcbComponent, plan: FootprintPlan, d: int, i: int)
    requires
        is_component(component, plan),
        0 <= d < plan.drafts@.len(),
        is_line(plan.drafts@[d].0, plan.drafts@[d].1),
        0 <= i < plan.drafts@[d].1.points@.len() - 1,
    ensures
        ({
            let drafts = plan.drafts@;
            let points = drafts[d].1.points@;
            let at = ring_count(drafts, drafts.len() as int) + line_count(drafts, d);
            &&& at + points.len() - 1 <= component.tracks@.len()
            &&& component.tracks@[at + i].start == points[i]
            &&& component.tracks@[at + i].end == points[i + 1]
            &&& component.tracks@[at + i].layer == graphic_layer(drafts[d].0.layer_code)
            &&& component.tracks@[at + i].width_raw == drawn_width(drafts[d].1.width_raw)
            &&& !component.tracks@[at + i].is_locked && !component.tracks@[at + i].is_keepout
        }),
{
    let drafts = plan.drafts@;
    let n = drafts.len() as int;
    let points = drafts[d].1.points@;
    lemma_lines(drafts, n, d, i);
    lemma_lines(drafts, n, d, points.len() - 2);
    lemma_rings(drafts, n, 0, 0);
    let at = ring_count(drafts, n) + line_count(drafts, d);
    assert(component.tracks@[at + i] == line_tracks(drafts, n)[line_count(drafts, d) + i]);
}

/// The tracks of a line join: each starts where the one before it ends, the first
/// at the first point, and the last ends at the last point.
pub proof fn law_lines_join(component: PcbComponent, plan: FootprintPlan, d: int)
    requires
        is_component(component, plan),
        0 <= d < plan.drafts@.len(),
        is_line(plan.drafts@[d].0, plan.drafts@[d].1),
        plan.drafts@[d].1.points@.len() >= 2,
    ensures
        ({
            let drafts = plan.drafts@;
            let points = drafts[d].1.points@;
            let n = points.len() - 1;
            let at = ring_count(drafts, drafts.len() as int) + line_count(drafts, d);
            let tracks = component.tracks@.skip(at as int).take(n);
            &&& tracks.len() == n
            &&& tracks[0].start == points[0]
            &&& tracks[n - 1].end == points[n]
            &&& forall|i: int|
                0 <= i < n - 1 ==> (#[trigger] tracks[i]).end == tracks[i + 1].start
        }),
{
    let drafts = plan.drafts@;
    let points = drafts[d].1.points@;
    let n = points.len() - 1;
    let at = ring_count(drafts, drafts.len() as int) + line_count(drafts, d);
    let tracks = component.tracks@.skip(at as int).take(n);
    law_lines_drawn(component, plan, d, 0);
    law_lines_drawn(component, plan, d, n - 1);
    assert forall|i: int| 0 <= i < n - 1 implies (#[trigger] tracks[i]).end == tracks[i
        + 1].start by {
        law_lines_drawn(component, plan, d, i);
        law_lines_drawn(component, plan, d, i + 1);
    }
}

/// Each alignment hole is a pad without a designator in its center: a round hole as
/// wide as the pad, through all layers and not plated.
pub proof fn law_holes_drilled(component: PcbComponent, plan: FootprintPlan, d: int)
    requires
        is_component(component, plan),
        0 <= d < plan.drafts@.len(),
        is_hole(plan.drafts@[d].0, plan.drafts@[d].1),
    ensures
        ({
            let drafts = plan.drafts@;
            let m = drafts[d].1;
            let at = plan.pads@.len() + hole_count(drafts, d);
            &&& at < component.pads@.len()
            &&& component.pads@[at as int].designator@.len() == 0
            &&& component.pads@[at as int].location == m.center
            &&& component.pads@[at as int].hole_size_raw == m.diameter_raw
            &&& component.pads@[at as int].size_top == (CoordPoint {
                x: m.diameter_raw,
                y: m.diameter_raw,
            })
            &&& component.pads@[at as int].size_bottom == component.pads@[at as int].size_top
            &&& component.pads@[at as int].size_middle == component.pads@[at as int].size_top
            &&& !component.pads@[at as int].is_plated
            &&& component.pads@[at as int].layer == 74
            &&& component.pads@[at as int].hole_type == 0
            &&& component.pads@[at as int].shape_top == 1
            &&& component.pads@[at as int].solder_mask_expansion_raw == 0
        }),
{
    let drafts = plan.drafts@;
    let pads = plan.pads@;
    let n = drafts.len() as int;
    reveal_strlit("");
    lemma_holes(drafts, n, d);
    let at = (pads.len() + hole_count(drafts, d)) as int;
    assert(all_pads(pads, drafts)[at] == hole_plans(drafts, n)[hole_count(drafts, d) as int]);
    assert(is_pad(component.pads@[at], all_pads(pads, drafts)[at]));
}

proof fn lemma_holes(drafts: Seq<MeasuredDraft>, n: int, d: int)
    requires
        0 <= n <= drafts.len(),
    ensures
        hole_plans(drafts, n).len() == hole_count(drafts, n),
        0 <= d < n && is_hole(drafts[d].0, drafts[d].1) ==> hole_count(drafts, d) < hole_count(
            drafts,
            n,
        ) && hole_plans(drafts, n)[hole_count(drafts, d) as int]
            == crate::footprint_parts::hole_plan(drafts[d].1),
    decreases n,
{
    if n > 0 {
        lemma_holes(drafts, n - 1, d);
        let (draft, m) = drafts[n - 1];
        if is_hole(draft, m) {
            assert(is_through(draft));
        }
    }
}

/// Two rings of tracks go around each alignment hole, one on the top overlay and
/// one on the first mechanical layer: from each point to the next, and from the
/// last back to the first.
pub proof fn law_holes_ringed(component: PcbComponent, plan: FootprintPlan, d: int, i: int)
    requires
        is_component(component, plan),
        0 <= d < plan.drafts@.len(),
        is_hole(plan.drafts@[d].0, plan.drafts@[d].1),
        plan.drafts@[d].1.ring@.len() >= 2,
        0 <= i < plan.drafts@[d].1.ring@.len(),
    ensures
        ({
            let ring = plan.drafts@[d].1.ring@;
            let at = ring_count(plan.drafts@, d);
            let over = component.tracks@[at + i];
            let under = component.tracks@[at + ring.len() + i];
            let next = if i + 1 < ring.len() {
                ring[i + 1]
            } else {
                ring[0]
            };
            &&& at + 2 * ring.len() <= component.tracks@.len()
            &&& over.start == ring[i] && over.end == next && over.layer == 33
            &&& under.start == ring[i] && under.end == next && under.layer == 57
            &&& over.width_raw >= 19_685 && under.width_raw == over.width_raw
            &&& plan.drafts@[d].1.width_raw > 19_685 ==> over.width_raw
                == plan.drafts@[d].1.width_raw
        }),
{
    let drafts = plan.drafts@;
    let n = drafts.len() as int;
    lemma_rings(drafts, n, d, i);
    lemma_rings(drafts, n, d, drafts[d].1.ring@.len() - 1);
}

// Pads

/// A footprint has the pads of its rows, in their order, and then its alignment
/// holes.
pub proof fn law_pad_count(component: PcbComponent, plan: FootprintPlan)
    requires
        is_component(component, plan),
    ensures
        component.pads@.len() == plan.pads@.len() + hole_count(
            plan.drafts@,
            plan.drafts@.len() as int,
        ),
{
    lemma_holes(plan.drafts@, plan.drafts@.len() as int, 0);
}

/// Each pad is where and as its row says: its designator, its place, its hole, its
/// shape and size on all layers alike, and on the layers that it is for. A pad of a
/// shape of its own is a small round one, not turned.
pub proof fn law_pads_placed(component: PcbComponent, plan: FootprintPlan, i: int)
    requires
        is_component(component, plan),
        0 <= i < plan.pads@.len(),
    ensures
        ({
            let (pad, g) = plan.pads@[i];
            let made = component.pads@[i];
            let custom = !g.has_hole && same_but_case(pad.shape@, "POLY"@) && pad.has_polygon;
            &&& i < component.pads@.len()
            &&& made.designator@ == pad.designator@
            &&& made.location == g.location
            &&& made.hole_size_raw == g.hole_size_raw
            &&& made.hole_slot_length_raw == g.hole_slot_raw
            &&& made.is_plated
            &&& made.size_middle == made.size_top && made.size_bottom == made.size_top
            &&& made.shape_middle == made.shape_top && made.shape_bottom == made.shape_top
            &&& !custom ==> made.size_top == g.size && made.rotation == g.rotation
                && made.solder_mask_expansion_raw == 19_690
            &&& custom ==> made.size_top.x == 23_792 && made.size_top.y == 23_792
                && made.shape_top == 1 && made.rotation == zero() && made.solder_mask_expansion_raw
                == 0
            &&& g.has_hole || pad.layer_code == 12 ==> made.layer == 74
            &&& !g.has_hole && pad.layer_code == 2 ==> made.layer == 32
            &&& !g.has_hole && pad.layer_code != 2 && pad.layer_code != 12 ==> made.layer == 1
            &&& made.hole_type == 2 && !custom ==> made.hole_rotation == if pad.width.lt(
                pad.height,
            ) {
                g.slot_upright
            } else {
                g.slot_level
            }
            &&& made.hole_type != 2 ==> made.hole_rotation == made.rotation
            &&& made.corner_radius_percentage == 25
        }),
{
    let pads = plan.pads@;
    assert(all_pads(pads, plan.drafts@)[i] == pad_plan(pads[i].0, pads[i].1));
    assert(is_pad(component.pads@[i], all_pads(pads, plan.drafts@)[i]));
}

// Arcs

/// Whether a figure is a circle that is drawn, and whether it is an arc.
pub open spec fn is_drawn_circle(draft: Draft) -> bool {
    draft.role is Stroke && draft.figure is Circle
}

pub open spec fn is_drawn_arc(draft: Draft) -> bool {
    draft.role is Stroke && draft.figure is Arc
}

/// How many circles, and how many arcs, are among the first `n` figures.
pub open spec fn circle_count(drafts: Seq<MeasuredDraft>, n: int) -> nat
    decreases n,
{
    if n <= 0 {
        0
    } else {
        circle_count(drafts, n - 1) + if is_drawn_circle(drafts[n - 1].0) {
            1nat
        } else {
            0nat
        }
    }
}

pub open spec fn arc_count(drafts: Seq<MeasuredDraft>, n: int) -> nat
    decreases n,
{
    if n <= 0 {
        0
    } else {
        arc_count(drafts, n - 1) + if is_drawn_arc(drafts[n - 1].0) {
            1nat
        } else {
            0nat
        }
    }
}

proof fn lemma_arcs(drafts: Seq<MeasuredDraft>, n: int, d: int)
    requires
        0 <= n <= drafts.len(),
    ensures
        circle_arcs(drafts, n).len() == circle_count(drafts, n),
        part_arcs(drafts, n).len() == arc_count(drafts, n),
        0 <= d < n && is_drawn_circle(drafts[d].0) ==> ({
            let arc = circle_arcs(drafts, n)[circle_count(drafts, d) as int];
            let m = drafts[d].1;
            &&& circle_count(drafts, d) < circle_count(drafts, n)
            &&& arc.center == m.center && arc.radius_raw == m.radius_raw
            &&& arc.start_angle.bits == 0 && arc.end_angle.bits == 0x4076_8000_0000_0000
            &&& arc.layer == graphic_layer(drafts[d].0.layer_code)
            &&& arc.width_raw == drawn_width(m.width_raw)
            &&& !arc.is_locked && !arc.is_keepout && !arc.is_tenting_top && !arc.is_tenting_bottom
        }),
        0 <= d < n && is_drawn_arc(drafts[d].0) ==> ({
            let arc = part_arcs(drafts, n)[arc_count(drafts, d) as int];
            let m = drafts[d].1;
            &&& arc_count(drafts, d) < arc_count(drafts, n)
            &&& arc.center == m.center && arc.radius_raw == m.radius_raw
            &&& arc.start_angle == m.start_angle && arc.end_angle == m.end_angle
            &&& arc.layer == graphic_layer(drafts[d].0.layer_code)
            &&& arc.width_raw == drawn_width(m.width_raw)
            &&& !arc.is_locked && !arc.is_keepout && !arc.is_tenting_top && !arc.is_tenting_bottom
        }),
    decreases n,
{
    if n > 0 {
        lemma_arcs(drafts, n - 1, d);
    }
}

/// Each circle that is drawn is an arc from nothing to a full turn around its
/// center, and each arc one between its own angles, on their layer and with their
/// width: first the circles, then the arcs, and no others.
pub proof fn law_arcs_drawn(component: PcbComponent, plan: FootprintPlan, d: int)
    requires
        is_component(component, plan),
        0 <= d < plan.drafts@.len(),
    ensures
        ({
            let drafts = plan.drafts@;
            let n = drafts.len() as int;
            let (draft, m) = drafts[d];
            &&& component.arcs@.len() == circle_count(drafts, n) + arc_count(drafts, n)
            &&& is_drawn_circle(draft) ==> ({
                let arc = component.arcs@[circle_count(drafts, d) as int];
                &&& arc.center == m.center && arc.radius_raw == m.radius_raw
                &&& arc.start_angle.bits == 0 && arc.end_angle.bits == 0x4076_8000_0000_0000
                &&& arc.layer == graphic_layer(draft.layer_code)
                &&& arc.width_raw == drawn_width(m.width_raw)
                &&& !arc.is_locked && !arc.is_keepout
            })
            &&& is_drawn_arc(draft) ==> ({
                let arc = component.arcs@[circle_count(drafts, n) as int + arc_count(drafts, d)];
                &&& arc.center == m.center && arc.radius_raw == m.radius_raw
                &&& arc.start_angle == m.start_angle && arc.end_angle == m.end_angle
                &&& arc.layer == graphic_layer(draft.layer_code)
                &&& arc.width_raw == drawn_width(m.width_raw)
                &&& !arc.is_locked && !arc.is_keepout
            })
        }),
{
    lemma_arcs(plan.drafts@, plan.drafts@.len() as int, d);
}

// Regions

/// Whether a figure is an area with enough points: a filled one that is no circle
/// through all layers.
pub open spec fn is_area(draft: Draft, m: Measure) -> bool {
    &&& draft.role is Fill
    &&& match draft.figure {
        Figure::Circle(circle) => draft.layer_code != 12 && m.ring@.len() >= 3,
        Figure::Path { steps, least } => m.points@.len() >= least && closed(m.points@).len() >= 3,
        _ => closed(m.points@).len() >= 3,
    }
}

/// Whether a figure is a circle through all layers that is not marked.
pub open spec fn is_through_area(draft: Draft, m: Measure) -> bool {
    draft.role is Fill && draft.layer_code == 12 && draft.figure is Circle && !m.is_marked
}

pub open spec fn area_count(drafts: Seq<MeasuredDraft>, n: int) -> nat
    decreases n,
{
    if n <= 0 {
        0
    } else {
        area_count(drafts, n - 1) + if is_area(drafts[n - 1].0, drafts[n - 1].1) {
            1nat
        } else {
            0nat
        }
    }
}

pub open spec fn through_count(drafts: Seq<MeasuredDraft>, n: int) -> nat
    decreases n,
{
    if n <= 0 {
        0
    } else {
        through_count(drafts, n - 1) + if is_through_area(drafts[n - 1].0, drafts[n - 1].1) {
            1nat
        } else {
            0nat
        }
    }
}

proof fn lemma_areas(drafts: Seq<MeasuredDraft>, n: int, d: int)
    requires
        0 <= n <= drafts.len(),
    ensures
        area_plans(drafts, n).len() == area_count(drafts, n),
        through_plans(drafts, n).len() == through_count(drafts, n),
        0 <= d < n && is_area(drafts[d].0, drafts[d].1) ==> ({
            let plan = area_plans(drafts, n)[area_count(drafts, d) as int];
            let (draft, m) = drafts[d];
            &&& area_count(drafts, d) < area_count(drafts, n)
            &&& plan.layer == graphic_layer(draft.layer_code)
            &&& draft.figure is Circle ==> plan.outline == m.ring@
            &&& !(draft.figure is Circle) ==> plan.outline == closed(m.points@)
            &&& plan.name is None && plan.params.len() == 0
        }),
        0 <= d < n && is_through_area(drafts[d].0, drafts[d].1) ==> ({
            let plan = through_plans(drafts, n)[through_count(drafts, d) as int];
            &&& through_count(drafts, d) < through_count(drafts, n)
            &&& plan.layer == 74
            &&& plan.outline == drafts[d].1.ring@
            &&& plan.name is None && plan.params.len() == 0
        }),
    decreases n,
{
    if n > 0 {
        lemma_areas(drafts, n - 1, d);
        let (draft, m) = drafts[n - 1];
        assert(draft.figure is Circle ==> counts(draft, m));
    }
}

/// Each area that is filled is a region on its layer with its own outline: of a
/// circle the points around it, of a path its points, closed. First come circles
/// through all layers, then the other areas.
pub proof fn law_areas_filled(component: PcbComponent, plan: FootprintPlan, d: int)
    requires
        is_component(component, plan),
        0 <= d < plan.drafts@.len(),
    ensures
        ({
            let drafts = plan.drafts@;
            let n = drafts.len() as int;
            let (draft, m) = drafts[d];
            &&& is_through_area(draft, m) ==> ({
                let at = through_count(drafts, d) as int;
                &&& at < component.regions@.len()
                &&& component.regions@[at].layer == 74
                &&& component.regions@[at].outline@ == m.ring@
                &&& component.regions@[at].name is None
                &&& component.regions@[at].kind == 0
            })
            &&& is_area(draft, m) ==> ({
                let at = (through_count(drafts, n) + area_count(drafts, d)) as int;
                &&& at < component.regions@.len()
                &&& component.regions@[at].layer == graphic_layer(draft.layer_code)
                &&& component.regions@[at].name is None
                &&& component.regions@[at].kind == 0
                &&& draft.figure is Circle ==> component.regions@[at].outline@ == m.ring@
                &&& !(draft.figure is Circle) ==> ({
                    let outline = component.regions@[at].outline@;
                    &&& m.points@.is_prefix_of(outline)
                    &&& outline[0] == outline.last()
                    &&& outline.len() <= m.points@.len() + 1
                })
            })
        }),
{
    let drafts = plan.drafts@;
    let pads = plan.pads@;
    let n = drafts.len() as int;
    let (draft, m) = drafts[d];
    lemma_areas(drafts, n, d);
    let all = all_regions(pads, drafts);
    if is_through_area(draft, m) {
        let at = through_count(drafts, d) as int;
        assert(all[at] == through_plans(drafts, n)[at]);
        assert(is_region(component.regions@[at], all[at]));
    }
    if is_area(draft, m) {
        let at = (through_count(drafts, n) + area_count(drafts, d)) as int;
        assert(all[at] == area_plans(drafts, n)[area_count(drafts, d) as int]);
        assert(is_region(component.regions@[at], all[at]));
        if !(draft.figure is Circle) {
            let points = m.points@;
            assert(closed(points).take(points.len() as int) =~= points);
        }
    }
}

/// Points are closed by the first of them behind the last, unless they are closed.
pub proof fn law_closed(points: Seq<CoordPoint>)
    requires
        points.len() > 0,
    ensures
        closed(points)[0] == points[0],
        closed(points).last() == points[0],
        points.is_prefix_of(closed(points)),
        points[0] == points.last() ==> closed(points) == points,
        points[0] != points.last() ==> closed(points).len() == points.len() + 1,
{
    assert(closed(points).take(points.len() as int) =~= points);
}

proof fn lemma_outlines(pads: Seq<MeasuredPad>, n: int, i: int) -> (at: int)
    requires
        0 <= i < n <= pads.len(),
        pad_outline(pads[i].0, pads[i].1) is Some,
    ensures
        0 <= at < outline_plans(pads, n).len(),
        outline_plans(pads, n)[at].layer == 65,
        outline_plans(pads, n)[at].outline == pad_outline(pads[i].0, pads[i].1)->0,
    decreases n,
{
    if i == n - 1 {
        outline_plans(pads, n - 1).len() as int
    } else {
        lemma_outlines(pads, n - 1, i)
    }
}

/// The outline of each pad is drawn on the ninth mechanical layer.
pub proof fn law_pads_outlined(component: PcbComponent, plan: FootprintPlan, i: int)
    requires
        is_component(component, plan),
        0 <= i < plan.pads@.len(),
        pad_outline(plan.pads@[i].0, plan.pads@[i].1) is Some,
    ensures
        exists|at: int|
            0 <= at < component.regions@.len() && (#[trigger] component.regions@[at]).layer == 65
                && component.regions@[at].outline@ == pad_outline(
                plan.pads@[i].0,
                plan.pads@[i].1,
            )->0,
{
    let drafts = plan.drafts@;
    let pads = plan.pads@;
    let n = drafts.len() as int;
    let k = lemma_outlines(pads, pads.len() as int, i);
    let at = through_plans(drafts, n).len() + area_plans(drafts, n).len() + k;
    let all = all_regions(pads, drafts);
    assert(all[at] == outline_plans(pads, pads.len() as int)[k]);
    assert(is_region(component.regions@[at], all[at]));
}

/// The outline of a pad that is no polygon is a rectangle of its four corners, closed,
/// or with round corners where it has them. A pad without a size has none. The
/// outline of a polygon is its points, closed, where they are three or more.
pub proof fn law_pad_outlines(pad: Pad, g: PadGeometry)
    ensures
        ({
            let round = pad_shape(pad.shape@, g.equal_sides) == 9;
            let sized = !pad.width.le(zero()) && !pad.height.le(zero());
            &&& !sized && (round || !pad.has_polygon) ==> pad_outline(pad, g) is None
            &&& sized && round && !g.has_round_corners && g.rectangle@.len() > 0 ==> pad_outline(
                pad,
                g,
            ) == Some(g.rectangle@.push(g.rectangle@[0]))
            &&& sized && !round && !pad.has_polygon && g.rectangle@.len() > 0 ==> pad_outline(pad, g)
                == Some(g.rectangle@.push(g.rectangle@[0]))
            &&& !round && pad.has_polygon && g.polygon@.len() >= 3 && g.polygon@[0]
                != g.polygon@.last() ==> pad_outline(pad, g) == Some(
                g.polygon@.push(g.polygon@[0]),
            )
            &&& !round && pad.has_polygon && g.polygon@.len() >= 4 && g.polygon@[0]
                == g.polygon@.last() ==> pad_outline(pad, g) == Some(g.polygon@)
            &&& !round && pad.has_polygon && g.polygon@.len() < 3 ==> pad_outline(pad, g) is None
        }),
{
}

// Bodies

proof fn lemma_repeats(points: Seq<CoordPoint>, i: int)
    ensures
        points.len() > 0 ==> without_repeats(points).len() > 0 && without_repeats(points)[0]
            == points[0],
        0 <= i < points.len() ==> without_repeats(points).contains(points[i]),
    decreases points.len(),
{
    if points.len() > 0 {
        let init = points.drop_last();
        lemma_repeats(init, i);
        let all = without_repeats(points);
        let before = without_repeats(init);
        if 0 <= i < points.len() {
            if i < init.len() {
                let k = choose|k: int| 0 <= k < before.len() && before[k] == init[i];
                assert(all[k] == points[i]);
            } else {
                assert(all[all.len() - 1] == points[i]);
            }
        }
    }
}

/// The outline of a pad with round corners goes through all the points around it, from
/// the first back to the first, with no point twice in a row on the way.
pub proof fn law_round_outlines(pad: Pad, g: PadGeometry, i: int)
    requires
        pad_shape(pad.shape@, g.equal_sides) == 9,
        !pad.width.le(zero()),
        !pad.height.le(zero()),
        g.has_round_corners,
        0 <= i < g.rounded@.len(),
    ensures
        pad_outline(pad, g) matches Some(outline) && {
            &&& outline[0] == g.rounded@[0]
            &&& outline.last() == g.rounded@[0]
            &&& outline.contains(g.rounded@[i])
            &&& forall|k: int|
                0 <= k < outline.len() - 2 ==> #[trigger] outline[k] != outline[k + 1]
        },
{
    lemma_repeats(g.rounded@, i);
    crate::footprint_parts::law_pad_outline_closed(pad, g);
    let points = without_repeats(g.rounded@);
    let outline = pad_outline(pad, g)->0;
    assert(outline == points.push(points[0]));
    let k = choose|k: int| 0 <= k < points.len() && points[k] == g.rounded@[i];
    assert(outline[k] == g.rounded@[i]);
    assert forall|k: int| 0 <= k < outline.len() - 2 implies #[trigger] outline[k] != outline[k
        + 1] by {
        assert(points[k] != points[k + 1]);
    }
}

/// Whether one of the points has the given coordinate, on either axis.
pub open spec fn has_x(points: Seq<RawPoint>, x: Real) -> bool {
    exists|i: int| 0 <= i < points.len() && (#[trigger] points[i]).x == x
}

pub open spec fn has_y(points: Seq<RawPoint>, y: Real) -> bool {
    exists|i: int| 0 <= i < points.len() && (#[trigger] points[i]).y == y
}

/// Extents reach no further than points do: each of their sides goes through one.
pub proof fn law_extents_tight(points: Seq<RawPoint>)
    ensures
        extents_of(points) is Some <==> points.len() > 0,
        extents_of(points) matches Some(e) ==> has_x(points, e.min_x) && has_x(points, e.max_x)
            && has_y(points, e.min_y) && has_y(points, e.max_y),
    decreases points.len(),
{
    if points.len() > 0 {
        let init = points.drop_last();
        let n = points.len() - 1;
        law_extents_tight(init);
        let e = extents_of(points)->0;
        assert(points[n] == points.last());
        if init.len() > 0 {
            let f = extents_of(init)->0;
            let a = choose|i: int| 0 <= i < init.len() && (#[trigger] init[i]).x == f.min_x;
            let b = choose|i: int| 0 <= i < init.len() && (#[trigger] init[i]).x == f.max_x;
            let c = choose|i: int| 0 <= i < init.len() && (#[trigger] init[i]).y == f.min_y;
            let d = choose|i: int| 0 <= i < init.len() && (#[trigger] init[i]).y == f.max_y;
            assert(points[a] == init[a] && points[b] == init[b] && points[c] == init[c] && points[d]
                == init[d]);
            assert(e.min_x == f.min_x || e.min_x == points[n].x);
            assert(e.max_x == f.max_x || e.max_x == points[n].x);
            assert(e.min_y == f.min_y || e.min_y == points[n].y);
            assert(e.max_y == f.max_y || e.max_y == points[n].y);
        }
    }
}

proof fn lemma_reach(drafts: Seq<MeasuredDraft>, n: int, d: int, i: int, body: bool)
    requires
        0 <= d < n <= drafts.len(),
        (drafts[d].0.role is Body) == body,
        counts(drafts[d].0, drafts[d].1),
        0 <= i < drafts[d].1.reach@.len(),
    ensures
        draft_reach(drafts, n, body).contains(drafts[d].1.reach@[i]),
    decreases n,
{
    let all = draft_reach(drafts, n, body);
    let before = draft_reach(drafts, n - 1, body);
    if d == n - 1 {
        assert(all[before.len() + i] == drafts[d].1.reach@[i]);
    } else {
        lemma_reach(drafts, n - 1, d, i, body);
        let k = choose|k: int| 0 <= k < before.len() && before[k] == drafts[d].1.reach@[i];
        assert(all[k] == before[k]);
    }
}

proof fn lemma_no_body(drafts: Seq<MeasuredDraft>, n: int)
    requires
        0 <= n <= drafts.len(),
        forall|d: int| 0 <= d < n ==> !((#[trigger] drafts[d]).0.role is Body),
    ensures
        draft_reach(drafts, n, true).len() == 0,
    decreases n,
{
    if n > 0 {
        lemma_no_body(drafts, n - 1);
        assert(!(drafts[n - 1].0.role is Body));
    }
}

/// A body reaches over every figure that is drawn to say how far it reaches.
pub proof fn law_body_reach(
    pads: Seq<MeasuredPad>,
    drafts: Seq<MeasuredDraft>,
    d: int,
    i: int,
)
    requires
        0 <= d < drafts.len(),
        drafts[d].0.role is Body,
        counts(drafts[d].0, drafts[d].1),
        0 <= i < drafts[d].1.reach@.len(),
        forall|k: int|
            0 <= k < draft_reach(drafts, drafts.len() as int, true).len() ==> !(
            #[trigger] draft_reach(drafts, drafts.len() as int, true)[k]).x.spec_is_nan()
                && !draft_reach(drafts, drafts.len() as int, true)[k].y.spec_is_nan(),
    ensures
        ({
            let p = drafts[d].1.reach@[i];
            body_extents(pads, drafts) matches Some(e) && e.min_x.le(p.x) && p.x.le(e.max_x)
                && e.min_y.le(p.y) && p.y.le(e.max_y)
        }),
{
    let n = drafts.len() as int;
    let points = draft_reach(drafts, n, true);
    lemma_reach(drafts, n, d, i, true);
    let k = choose|k: int| 0 <= k < points.len() && points[k] == drafts[d].1.reach@[i];
    crate::footprint_parts::law_extents_hold(points, k);
}

/// Where no figure says how far the body reaches, it reaches over the corners of
/// all pads.
pub proof fn law_body_over_pads(
    pads: Seq<MeasuredPad>,
    drafts: Seq<MeasuredDraft>,
    p: int,
    i: int,
)
    requires
        forall|d: int| 0 <= d < drafts.len() ==> !((#[trigger] drafts[d]).0.role is Body),
        0 <= p < pads.len(),
        0 <= i < pads[p].1.corners@.len(),
        ({
            let all = pad_reach(pads, pads.len() as int) + draft_reach(
                drafts,
                drafts.len() as int,
                false,
            );
            forall|k: int|
                0 <= k < all.len() ==> !(#[trigger] all[k]).x.spec_is_nan()
                    && !all[k].y.spec_is_nan()
        }),
    ensures
        ({
            let c = pads[p].1.corners@[i];
            body_extents(pads, drafts) matches Some(e) && e.min_x.le(c.x) && c.x.le(e.max_x)
                && e.min_y.le(c.y) && c.y.le(e.max_y)
        }),
{
    let n = drafts.len() as int;
    let all = pad_reach(pads, pads.len() as int) + draft_reach(drafts, n, false);
    lemma_no_body(drafts, n);
    let k = lemma_pad_reach(pads, pads.len() as int, p, i);
    assert(all[k] == pads[p].1.corners@[i]);
    crate::footprint_parts::law_extents_hold(all, k);
}

proof fn lemma_pad_reach(pads: Seq<MeasuredPad>, n: int, p: int, i: int) -> (at: int)
    requires
        0 <= p < n <= pads.len(),
        0 <= i < pads[p].1.corners@.len(),
    ensures
        0 <= at < pad_reach(pads, n).len(),
        pad_reach(pads, n)[at] == pads[p].1.corners@[i],
    decreases n,
{
    if p == n - 1 {
        pad_reach(pads, n - 1).len() + i
    } else {
        lemma_pad_reach(pads, n - 1, p, i)
    }
}

/// The outline of a body goes around its extents, corner by corner: each corner
/// shares one coordinate with the next, and all four are there.
pub proof fn law_body_outline(e: RawExtents)
    ensures
        ({
            let outline = body_outline(e);
            &&& outline.len() == 4
            &&& outline.contains(CoordPoint { x: e.min_x, y: e.min_y })
            &&& outline.contains(CoordPoint { x: e.max_x, y: e.min_y })
            &&& outline.contains(CoordPoint { x: e.max_x, y: e.max_y })
            &&& outline.contains(CoordPoint { x: e.min_x, y: e.max_y })
            &&& outline[0].y == outline[1].y
            &&& outline[1].x == outline[2].x
            &&& outline[2].y == outline[3].y
            &&& outline[3].x == outline[0].x
        }),
{
    let outline = body_outline(e);
    assert(outline[0] == (CoordPoint { x: e.min_x, y: e.min_y }));
    assert(outline[1] == (CoordPoint { x: e.max_x, y: e.min_y }));
    assert(outline[2] == (CoordPoint { x: e.max_x, y: e.max_y }));
    assert(outline[3] == (CoordPoint { x: e.min_x, y: e.max_y }));
}

/// A footprint has a body exactly where it has a model and extents. The body then
/// stands for that model, is as high as the component but at least 7.874 mil, and
/// goes around the extents, and the library holds the data of the model.
pub proof fn law_body(library: PcbLibrary, plan: FootprintPlan)
    requires
        is_library(library, plan),
    ensures
        library.components@.len() == 1,
        library.components@[0].name@ == plan.name@,
        library.components@[0].description@ == plan.description@,
        library.components@[0].height_raw == plan.height_raw,
        plan.model is None || plan.extents is None ==> library.components@[0].bodies@.len() == 0
            && library.models@.len() == 0,
        plan.model matches Some(model) ==> plan.extents matches Some(e) ==> {
            let body = library.components@[0].bodies@[0];
            let file = library.models@[0];
            &&& library.components@[0].bodies@.len() == 1
            &&& library.models@.len() == 1
            &&& body.model_id@ == model.id@ && file.id@ == model.id@
            &&& body.model_name@ == model.name@ && file.name@ == model.name@
            &&& file.step_data@ == model.step_data@
            &&& body.model_embed && file.is_embedded
            &&& body.overall_height_raw >= 78_740
            &&& body.overall_height_raw >= plan.height_raw
            &&& body.overall_height_raw == 78_740 || body.overall_height_raw == plan.height_raw
            &&& body.standoff_height_raw == 0
            &&& body.outline@ == body_outline(e)
        },
{
}

/// The sides of a pad are longer than zero or are not numbers. A width that is not
/// longer than zero becomes ten units, a height that is not becomes the width, and
/// others stay.
pub proof fn law_mended_sides(width: Real, height: Real)
    ensures
        ({
            let (w, h) = mended_sides(width, height);
            &&& !w.le(zero()) && !h.le(zero())
            &&& !width.le(zero()) ==> w == width
            &&& !height.le(zero()) ==> h == height
            &&& width.le(zero()) ==> w.bits == 0x4024_0000_0000_0000
            &&& height.le(zero()) ==> h == w
        }),
{
}

/// A pad that is settled keeps what its sketch says. Its place, its sides and its
/// shape are those of the sketch, unless its path is a rectangle: then they are the
/// rectangle's.
pub proof fn law_settled(sketch: PadSketch, measure: Option<PathMeasure>, pad: Pad)
    requires
        settles(sketch, measure, pad),
    ensures
        pad.designator@ == sketch.designator@,
        pad.hole == sketch.hole && pad.hole_slot == sketch.hole_slot,
        pad.rotation == sketch.rotation && pad.layer_code == sketch.layer_code,
        !pad.width.le(zero()) && !pad.height.le(zero()),
        sketch.path is None || measure is None ==> pad.x == sketch.x && pad.y == sketch.y
            && pad.shape@ == sketch.shape@ && !pad.has_polygon && (!sketch.width.le(zero())
            ==> pad.width == sketch.width) && (!sketch.height.le(zero()) ==> pad.height
            == sketch.height),
        sketch.path is Some && measure is Some && measure->0.size is Some && measure->0.rect is Some
            ==> ({
            let r = measure->0.rect->0;
            &&& pad.x == r.center_x && pad.y == r.center_y && !pad.has_polygon
            &&& pad.shape@ == "RECT"@
            &&& !r.width.le(zero()) ==> pad.width == r.width
            &&& !r.height.le(zero()) ==> pad.height == r.height
        }),
        sketch.path is Some && measure is Some && measure->0.size is Some && measure->0.rect is None
            ==> pad.x == sketch.x && pad.y == sketch.y && pad.has_polygon == (measure->0.count >= 3)
            && pad.shape@ == sketch.shape@,
        sketch.path is Some && measure is Some && measure->0.size is Some && measure->0.rect is None
            ==> ({
            let (w, h) = measure->0.size->0;
            &&& zero().lt(sketch.width) && zero().lt(w) ==> sketch.width.le(pad.width) && w.le(
                pad.width,
            )
            &&& zero().lt(sketch.height) && zero().lt(h) ==> sketch.height.le(pad.height) && h.le(
                pad.height,
            )
        }),
        sketch.mask_units matches Some(units) ==> pad.mask_units == units,
        sketch.mask_units is None ==> pad.mask_units.bits == 0x4003_089a_0275_2546,
        sketch.hole_shape@ == pad.hole_shape@,
{
}

// Openings

/// Whether a pad is of a shape of its own, with an outline: then, and only then, the
/// mask is open over it by regions.
pub open spec fn has_openings(pad: Pad, g: PadGeometry) -> bool {
    !g.has_hole && same_but_case(pad.shape@, "POLY"@) && pad.has_polygon && pad_outline(
        pad,
        g,
    ) is Some
}

/// How many openings the first `n` pads have: one on each layer that the mask of a
/// pad is open on.
pub open spec fn opening_count(pads: Seq<MeasuredPad>, n: int) -> nat
    decreases n,
{
    if n <= 0 {
        0
    } else {
        opening_count(pads, n - 1) + if has_openings(pads[n - 1].0, pads[n - 1].1) {
            mask_layers(pads[n - 1].0.layer_code, pads[n - 1].1.has_hole).len()
        } else {
            0nat
        }
    }
}

proof fn lemma_openings(pads: Seq<MeasuredPad>, n: int, p: int, k: int)
    requires
        0 <= n <= pads.len(),
    ensures
        mask_plans(pads, n).len() == opening_count(pads, n),
        0 <= p < n && has_openings(pads[p].0, pads[p].1) && 0 <= k < mask_layers(
            pads[p].0.layer_code,
            pads[p].1.has_hole,
        ).len() ==> ({
            let layers = mask_layers(pads[p].0.layer_code, pads[p].1.has_hole);
            let at = opening_count(pads, p) + k;
            &&& at < opening_count(pads, n)
            &&& mask_plans(pads, n)[at].0.layer == layers[k].0
            &&& mask_plans(pads, n)[at].0.outline == pad_outline(pads[p].0, pads[p].1)->0
            &&& mask_plans(pads, n)[at].0.params == region_params(layers[k].1)
            &&& mask_plans(pads, n)[at].0.name == Some(" "@)
            &&& mask_plans(pads, n)[at].1 == pads[p].1.mask_text@
        }),
    decreases n,
{
    if n > 0 {
        lemma_openings(pads, n - 1, p, k);
    }
}

/// Over each pad of a shape of its own the mask is open by regions of its outline, one
/// on each of its layers, behind all other regions and in the order of the pads. What
/// is said of them is how far the mask is open around that pad.
pub proof fn law_openings(component: PcbComponent, plan: FootprintPlan, p: int, k: int)
    requires
        is_component(component, plan),
        0 <= p < plan.pads@.len(),
        has_openings(plan.pads@[p].0, plan.pads@[p].1),
        0 <= k < mask_layers(plan.pads@[p].0.layer_code, plan.pads@[p].1.has_hole).len(),
    ensures
        ({
            let (pad, g) = plan.pads@[p];
            let layers = mask_layers(pad.layer_code, g.has_hole);
            let total = opening_count(plan.pads@, plan.pads@.len() as int);
            let i = opening_count(plan.pads@, p) + k;
            let at = component.regions@.len() - total + i;
            let info = component.extended_primitive_information@[i];
            &&& component.extended_primitive_information@.len() == total
            &&& i < total <= component.regions@.len()
            &&& component.regions@[at].layer == layers[k].0
            &&& component.regions@[at].outline@ == pad_outline(pad, g)->0
            &&& info.primitive_index == component.pads@.len() + component.tracks@.len()
                + component.arcs@.len() + at
            &&& component.regions@[at].name matches Some(name) && name@ == " "@
            &&& pair_views(component.regions@[at].additional_params@) == region_params(layers[k].1)
            &&& info.object_name@ == "Region"@
            &&& pair_views(info.params@).contains(
                ("SOLDERMASKEXPANSION_MANUAL"@, g.mask_text@),
            )
            &&& pair_views(info.params@).contains(("SOLDERMASKEXPANSIONMODE"@, "Manual"@))
            &&& pair_views(info.params@).contains(("PASTEMASKEXPANSIONMODE"@, "None"@))
            &&& pair_views(info.params@).contains(("TYPE"@, "Mask"@))
        }),
{
    let pads = plan.pads@;
    let drafts = plan.drafts@;
    let n = pads.len() as int;
    lemma_openings(pads, n, p, k);
    let total = opening_count(pads, n);
    let i = opening_count(pads, p) + k;
    let drawn = drawn_regions(pads, drafts).len();
    let all = all_regions(pads, drafts);
    assert(all.len() == drawn + total);
    assert(all[drawn + i] == all_openings(pads)[i].0);
    assert(is_region(component.regions@[drawn + i], all[drawn + i]));
    let info = component.extended_primitive_information@[i];
    assert(is_opening_info(info, first_opening(pads, drafts) + i, all_openings(pads)[i].1));
    let said = pair_views(info.params@);
    assert(said[0] == ("TYPE"@, "Mask"@));
    assert(said[1] == ("SOLDERMASKEXPANSIONMODE"@, "Manual"@));
    assert(said[2] == ("SOLDERMASKEXPANSION_MANUAL"@, pads[p].1.mask_text@));
    assert(said[3] == ("PASTEMASKEXPANSIONMODE"@, "None"@));
}

/// A circle marks alignment holes exactly where it is drawn on the documentation
/// layer.
pub proof fn law_markers(drafts: Seq<Draft>, n: int, d: int)
    requires
        0 <= d < n <= drafts.len(),
    ensures
        drafts[d].role is Stroke && drafts[d].layer_code == 13 ==> (
        drafts[d].figure matches Figure::Circle(circle) ==> markers(drafts, n).contains(circle)),
        (forall|k: int|
            0 <= k < n ==> (#[trigger] drafts[k]).layer_code != 13 || !(drafts[k].role is Stroke)
                || !(drafts[k].figure is Circle)) ==> markers(drafts, n).len() == 0,
    decreases n,
{
    let all = markers(drafts, n);
    let before = markers(drafts, n - 1);
    if n > 1 {
        law_markers(drafts, n - 1, if d < n - 1 {
            d
        } else {
            0
        });
    }
    if let Figure::Circle(circle) = drafts[d].figure {
        if drafts[d].role is Stroke && drafts[d].layer_code == 13 {
            if d == n - 1 {
                assert(all[all.len() - 1] == circle);
            } else {
                let k = choose|k: int| 0 <= k < before.len() && before[k] == circle;
                assert(all[k] == circle);
            }
        }
    }
}

// Settings

/// What no drawing says of a pad is the same for all pads.
pub proof fn law_pad_settings(component: PcbComponent, plan: FootprintPlan, i: int)
    requires
        is_component(component, plan),
        0 <= i < component.pads@.len(),
    ensures
        ({
            let pad = component.pads@[i];
            &&& !pad.is_locked && !pad.is_tenting_top && !pad.is_tenting_bottom && !pad.is_keepout
            &&& pad.mode == 0 && pad.power_plane_connect_style == 0 && pad.relief_air_gap_raw == 0
            &&& pad.relief_conductor_width_raw == 100_000 && pad.relief_entries == 4
            &&& pad.power_plane_clearance_raw == 100_000
            &&& pad.power_plane_relief_expansion_raw == 200_000
            &&& pad.paste_mask_expansion_raw == 0 && pad.drill_type == 0 && pad.jumper_id == 0
            &&& pad.corner_radius_percentage == 25
        }),
{
    assert(is_pad(component.pads@[i], all_pads(plan.pads@, plan.drafts@)[i]));
}

/// What no drawing says of a region is the same for all regions.
pub proof fn law_region_settings(component: PcbComponent, plan: FootprintPlan, i: int)
    requires
        is_component(component, plan),
        0 <= i < component.regions@.len(),
    ensures
        ({
            let region = component.regions@[i];
            &&& region.kind == 0 && region.net is None && region.unique_id is None
            &&& !region.is_locked && !region.is_tenting_top && !region.is_tenting_bottom
                && !region.is_keepout
        }),
{
    assert(is_region(component.regions@[i], all_regions(plan.pads@, plan.drafts@)[i]));
}

/// What no drawing says of a body is the same for all bodies: a gray one that is not
/// turned and stands on the board, on the first mechanical layer.
pub proof fn law_body_settings(component: PcbComponent, plan: FootprintPlan)
    requires
        is_component(component, plan),
        component.bodies@.len() > 0,
    ensures
        ({
            let body = component.bodies@[0];
            &&& body.layer_name@ == "MECHANICAL1"@
            &&& body.kind == 0 && body.union_index == 0 && body.subpoly_index == -1
            &&& body.arc_resolution_raw == 5_000 && !body.is_shape_based
            &&& body.cavity_height_raw == 0 && body.standoff_height_raw == 0
            &&& body.body_color_3d == 0x80_8080 && body.body_opacity_3d.bits
                == 0x3ff0_0000_0000_0000
            &&& body.body_projection == 0 && body.model_type == 1 && body.model_embed
            &&& body.model_2d_location == (CoordPoint { x: 0, y: 0 })
            &&& body.model_2d_rotation.bits == 0 && body.model_3d_rot_x.bits == 0
                && body.model_3d_rot_y.bits == 0 && body.model_3d_rot_z.bits == 0
            &&& body.model_3d_dz_raw == 0 && body.model_checksum == 0
            &&& !body.is_locked && !body.is_tenting_top && !body.is_tenting_bottom
                && !body.is_keepout
        }),
{
}

/// Where no figure says how far the body reaches, it reaches over all that are drawn.
pub proof fn law_body_over_figures(
    pads: Seq<MeasuredPad>,
    drafts: Seq<MeasuredDraft>,
    d: int,
    i: int,
)
    requires
        forall|k: int| 0 <= k < drafts.len() ==> !((#[trigger] drafts[k]).0.role is Body),
        0 <= d < drafts.len(),
        counts(drafts[d].0, drafts[d].1),
        0 <= i < drafts[d].1.reach@.len(),
        ({
            let all = pad_reach(pads, pads.len() as int) + draft_reach(
                drafts,
                drafts.len() as int,
                false,
            );
            forall|k: int|
                0 <= k < all.len() ==> !(#[trigger] all[k]).x.spec_is_nan()
                    && !all[k].y.spec_is_nan()
        }),
    ensures
        ({
            let p = drafts[d].1.reach@[i];
            body_extents(pads, drafts) matches Some(e) && e.min_x.le(p.x) && p.x.le(e.max_x)
                && e.min_y.le(p.y) && p.y.le(e.max_y)
        }),
{
    let n = drafts.len() as int;
    let before = pad_reach(pads, pads.len() as int);
    let points = draft_reach(drafts, n, false);
    lemma_no_body(drafts, n);
    lemma_reach(drafts, n, d, i, false);
    let k = choose|k: int| 0 <= k < points.len() && points[k] == drafts[d].1.reach@[i];
    assert((before + points)[before.len() + k] == drafts[d].1.reach@[i]);
    crate::footprint_parts::law_extents_hold(before + points, before.len() + k);
}

/// Where a figure says how far the body reaches, the pads make no difference to that.
pub proof fn law_body_beyond_pads(
    pads: Seq<MeasuredPad>,
    others: Seq<MeasuredPad>,
    drafts: Seq<MeasuredDraft>,
    d: int,
)
    requires
        0 <= d < drafts.len(),
        drafts[d].0.role is Body,
        counts(drafts[d].0, drafts[d].1),
        drafts[d].1.reach@.len() > 0,
    ensures
        body_extents(pads, drafts) == body_extents(others, drafts),
{
    let n = drafts.len() as int;
    lemma_reach(drafts, n, d, 0, true);
    law_extents_tight(draft_reach(drafts, n, true));
}

} // verus!
