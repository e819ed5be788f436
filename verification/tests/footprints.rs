use npnp::cells::{
    choose_data, collect_rows, data_lines, parse_path_steps, Cell, Circle, Numeral, PathStep,
};
use npnp::error::AppError;
use npnp::footprint::{
    is_component_body_layer, is_overlay_layer, map_graphic_layer, map_pad_hole_type, map_pad_layer,
    map_pad_shape, mask_region_layers, read_sketch, Draft, Figure, Role,
};
use npnp::footprint_parts::{
    build_pcblib, footprint_extents, marker_circles, primitives_fit, resolve_graphic_width_raw,
    settle_pad, Extents, FootprintPlan, Measure, ModelFile, Pad, PadGeometry, PadRect, PathMeasure, RawExtents,
    RawPoint, CORNER_RADIUS_PERCENTAGE as PAD_CORNER_PERCENTAGE,
};
use npnp::footprint_text::{
    choose_step_model_name, guess_package_family_height, height_text,
    normalize_footprint_description, pad_shape_region_params, parse_model_link,
    resolve_component_height, resolve_footprint_description, step_model_base,
    truncate_to_char_boundary, DescriptionFields, HeightCandidate,
};
use npnp::pcblib::{
    CoordPoint, PcbLibrary, LAYER_BOTTOM, LAYER_MECHANICAL_2, LAYER_MECHANICAL_9, LAYER_MULTI,
    LAYER_TOP, LAYER_TOP_OVERLAY, PAD_HOLE_ROUND, PAD_HOLE_SLOT, PAD_HOLE_SQUARE,
    PAD_SHAPE_OCTAGONAL, PAD_SHAPE_RECTANGULAR, PAD_SHAPE_ROUND, PAD_SHAPE_ROUNDED_RECTANGLE,
};
use npnp::reals::Real;
use serde_json::Value;

// How drawings measure, in double precision.

const FOOTPRINT_UNIT_TO_MM: f64 = 0.0254;
const RAW_PER_MIL: f64 = 10_000.0;
const CIRCLE_SEGMENTS: usize = 32;
const PATH_ARC_SEGMENT_DEGREES: f64 = 10.0;
const RECT_CORNER_SEGMENTS: usize = 6;
const ROUNDED_RECT_CORNER_SEGMENTS: usize = 8;
const CORNER_RADIUS_PERCENTAGE: f64 = 25.0;

/// A point in the units of a drawing.
#[derive(Debug, Clone, Copy, PartialEq)]
struct Point {
    x: f64,
    y: f64,
}

fn to_real(value: f64) -> Real {
    Real::new(value.to_bits())
}

fn number(value: Real) -> f64 {
    f64::from_bits(value.bits)
}

fn raw_point(x: f64, y: f64) -> RawPoint {
    RawPoint {
        x: to_real(x),
        y: to_real(y),
    }
}

fn easy_units_to_mm(value: f64) -> f64 {
    value * FOOTPRINT_UNIT_TO_MM
}

fn raw_from_mils(value: f64) -> i32 {
    (value * RAW_PER_MIL)
        .round()
        .clamp(i32::MIN as f64, i32::MAX as f64) as i32
}

fn raw_from_mm(value: f64) -> i32 {
    raw_from_mils(value / FOOTPRINT_UNIT_TO_MM)
}

fn coord(x: f64, y: f64) -> CoordPoint {
    CoordPoint::new(raw_from_mils(x), raw_from_mils(y))
}

fn coords(points: &[Point]) -> Vec<CoordPoint> {
    points.iter().map(|point| coord(point.x, point.y)).collect()
}

fn normalize_angle(value: f64) -> f64 {
    let mut angle = value % 360.0;
    if angle < 0.0 {
        angle += 360.0;
    }
    angle
}

fn add_point(points: &mut Vec<Point>, x: f64, y: f64) {
    if let Some(last) = points.last() {
        if (last.x - x).abs() < 1e-9 && (last.y - y).abs() < 1e-9 {
            return;
        }
    }
    points.push(Point { x, y });
}

fn add_corner_arc(
    points: &mut Vec<Point>,
    center: Point,
    radius: f64,
    start_degrees: f64,
    end_degrees: f64,
) {
    for step in 1..=RECT_CORNER_SEGMENTS {
        let t = step as f64 / RECT_CORNER_SEGMENTS as f64;
        let angle = (start_degrees + (end_degrees - start_degrees) * t).to_radians();
        add_point(
            points,
            center.x + radius * angle.cos(),
            center.y + radius * angle.sin(),
        );
    }
}

fn add_rect(points: &mut Vec<Point>, x: f64, y: f64, width: f64, height: f64, radius: f64) {
    let x2 = x + width;
    let y2 = y - height;
    let left = x.min(x2);
    let right = x.max(x2);
    let top = y.max(y2);
    let bottom = y.min(y2);
    let radius = radius
        .abs()
        .min((right - left).abs() / 2.0)
        .min((top - bottom).abs() / 2.0);

    if radius <= 1e-9 {
        add_point(points, left, top);
        add_point(points, right, top);
        add_point(points, right, bottom);
        add_point(points, left, bottom);
        add_point(points, left, top);
        return;
    }

    let corner = |x: f64, y: f64| Point { x, y };
    add_point(points, left + radius, top);
    add_point(points, right - radius, top);
    add_corner_arc(points, corner(right - radius, top - radius), radius, 90.0, 0.0);
    add_point(points, right, bottom + radius);
    add_corner_arc(points, corner(right - radius, bottom + radius), radius, 0.0, -90.0);
    add_point(points, left + radius, bottom);
    add_corner_arc(points, corner(left + radius, bottom + radius), radius, -90.0, -180.0);
    add_point(points, left, top - radius);
    add_corner_arc(points, corner(left + radius, top - radius), radius, 180.0, 90.0);
    add_point(points, left + radius, top);
}

fn add_arc(points: &mut Vec<Point>, sweep_degrees: f64, end_x: f64, end_y: f64) {
    let Some(start) = points.last().copied() else {
        add_point(points, end_x, end_y);
        return;
    };

    let sweep_abs = sweep_degrees.abs();
    let dx = end_x - start.x;
    let dy = end_y - start.y;
    let chord = dx.hypot(dy);
    if chord <= 1e-9 || sweep_abs <= 1e-9 {
        add_point(points, end_x, end_y);
        return;
    }

    let half_sweep = sweep_abs.to_radians() / 2.0;
    let sin_half = half_sweep.sin();
    let tan_half = half_sweep.tan();
    if sin_half.abs() <= 1e-9 || tan_half.abs() <= 1e-9 {
        add_point(points, end_x, end_y);
        return;
    }

    let radius = chord / (2.0 * sin_half.abs());
    let center_distance = chord / (2.0 * tan_half.abs());
    let mid_x = (start.x + end_x) / 2.0;
    let mid_y = (start.y + end_y) / 2.0;
    let left_x = -(dy / chord);
    let left_y = dx / chord;
    let direction = if sweep_degrees >= 0.0 { 1.0 } else { -1.0 };
    let center_x = mid_x + left_x * center_distance * direction;
    let center_y = mid_y + left_y * center_distance * direction;
    let start_angle = (start.y - center_y).atan2(start.x - center_x);
    let segments = ((sweep_abs / PATH_ARC_SEGMENT_DEGREES).ceil() as usize).max(1);

    for step in 1..=segments {
        let t = step as f64 / segments as f64;
        let angle = start_angle + sweep_degrees.to_radians() * t;
        add_point(
            points,
            center_x + radius * angle.cos(),
            center_y + radius * angle.sin(),
        );
    }

    if let Some(last) = points.last_mut() {
        last.x = end_x;
        last.y = end_y;
    }
}

/// The points that a path goes through.
fn path_points(steps: &[PathStep]) -> Vec<Point> {
    let mut points = Vec::new();
    for step in steps {
        match *step {
            PathStep::Point { x, y } => add_point(&mut points, number(x), number(y)),
            PathStep::Rect {
                x,
                y,
                width,
                height,
                radius,
            } => add_rect(
                &mut points,
                number(x),
                number(y),
                number(width),
                number(height),
                number(radius),
            ),
            PathStep::Arc { sweep, x, y } => {
                add_arc(&mut points, number(sweep), number(x), number(y))
            }
        }
    }
    points
}

fn circle_ring(circle: &Circle) -> Vec<CoordPoint> {
    let (cx, cy, radius) = (number(circle.cx), number(circle.cy), number(circle.radius));
    (0..CIRCLE_SEGMENTS)
        .map(|index| {
            let angle = (2.0 * std::f64::consts::PI * index as f64) / CIRCLE_SEGMENTS as f64;
            coord(cx + radius * angle.cos(), cy + radius * angle.sin())
        })
        .collect()
}

fn same(left: f64, right: f64) -> bool {
    (left - right).abs() < 1e-6
}

fn axis_aligned_rect(points: &[Point]) -> Option<PadRect> {
    let mut unique: Vec<Point> = Vec::new();
    for point in points {
        if !unique
            .iter()
            .any(|existing| same(existing.x, point.x) && same(existing.y, point.y))
        {
            unique.push(*point);
        }
    }
    if unique.len() != 4 {
        return None;
    }

    let mut xs: Vec<f64> = Vec::new();
    let mut ys: Vec<f64> = Vec::new();
    for point in &unique {
        if !xs.iter().any(|x| same(*x, point.x)) {
            xs.push(point.x);
        }
        if !ys.iter().any(|y| same(*y, point.y)) {
            ys.push(point.y);
        }
    }
    if xs.len() != 2 || ys.len() != 2 {
        return None;
    }
    if xs[0] > xs[1] {
        xs.swap(0, 1);
    }
    if ys[0] > ys[1] {
        ys.swap(0, 1);
    }

    for x in &xs {
        for y in &ys {
            if !unique
                .iter()
                .any(|point| same(point.x, *x) && same(point.y, *y))
            {
                return None;
            }
        }
    }

    let width = xs[1] - xs[0];
    let height = ys[1] - ys[0];
    (width > 0.000_001 && height > 0.000_001).then_some(PadRect {
        center_x: to_real((xs[0] + xs[1]) / 2.0),
        center_y: to_real((ys[0] + ys[1]) / 2.0),
        width: to_real(width),
        height: to_real(height),
    })
}

/// Measures the path of a pad.
fn measure_path(points: &[Point]) -> PathMeasure {
    let size = points.first().map(|first| {
        let mut low = *first;
        let mut high = *first;
        for point in points {
            low.x = low.x.min(point.x);
            low.y = low.y.min(point.y);
            high.x = high.x.max(point.x);
            high.y = high.y.max(point.y);
        }
        (to_real(high.x - low.x), to_real(high.y - low.y))
    });
    PathMeasure {
        count: points.len(),
        size,
        rect: axis_aligned_rect(points),
    }
}

/// A point beside the center of a pad, turned with it.
fn turned(pad: &Pad, local_x: f64, local_y: f64) -> CoordPoint {
    let (sin, cos) = normalize_angle(number(pad.rotation)).to_radians().sin_cos();
    coord(
        number(pad.x) + local_x * cos - local_y * sin,
        number(pad.y) + local_x * sin + local_y * cos,
    )
}

fn rectangle_corners(pad: &Pad) -> Vec<CoordPoint> {
    let (half_w, half_h) = (number(pad.width) / 2.0, number(pad.height) / 2.0);
    vec![
        turned(pad, -half_w, -half_h),
        turned(pad, half_w, -half_h),
        turned(pad, half_w, half_h),
        turned(pad, -half_w, half_h),
    ]
}

fn corner_radius(pad: &Pad) -> f64 {
    let (width, height) = (number(pad.width), number(pad.height));
    if width <= 0.0 || height <= 0.0 {
        return 0.0;
    }
    (width.min(height) * CORNER_RADIUS_PERCENTAGE / 200.0)
        .clamp(0.0, (width / 2.0).min(height / 2.0))
}

/// The points around a pad with round corners, as they come.
fn rounded_points(pad: &Pad, radius: f64) -> Vec<CoordPoint> {
    let (half_w, half_h) = (number(pad.width) / 2.0, number(pad.height) / 2.0);
    let corners = [
        (half_w - radius, -half_h + radius, -90.0),
        (half_w - radius, half_h - radius, 0.0),
        (-half_w + radius, half_h - radius, 90.0),
        (-half_w + radius, -half_h + radius, 180.0),
    ];
    let sides = [
        (half_w - radius, -half_h),
        (half_w, half_h - radius),
        (-half_w + radius, half_h),
        (-half_w, -half_h + radius),
    ];
    let mut points = vec![turned(pad, -half_w + radius, -half_h)];
    for ((center_x, center_y, start), (x, y)) in corners.into_iter().zip(sides) {
        points.push(turned(pad, x, y));
        for step in 1..=ROUNDED_RECT_CORNER_SEGMENTS {
            let t = step as f64 / ROUNDED_RECT_CORNER_SEGMENTS as f64;
            let angle = (start + 90.0 * t).to_radians();
            points.push(turned(
                pad,
                center_x + radius * angle.cos(),
                center_y + radius * angle.sin(),
            ));
        }
    }
    points
}

/// Measures a pad. `points` are those of its path.
fn measure_pad(pad: &Pad, points: &[Point]) -> PadGeometry {
    let (x, y) = (number(pad.x), number(pad.y));
    let (width, height) = (number(pad.width), number(pad.height));
    let hole_mm = easy_units_to_mm(number(pad.hole));
    let rotation = normalize_angle(number(pad.rotation));
    let radius = corner_radius(pad);
    PadGeometry {
        has_hole: hole_mm > 0.000_001,
        equal_sides: (width - height).abs() < 0.000_001,
        rotation: to_real(rotation),
        slot_level: to_real(normalize_angle(rotation + 0.0)),
        slot_upright: to_real(normalize_angle(rotation + 90.0)),
        location: coord(x, y),
        size: coord(width, height),
        hole_size_raw: raw_from_mm(hole_mm),
        hole_slot_raw: raw_from_mm(easy_units_to_mm(number(pad.hole_slot))),
        rectangle: rectangle_corners(pad),
        has_round_corners: radius > 1e-9,
        rounded: rounded_points(pad, radius),
        polygon: coords(points),
        mask_text: format!("{:.3}mil", number(pad.mask_units)),
        corners: vec![
            raw_point(x - width / 2.0, y - height / 2.0),
            raw_point(x + width / 2.0, y + height / 2.0),
        ],
    }
}

fn is_marked(circle: &Circle, markers: &[Circle]) -> bool {
    markers.iter().any(|marker| {
        (number(marker.cx) - number(circle.cx)).abs() < 0.001
            && (number(marker.cy) - number(circle.cy)).abs() < 0.001
            && number(marker.radius) > 0.0
            && number(marker.radius) <= number(circle.radius)
    })
}

/// Measures a line or an area. `markers` are the circles that mark alignment holes.
fn measure_draft(draft: &Draft, markers: &[Circle]) -> Measure {
    let mut measure = Measure {
        reach: Vec::new(),
        points: Vec::new(),
        center: CoordPoint::new(0, 0),
        radius_raw: 0,
        diameter_raw: 0,
        ring: Vec::new(),
        start_angle: to_real(0.0),
        end_angle: to_real(0.0),
        width_raw: raw_from_mils(number(draft.width)),
        is_marked: false,
    };
    let mut round = |circle: &Circle| {
        let (cx, cy, radius) = (number(circle.cx), number(circle.cy), number(circle.radius));
        measure.reach = vec![
            raw_point(cx - radius, cy - radius),
            raw_point(cx + radius, cy + radius),
        ];
        measure.center = coord(cx, cy);
        measure.radius_raw = raw_from_mils(radius);
        measure.diameter_raw = raw_from_mils(radius * 2.0);
        measure.ring = circle_ring(circle);
        measure.is_marked = is_marked(circle, markers);
    };
    match &draft.figure {
        Figure::Path { steps, .. } => {
            let points = path_points(steps);
            measure.reach = points.iter().map(|p| raw_point(p.x, p.y)).collect();
            measure.points = coords(&points);
        }
        Figure::Circle(circle) => round(circle),
        Figure::Arc { circle, start, end } => {
            round(circle);
            measure.start_angle = to_real(normalize_angle(number(*start)));
            measure.end_angle = to_real(normalize_angle(number(*end)));
        }
        Figure::Segment { x1, y1, x2, y2 } => {
            let ends = [(*x1, *y1), (*x2, *y2)];
            measure.reach = ends.iter().map(|(x, y)| RawPoint { x: *x, y: *y }).collect();
            measure.points = ends
                .iter()
                .map(|(x, y)| coord(number(*x), number(*y)))
                .collect();
        }
        Figure::Frame { x1, y1, x2, y2 } => {
            let corners = [(*x1, *y1), (*x2, *y1), (*x2, *y2), (*x1, *y2), (*x1, *y1)];
            measure.reach = vec![RawPoint { x: *x1, y: *y1 }, RawPoint { x: *x2, y: *y2 }];
            measure.points = corners
                .iter()
                .map(|(x, y)| coord(number(*x), number(*y)))
                .collect();
        }
    }
    measure
}

fn raw_extents(extents: Extents) -> RawExtents {
    RawExtents {
        min_x: raw_from_mils(number(extents.min_x)),
        max_x: raw_from_mils(number(extents.max_x)),
        min_y: raw_from_mils(number(extents.min_y)),
        max_y: raw_from_mils(number(extents.max_y)),
    }
}

// Libraries out of rows.

fn numeral(value: f64) -> Numeral {
    Numeral {
        value: to_real(value),
        rounded: value.round() as i32,
    }
}

fn cell(value: &Value) -> Cell {
    match value {
        Value::String(text) => Cell::Text {
            text: text.clone(),
            number: text.trim().parse().ok().map(numeral),
        },
        Value::Array(items) => Cell::List(items.iter().map(cell).collect()),
        Value::Number(value) => Cell::Plain {
            text: Some(value.to_string()),
            number: value.as_f64().map(numeral),
        },
        Value::Bool(flag) => Cell::Plain {
            text: Some(flag.to_string()),
            number: Some(numeral(if *flag { 1.0 } else { 0.0 })),
        },
        _ => Cell::Plain {
            text: None,
            number: None,
        },
    }
}

fn json(text: &str) -> Cell {
    cell(&serde_json::from_str::<Value>(text).unwrap())
}

fn rows_of(data: &str) -> Result<Vec<Vec<Cell>>, AppError> {
    let lines = data_lines(data)
        .into_iter()
        .map(|(line, text)| {
            let parsed = serde_json::from_str::<Value>(&text)
                .map(|value| cell(&value))
                .map_err(|err| err.to_string());
            (line, parsed)
        })
        .collect();
    collect_rows(lines)
}

fn parse_height(title: &str) -> Option<Real> {
    height_text(title)?.parse().ok().map(to_real)
}

/// The library for a drawing, with the title and the file of its model.
fn library(data: &str, name: &str, title: Option<&str>, step: Option<&[u8]>) -> PcbLibrary {
    let sketch = read_sketch(&rows_of(data).unwrap());
    let pads: Vec<(Pad, PadGeometry)> = sketch
        .pads
        .into_iter()
        .map(|sketch| {
            let points = sketch.path.as_deref().map(path_points).unwrap_or_default();
            let measure = sketch.path.as_ref().map(|_| measure_path(&points));
            let pad = settle_pad(sketch, measure);
            let geometry = measure_pad(&pad, &points);
            (pad, geometry)
        })
        .collect();
    let markers = marker_circles(&sketch.drafts);
    let drafts: Vec<(Draft, Measure)> = sketch
        .drafts
        .into_iter()
        .map(|draft| {
            let measure = measure_draft(&draft, &markers);
            (draft, measure)
        })
        .collect();
    let link = parse_model_link(title.map(|_| "modeluuid"), title, Some("0,0,0,1,2,3"));
    let titled = link.as_ref().and_then(|link| parse_height(&link.title));
    let height = resolve_component_height(titled, &Vec::new());
    let model = match (link, step) {
        (Some(link), Some(step)) => Some(ModelFile {
            id: link.uri.clone(),
            name: choose_step_model_name(&step_model_base(name, &link.title)),
            step_data: step.to_vec(),
        }),
        _ => None,
    };
    let extents = footprint_extents(&pads, &drafts).map(raw_extents);
    let plan = FootprintPlan {
        name: name.to_string(),
        description: String::new(),
        height_raw: raw_from_mm(number(height)),
        pads,
        drafts,
        model,
        extents,
    };
    assert!(primitives_fit(&plan));
    build_pcblib(plan)
}

#[test]
fn builds_pcblib_primitives_from_easyeda_footprint() {
    let data = r#"["DOCTYPE","FOOTPRINT","1.8"]
["PAD","e1",0,"",1,"1",10,20,90,null,["OVAL",30,40],[],0,0,0,1]
["TRACK","t1",0,"",3,6,0,0,10,0]
["CIRCLE","c1",0,"",3,2,5,5,2]
["FILL","f1",0,"",49,0.2,0,[[0,0,"L",10,0,10,10,0,10,0,0]],0]"#;
    let library = library(
        data,
        "TEST",
        Some("BODY-H1.2"),
        Some(b"ISO-10303-21;END-ISO-10303-21;"),
    );
    let component = &library.components[0];
    assert_eq!(component.pads.len(), 1);
    assert_eq!(component.tracks.len(), 1);
    assert_eq!(component.arcs.len(), 1);
    assert_eq!(component.regions.len(), 2);
    assert!(component
        .regions
        .iter()
        .any(|region| region.layer == LAYER_MECHANICAL_9));
    assert_eq!(component.bodies.len(), 1);
    assert_eq!(library.models.len(), 1);

    assert_eq!(component.height_raw, 472_441);
    assert_eq!(component.bodies[0].overall_height_raw, 472_441);
    assert_eq!(component.bodies[0].model_name, "BODY-H1.2.step");
    assert_eq!(library.models[0].step_data, b"ISO-10303-21;END-ISO-10303-21;");
    assert_eq!(component.pads[0].rotation, to_real(90.0));
    assert_eq!(component.pads[0].location, CoordPoint::new(100_000, 200_000));
    assert_eq!(component.arcs[0].end_angle, to_real(360.0));
}

#[test]
fn skips_body_when_step_model_is_missing() {
    let data = r#"["DOCTYPE","FOOTPRINT","1.8"]
["PAD","e1",0,"",1,"1",0,0,0,null,["RECT",20,30,0],[],0,0,0,1]
["POLY","body",0,"",48,2,[-120,120,"L",120,120,120,-120,-120,-120,-120,120],0]"#;
    let library = library(data, "RP2350A_C42411118", None, None);
    let component = &library.components[0];
    assert_eq!(library.models.len(), 0);
    assert_eq!(component.bodies.len(), 0);
    assert_eq!(component.tracks.len(), 0);
}

#[test]
fn bodies_reach_as_far_as_their_layer_says() {
    let data = r#"["PAD","e1",0,"",1,"1",500,0,0,null,["RECT",20,30,0]]
["POLY","body",0,"",48,2,[-120,110,"L",120,110,120,-110,-120,-110],0]"#;
    let with_body = library(data, "X", Some("X"), Some(b"step"));
    assert_eq!(
        with_body.components[0].bodies[0].outline,
        vec![
            CoordPoint::new(-1_200_000, -1_100_000),
            CoordPoint::new(1_200_000, -1_100_000),
            CoordPoint::new(1_200_000, 1_100_000),
            CoordPoint::new(-1_200_000, 1_100_000),
        ]
    );
    let pad = r#"["PAD","e1",0,"",1,"1",500,0,0,null,["RECT",20,30,0]]"#;
    let without = library(pad, "X", Some("X"), Some(b"step"));
    assert_eq!(
        without.components[0].bodies[0].outline[0],
        CoordPoint::new(4_900_000, -150_000)
    );
    let nothing = library("", "X", Some("X"), Some(b"step"));
    assert!(nothing.components[0].bodies.is_empty() && nothing.models.is_empty());
}

#[test]
fn exports_poly_pad_as_hotspot_with_shape_regions() {
    let data = r#"["DOCTYPE","FOOTPRINT","1.8"]
["PAD","e1",0,"",1,"20",-39.37,61.39,0,null,["POLY",[-45.315,76.467,"L",-45.315,51.985,-37.945,44.948,-33.474,44.863,-33.419,76.471,-45.315,76.467]],[],0.003,-0.003,90,1,0,1.9689999999999999,1.9689999999999999,0,0,0]"#;
    let library = library(data, "UFQFPN-20_L3.0-W3.0-P0.50-TL", None, None);
    let component = &library.components[0];
    assert_eq!(component.pads.len(), 1);
    assert_eq!(component.pads[0].shape_top, PAD_SHAPE_ROUND);
    assert_eq!(component.regions.len(), 2);
    assert!(component
        .regions
        .iter()
        .any(|region| region.layer == LAYER_MECHANICAL_9 && region.outline.len() == 6));
    assert_eq!(component.extended_primitive_information.len(), 1);

    assert_eq!(component.pads[0].size_top, CoordPoint::new(23_792, 23_792));
    assert_eq!(component.pads[0].solder_mask_expansion_raw, 0);
    let info = &component.extended_primitive_information[0];
    assert_eq!(info.primitive_index, 2);
    assert_eq!(component.regions[1].layer, LAYER_TOP);
    assert!(info
        .params
        .iter()
        .any(|(name, value)| name == "SOLDERMASKEXPANSION_MANUAL" && value == "1.969mil"));
}

#[test]
fn openings_are_counted_behind_everything_else() {
    let data = r#"["TRACK","t1",0,"",3,6,0,0,10,0]
["PAD","e1",0,"",12,"20",0,0,0,null,["POLY",[0,0,"L",0,20,15,30,20,0]]]
["PAD","e2",0,"",1,"21",50,0,0,null,["POLY",[50,0,"L",50,20,65,30,70,0]]]"#;
    let library = library(data, "X", None, None);
    let component = &library.components[0];
    let start = component.pads.len() + component.tracks.len() + component.arcs.len();
    assert_eq!(component.regions.len(), 5);
    let numbers: Vec<usize> = component
        .extended_primitive_information
        .iter()
        .map(|info| info.primitive_index - start)
        .collect();
    assert_eq!(numbers, vec![2, 3, 4]);
    let layers: Vec<u8> = numbers.iter().map(|n| component.regions[*n].layer).collect();
    assert_eq!(layers, vec![LAYER_TOP, LAYER_BOTTOM, LAYER_TOP]);
    assert_eq!(
        component.extended_primitive_information[0].params[2].1,
        "2.379mil"
    );
}

#[test]
fn exports_rectangular_poly_pad_as_rounded_rectangular_pad() {
    let data = r#"["DOCTYPE","FOOTPRINT","1.8"]
["PAD","e8",0,"",1,"1",-28,0.2,0,null,["POLY",[-40.005,9.698,"L",-16.005,9.698,-16.005,-9.302,-40.005,-9.302,-40.005,9.698]],[],-0.005,-0.003,0,1,0,null,null,null,null,0]
["PAD","e9",0,"",1,"2",28,-0.2,0,null,["POLY",[15.995,9.304,"L",39.995,9.304,39.995,-9.696,15.995,-9.696,15.995,9.304]],[],-0.005,0.004,0,1,0,null,null,null,null,0]"#;
    let library = library(data, "SOD-323", None, None);
    let component = &library.components[0];

    assert_eq!(component.pads.len(), 2);
    assert!(component
        .pads
        .iter()
        .all(|pad| pad.shape_top == PAD_SHAPE_ROUNDED_RECTANGLE));
    assert!(component
        .pads
        .iter()
        .all(|pad| pad.corner_radius_percentage == PAD_CORNER_PERCENTAGE));
    assert_eq!(component.pads[0].size_top.x, 240_000);
    assert_eq!(component.pads[0].size_top.y, 190_000);
    assert_eq!(component.pads[0].location.x, -280_050);
    assert_eq!(component.pads[0].location.y, 1_980);
    assert_eq!(component.regions.len(), 2);
    assert!(component
        .regions
        .iter()
        .filter(|region| region.layer == LAYER_MECHANICAL_9)
        .all(|region| region.outline.len() > 5));
    assert!(component
        .regions
        .iter()
        .filter(|region| region.layer == LAYER_MECHANICAL_9)
        .all(|region| region.outline.len() == ROUNDED_RECT_CORNER_SEGMENTS * 4 + 6));
    assert_eq!(component.extended_primitive_information.len(), 0);
}

#[test]
fn maps_easyeda_slot_pad_to_altium_slot_drill() {
    let data = r#"["DOCTYPE","FOOTPRINT","1.8"]
["PAD","e56",0,"",12,"13",-170.275,71.855,0,["SLOT",59.055,23.622],["OVAL",43.307,78.74],[],0.002,-0.003,90,1,0,1.9689999999999999,1.9689999999999999,0,0,0]"#;
    let library = library(data, "USB-C-SMD_TYPE-C-16PIN-2MD-073", None, None);
    let pad = &library.components[0].pads[0];

    assert_eq!(pad.hole_type, PAD_HOLE_SLOT);
    assert_eq!(pad.hole_size_raw, 236_220);
    assert_eq!(pad.hole_slot_length_raw, 590_550);
    assert_eq!(number(pad.hole_rotation), 90.0);
}

#[test]
fn maps_marked_multilayer_fill_circle_to_unplated_alignment_hole() {
    let data = r#"["DOCTYPE","FOOTPRINT","1.8"]
["POLY","e2",0,"",13,9.843,["CIRCLE",-113.775,51.375,4.92],0]
["FILL","e54",0,"",12,0.2,0,["CIRCLE",-113.775,51.375,13.78],0]"#;
    let library = library(data, "USB-C-SMD_TYPE-C-16PIN-2MD-073", None, None);
    let component = &library.components[0];
    let pad = &component.pads[0];

    assert_eq!(component.pads.len(), 1);
    assert_eq!(pad.layer, LAYER_MULTI);
    assert!(!pad.is_plated);
    assert_eq!(pad.hole_type, PAD_HOLE_ROUND);
    assert_eq!(pad.hole_size_raw, 275_600);
    assert_eq!(pad.size_top.x, 275_600);
    assert_eq!(component.arcs.len(), 1);
    assert!(
        component
            .tracks
            .iter()
            .filter(|track| track.layer == LAYER_TOP_OVERLAY)
            .count()
            >= 32
    );
}

#[test]
fn maps_unmarked_nested_multilayer_fill_circle_to_multilayer_region() {
    let data = r#"["DOCTYPE","FOOTPRINT","1.8"]
["FILL","e55",0,"",12,0.2,0,[["CIRCLE",113.785,51.375,13.78]],0]"#;
    let library = library(data, "USB-C-SMD_TYPE-C-16PIN-2MD-073", None, None);
    let component = &library.components[0];

    assert_eq!(component.pads.len(), 0);
    assert_eq!(component.regions.len(), 1);
    assert!(component
        .regions
        .iter()
        .any(|region| region.layer == LAYER_MULTI && region.outline.len() == 32));
}

#[test]
fn maps_document_circle_to_mechanical_arc() {
    let data = r#"["DOCTYPE","FOOTPRINT","1.8"]
["POLY","e2",0,"",13,9.843,["CIRCLE",-113.775,51.375,4.92],0]"#;
    let library = library(data, "USB-C-SMD_TYPE-C-16PIN-2MD-073", None, None);
    let component = &library.components[0];
    let arc = &component.arcs[0];

    assert_eq!(component.arcs.len(), 1);
    assert_eq!(arc.layer, LAYER_MECHANICAL_2);
    assert_eq!(arc.radius_raw, 49_200);
    assert_eq!(arc.width_raw, 98_430);
}

#[test]
fn c2765186_exports_two_alignment_hole_markers() {
    let data = r#"["DOCTYPE","FOOTPRINT","1.8"]
["POLY","e2",0,"",13,9.843,["CIRCLE",-113.775,51.375,4.92],0]
["POLY","e3",0,"",13,9.843,["CIRCLE",113.785,51.375,4.92],0]
["FILL","e54",0,"",12,0.2,0,["CIRCLE",-113.775,51.375,13.78],0]
["FILL","e55",0,"",12,0.2,0,["CIRCLE",113.785,51.375,13.78],0]"#;
    let library = library(data, "USB-C-SMD_TYPE-C-16PIN-2MD-073", None, None);
    let component = &library.components[0];
    let alignment_pads: Vec<_> = component
        .pads
        .iter()
        .filter(|pad| pad.layer == LAYER_MULTI && !pad.is_plated && pad.hole_size_raw == 275_600)
        .collect();
    let alignment_arcs: Vec<_> = component
        .tracks
        .iter()
        .filter(|track| {
            track.layer == LAYER_TOP_OVERLAY
                && (track.start.x + 1_137_750).abs() < 140_000
                && (track.start.y - 513_750).abs() < 140_000
        })
        .collect();

    assert_eq!(alignment_pads.len(), 2);
    assert_eq!(alignment_arcs.len(), 32);
    assert!(alignment_pads
        .iter()
        .any(|pad| pad.location.x == -1_137_750 && pad.location.y == 513_750));
    assert!(alignment_pads
        .iter()
        .any(|pad| pad.location.x == 1_137_850 && pad.location.y == 513_750));
}

#[test]
fn normalizes_semicolon_footprint_description() {
    assert_eq!(
        normalize_footprint_description(";UFQFPN-20(3x3);UFQFPN-20;UFQFPN-20_L3.0-W3.0-P0.50"),
        Some("UFQFPN-20(3x3)".to_string())
    );
}

#[test]
fn parses_rectangular_r_path_command() {
    let steps = parse_path_steps(&json(r#"["R", -100.001, 35, 200, 70, 0]"#));
    assert_eq!(
        steps,
        vec![PathStep::Rect {
            x: to_real(-100.001),
            y: to_real(35.0),
            width: to_real(200.0),
            height: to_real(70.0),
            radius: to_real(0.0),
        }]
    );
    let points = path_points(&steps);
    assert_eq!(points.len(), 5);
    assert_eq!(
        points,
        vec![
            Point {
                x: -100.001,
                y: 35.0
            },
            Point { x: 99.999, y: 35.0 },
            Point {
                x: 99.999,
                y: -35.0
            },
            Point {
                x: -100.001,
                y: -35.0
            },
            Point {
                x: -100.001,
                y: 35.0
            },
        ]
    );
}

#[test]
fn expands_easyeda_path_arc_commands() {
    let points = path_points(&parse_path_steps(&json(r#"[0, 0, "ARC", 180, 10, 0]"#)));

    assert!(points.len() > 3);
    assert_eq!(points.first(), Some(&Point { x: 0.0, y: 0.0 }));
    assert_eq!(points.last(), Some(&Point { x: 10.0, y: 0.0 }));
    assert!(points
        .iter()
        .skip(1)
        .take(points.len().saturating_sub(2))
        .any(|point| point.y.abs() > 1.0));
}

#[test]
fn expands_c41430892_top_overlay_arc_instead_of_chord() {
    let shape = json(r#"[285.274, 177.846, "ARC", 90, 2.486, 460.634]"#);
    let points = path_points(&parse_path_steps(&shape));

    assert!(points.len() > 3);
    assert_eq!(
        points.first(),
        Some(&Point {
            x: 285.274,
            y: 177.846
        })
    );
    assert_eq!(
        points.last(),
        Some(&Point {
            x: 2.486,
            y: 460.634
        })
    );
    assert!(points
        .iter()
        .skip(1)
        .take(points.len().saturating_sub(2))
        .any(|point| point.x > 2.486 && point.x < 285.274 && point.y > 177.846));
}

#[test]
fn builds_rotated_rectangular_outline_regions() {
    let data = r#"["PAD","e1",0,"",1,"1",-57.09,19.38,90,null,["OCT",11.811,39.37]]"#;
    let library = library(data, "X", None, None);
    let outline = &library.components[0].regions[0].outline;
    assert_eq!(outline.len(), 5);
    assert_eq!(outline.first(), outline.last());
}

fn point(x: f64, y: f64) -> PathStep {
    PathStep::Point {
        x: to_real(x),
        y: to_real(y),
    }
}

#[test]
fn paths_are_read_step_by_step() {
    let shape = json(r#"[1, 2, "l", 3, 4, "5", 6, 7, "X", 8, 9, null, 10, 11]"#);
    assert_eq!(
        parse_path_steps(&shape),
        vec![
            point(1.0, 2.0),
            point(3.0, 4.0),
            point(5.0, 6.0),
            point(8.0, 9.0),
            point(10.0, 11.0),
        ]
    );
    assert_eq!(
        parse_path_steps(&json(r#"["R", 1, 2, 3]"#)),
        vec![point(1.0, 2.0)]
    );
    assert_eq!(
        parse_path_steps(&json(r#"["a", 90, 2, 3, "R", 1, 2, 3, 4]"#)),
        vec![
            PathStep::Arc {
                sweep: to_real(90.0),
                x: to_real(2.0),
                y: to_real(3.0)
            },
            PathStep::Rect {
                x: to_real(1.0),
                y: to_real(2.0),
                width: to_real(3.0),
                height: to_real(4.0),
                radius: to_real(0.0)
            },
        ]
    );
    assert!(parse_path_steps(&json(r#"["circle", 1, 2, 3]"#)).is_empty());
    assert!(parse_path_steps(&json("7")).is_empty());
}

#[test]
fn rows_that_cannot_be_parsed_are_named() {
    match rows_of("[1]\n\n  [2\n") {
        Err(AppError::InvalidResponse(text)) => {
            assert!(text.starts_with("invalid EasyEDA dataStr row 3: "), "{text}")
        }
        _ => panic!("expected an error"),
    }
    assert_eq!(rows_of("[1]\n{}\n 7 \n[]\r\n").unwrap().len(), 2);
}

#[test]
fn drawings_are_looked_for_in_two_places() {
    let text = |s: &str| Some(s.to_string());
    assert_eq!(choose_data(text("a"), text("b")).unwrap(), "a");
    assert_eq!(choose_data(None, text("b")).unwrap(), "b");
    match choose_data(None, None) {
        Err(AppError::InvalidResponse(text)) => {
            assert_eq!(text, "footprint payload has no dataStr")
        }
        _ => panic!("expected an error"),
    }
}

#[test]
fn pads_without_designators_are_numbered() {
    let data = r#"["PAD","e",0,"",1,"",0,0]
["pad","e",0,"",1,"A",0,0]
[" PAD ","e",0,"",1,"  ",0,0]
["PAD","e",0,"",1]"#;
    let sketch = read_sketch(&rows_of(data).unwrap());
    let names: Vec<&str> = sketch.pads.iter().map(|p| p.designator.as_str()).collect();
    assert_eq!(names, vec!["1", "A", "2", "3"]);
}

#[test]
fn pads_take_defaults_for_what_is_missing() {
    let sketch = read_sketch(&rows_of(r#"["PAD"]"#).unwrap());
    let pad = &sketch.pads[0];
    assert_eq!(pad.layer_code, 1);
    assert_eq!((pad.shape.as_str(), pad.hole_shape.as_str()), ("ROUND", "ROUND"));
    assert_eq!((number(pad.width), number(pad.height)), (10.0, 10.0));
    assert_eq!(number(pad.hole), 0.0);
    assert!(pad.mask_units.is_none() && pad.path.is_none());
}

#[test]
fn holes_are_read_in_all_their_forms() {
    let data = r#"["PAD","e",0,"",1,"1",0,0,"NaN",-5,["RECT",-1,0],[],0,0,45,1,0,-1,3]
["PAD","e",0,"",1,"2",0,0,30,["ROUND",7],["RECT",4]]
["PAD","e",0,"",1,"3",0,0,0,[" slot ",9,4],["POLY"]]"#;
    let mut sketch = read_sketch(&rows_of(data).unwrap());
    let third = sketch.pads.pop().unwrap();
    let second = sketch.pads.pop().unwrap();
    let first = sketch.pads.pop().unwrap();
    assert_eq!(number(first.hole), 0.0);
    assert_eq!(number(first.hole_slot), -5.0);
    assert_eq!(number(first.rotation), 45.0);
    assert_eq!(first.mask_units.map(number), Some(3.0));
    let settled = settle_pad(first, None);
    assert_eq!((number(settled.width), number(settled.height)), (10.0, 10.0));
    assert_eq!((number(second.hole), number(second.hole_slot)), (7.0, 7.0));
    assert_eq!((number(second.width), number(second.height)), (4.0, 4.0));
    assert_eq!((number(third.hole), number(third.hole_slot)), (4.0, 9.0));
    assert!(third.path.is_none());
}

#[test]
fn figures_go_where_their_layers_say() {
    let data = r#"["TRACK","t",0,"",3,6,0,0,10,0]
["TRACK","t",0,"",48,6,0,0,10,0]
["TRACK","t",0,"",7,6,0,0,10,0]
["RECT","r",0,"",13,6,1,2]
["CIRCLE","c",0,"",4,2,5,5,0.0000001]
["ARC","a",0,"",49,2,5,5,-3,370,-90]
["FILL","f",0,"",99,0.2,0,["CIRCLE",0,0,1],0]
["POLY","p",0,"",3,6]
["TEXT","x"]"#;
    let sketch = read_sketch(&rows_of(data).unwrap());
    let roles: Vec<Role> = sketch.drafts.iter().map(|draft| draft.role).collect();
    assert_eq!(
        roles,
        vec![Role::Stroke, Role::Body, Role::Stroke, Role::Stroke, Role::Body]
    );
    match &sketch.drafts[2].figure {
        Figure::Frame { x1, y1, x2, y2 } => {
            assert_eq!((*x1, *y1), (*x2, *y2));
        }
        other => panic!("expected a frame, got {other:?}"),
    }
    let built = library(data, "X", None, None);
    let component = &built.components[0];
    assert_eq!(component.tracks.len(), 5);
    assert_eq!(component.arcs.len(), 1);
    assert_eq!(component.arcs[0].radius_raw, 30_000);
    assert_eq!(number(component.arcs[0].start_angle), 10.0);
    assert_eq!(number(component.arcs[0].end_angle), 270.0);
}

#[test]
fn short_paths_are_left_out_and_areas_are_closed() {
    let data = r#"["POLY","p",0,"",3,6,[1,1,"L",1,1],0]
["FILL","f",0,"",3,0.2,0,[0,0,"L",10,0],0]
["FILL","f",0,"",3,0.2,0,[0,0,"L",10,0,10,10],0]
["FILL","f",0,"",12,0.2,0,[0,0,"L",10,0,10,10,0,0],0]
["FILL","f",0,"",3,0.2,0,7,0]"#;
    let built = library(data, "X", None, None);
    let component = &built.components[0];
    assert!(component.tracks.is_empty());
    assert_eq!(component.regions.len(), 2);
    assert_eq!(component.regions[0].outline.len(), 4);
    assert_eq!(component.regions[1].outline.len(), 4);
    assert_eq!(component.regions[1].layer, LAYER_MULTI);
}

#[test]
fn layers_shapes_and_holes_have_numbers() {
    assert!(is_overlay_layer(49) && !is_overlay_layer(48));
    assert!(is_component_body_layer(99) && !is_component_body_layer(3));
    assert_eq!(map_graphic_layer(1), LAYER_TOP);
    assert_eq!(map_graphic_layer(12), LAYER_MULTI);
    assert_eq!(map_graphic_layer(13), LAYER_MECHANICAL_2);
    assert_eq!(map_graphic_layer(1000), LAYER_TOP_OVERLAY);
    assert_eq!(map_pad_layer(2, false), LAYER_BOTTOM);
    assert_eq!(map_pad_layer(2, true), LAYER_MULTI);
    assert_eq!(map_pad_layer(5, false), LAYER_TOP);
    assert_eq!(map_pad_hole_type(" slot "), PAD_HOLE_SLOT);
    assert_eq!(map_pad_hole_type("rect"), PAD_HOLE_SQUARE);
    assert_eq!(map_pad_hole_type(""), PAD_HOLE_ROUND);
    assert_eq!(map_pad_shape("ellipse", true), PAD_SHAPE_ROUND);
    assert_eq!(map_pad_shape("ellipse", false), PAD_SHAPE_ROUNDED_RECTANGLE);
    assert_eq!(map_pad_shape("poly", true), PAD_SHAPE_RECTANGULAR);
    assert_eq!(map_pad_shape("oct", true), PAD_SHAPE_OCTAGONAL);
    assert_eq!(map_pad_shape("oval", true), PAD_SHAPE_ROUNDED_RECTANGLE);
    assert_eq!(mask_region_layers(2, true), vec![(LAYER_BOTTOM, "BOTTOM")]);
    assert_eq!(
        mask_region_layers(1, true),
        vec![(LAYER_TOP, "TOP"), (LAYER_BOTTOM, "BOTTOM")]
    );
    assert_eq!(mask_region_layers(1, false), vec![(LAYER_TOP, "TOP")]);
    assert_eq!(resolve_graphic_width_raw(0), 19_685);
    assert_eq!(resolve_graphic_width_raw(-3), -3);
}

#[test]
fn shape_regions_carry_their_layer() {
    let params = pad_shape_region_params("TOP");
    assert_eq!(params.len(), 6);
    assert_eq!(params[0], ("V7_LAYER".to_string(), "TOP".to_string()));
    assert_eq!(params[3], ("ARCRESOLUTION".to_string(), "0.5mil".to_string()));
}

fn no_fields() -> DescriptionFields {
    DescriptionFields {
        description: None,
        outer_description: None,
        display_title: None,
        outer_display_title: None,
        package: None,
        outer_package: None,
    }
}

#[test]
fn descriptions_fall_back_in_turn() {
    assert_eq!(
        resolve_footprint_description(no_fields(), "X"),
        "Generated from EasyEDA footprint (X)"
    );
    let mut fields = no_fields();
    fields.outer_description = Some(" ; a chip ;b".to_string());
    fields.package = Some("QFN".to_string());
    assert_eq!(resolve_footprint_description(fields, "X"), "a chip");
    let mut blank = no_fields();
    blank.description = Some(" ; ".to_string());
    blank.outer_description = Some("unused".to_string());
    blank.outer_display_title = Some("title".to_string());
    assert_eq!(resolve_footprint_description(blank, "X"), "title");
    let mut empty = no_fields();
    empty.display_title = Some("  ".to_string());
    empty.package = Some("QFN".to_string());
    assert_eq!(
        resolve_footprint_description(empty, "X"),
        "Generated from EasyEDA footprint (X)"
    );
    let mut long = no_fields();
    long.package = Some("\u{03A9}".repeat(300));
    assert_eq!(
        resolve_footprint_description(long, "X").chars().count(),
        256
    );
}

#[test]
fn texts_are_cut_between_characters() {
    assert_eq!(truncate_to_char_boundary("a\u{03A9}b", 2), "a\u{03A9}");
    assert_eq!(truncate_to_char_boundary("ab", 2), "ab");
    assert_eq!(truncate_to_char_boundary("ab", 0), "");
}

#[test]
fn heights_are_read_or_guessed() {
    assert_eq!(height_text("body-h1.25mm").as_deref(), Some("1.25"));
    assert_eq!(height_text("X_H3 -H2").as_deref(), Some("2"));
    assert_eq!(height_text("X-HA"), None);
    assert_eq!(height_text("X"), None);
    let height = |text: &str| guess_package_family_height(text).map(number);
    assert_eq!(height("qfn-20"), Some(1.0));
    assert_eq!(height("BGA"), Some(1.2));
    assert_eq!(height("LQFP-48"), Some(1.4));
    assert_eq!(height("TSSOP"), Some(1.6));
    assert_eq!(height("SOT-23"), Some(1.6));
    assert_eq!(height("DIP-8"), Some(4.0));
    assert_eq!(height("0402"), None);
    let candidate = |text: &str| HeightCandidate {
        text: text.to_string(),
        titled: parse_height(text),
    };
    let candidates = vec![candidate("0402"), candidate("SOP-H2.5"), candidate("DIP")];
    assert_eq!(number(resolve_component_height(None, &candidates)), 2.5);
    assert_eq!(
        number(resolve_component_height(Some(to_real(0.7)), &candidates)),
        0.7
    );
    assert_eq!(
        number(resolve_component_height(Some(to_real(0.0)), &Vec::new())),
        1.0
    );
}

#[test]
fn models_are_linked_and_named() {
    let link = parse_model_link(Some(" u "), Some("T"), Some("0, ,0,0,1, 2 ,3")).unwrap();
    assert_eq!((link.uri.as_str(), link.title.as_str()), ("u", "T"));
    assert_eq!(
        link.rotations,
        Some(("1".to_string(), "2".to_string(), "3".to_string()))
    );
    assert!(parse_model_link(Some("  "), Some("T"), None).is_none());
    assert!(parse_model_link(None, Some("T"), None).is_none());
    assert!(parse_model_link(Some("u"), None, Some("1,2"))
        .unwrap()
        .rotations
        .is_none());
    assert_eq!(step_model_base("X", "  "), "X");
    assert_eq!(step_model_base("X", " body "), "body");
    assert_eq!(choose_step_model_name("body"), "body.step");
    assert_eq!(choose_step_model_name("body.STEP"), "body.STEP");
    assert_eq!(choose_step_model_name("body.stp"), "body.stp");
}

#[test]
fn reals_are_compared_like_the_numbers_that_they_are() {
    let values = [
        f64::NEG_INFINITY,
        -2.5,
        -1e-300,
        -0.0,
        0.0,
        1e-6,
        0.3,
        10.0,
        f64::INFINITY,
        f64::NAN,
    ];
    for a in values {
        for b in values {
            assert_eq!(to_real(a).is_less(to_real(b)), a < b);
            assert_eq!(to_real(a).is_at_most(to_real(b)), a <= b);
            if a != b {
                let larger = number(to_real(a).larger(to_real(b)));
                let smaller = number(to_real(a).smaller(to_real(b)));
                assert!(larger == a.max(b) || (larger.is_nan() && a.max(b).is_nan()));
                assert!(smaller == a.min(b) || (smaller.is_nan() && a.min(b).is_nan()));
            }
        }
        assert_eq!(to_real(a).is_nan(), a.is_nan());
        assert_eq!(to_real(a).abs().bits, a.abs().to_bits());
    }
}
