//! Footprints and the primitives that they are made of.
//!
//! Lengths are whole numbers of ten-thousandths of a mil.

use vstd::prelude::*;
use crate::reals::Real;

verus! {

pub const LAYER_TOP: u8 = 1;

pub const LAYER_BOTTOM: u8 = 32;

pub const LAYER_TOP_OVERLAY: u8 = 33;

pub const LAYER_BOTTOM_OVERLAY: u8 = 34;

pub const LAYER_TOP_PASTE: u8 = 35;

pub const LAYER_BOTTOM_PASTE: u8 = 36;

pub const LAYER_TOP_SOLDER: u8 = 37;

pub const LAYER_BOTTOM_SOLDER: u8 = 38;

pub const LAYER_MECHANICAL_1: u8 = 57;

pub const LAYER_MECHANICAL_2: u8 = 58;

pub const LAYER_MECHANICAL_5: u8 = 61;

pub const LAYER_MECHANICAL_6: u8 = 62;

pub const LAYER_MECHANICAL_9: u8 = 65;

pub const LAYER_MULTI: u8 = 74;

pub const PAD_SHAPE_ROUND: u8 = 1;

pub const PAD_SHAPE_RECTANGULAR: u8 = 2;

pub const PAD_SHAPE_OCTAGONAL: u8 = 3;

pub const PAD_SHAPE_ROUNDED_RECTANGLE: u8 = 9;

pub const PAD_HOLE_ROUND: u8 = 0;

pub const PAD_HOLE_SQUARE: u8 = 1;

pub const PAD_HOLE_SLOT: u8 = 2;

/// A point in ten-thousandths of a mil.
#[derive(Debug, Clone, Copy, PartialEq, Eq, Structural)]
pub struct CoordPoint {
    pub x: i32,
    pub y: i32,
}

impl CoordPoint {
    pub fn new(x: i32, y: i32) -> (r: Self)
        ensures
            r == (CoordPoint { x, y }),
    {
        CoordPoint { x, y }
    }
}

#[derive(Debug, Clone)]
pub struct PcbPad {
    pub designator: String,
    pub location: CoordPoint,
    pub size_top: CoordPoint,
    pub size_middle: CoordPoint,
    pub size_bottom: CoordPoint,
    pub hole_size_raw: i32,
    pub shape_top: u8,
    pub shape_middle: u8,
    pub shape_bottom: u8,
    pub rotation: Real,
    pub is_plated: bool,
    pub layer: u8,
    pub is_locked: bool,
    pub is_tenting_top: bool,
    pub is_tenting_bottom: bool,
    pub is_keepout: bool,
    pub mode: u8,
    pub power_plane_connect_style: u8,
    pub relief_air_gap_raw: i32,
    pub relief_conductor_width_raw: i32,
    pub relief_entries: i16,
    pub power_plane_clearance_raw: i32,
    pub power_plane_relief_expansion_raw: i32,
    pub paste_mask_expansion_raw: i32,
    pub solder_mask_expansion_raw: i32,
    pub drill_type: u8,
    pub jumper_id: i16,
    pub hole_type: u8,
    pub hole_slot_length_raw: i32,
    pub hole_rotation: Real,
    pub corner_radius_percentage: u8,
}

#[derive(Debug, Clone, Copy)]
pub struct PcbArc {
    pub layer: u8,
    pub center: CoordPoint,
    pub radius_raw: i32,
    pub start_angle: Real,
    pub end_angle: Real,
    pub width_raw: i32,
    pub is_locked: bool,
    pub is_tenting_top: bool,
    pub is_tenting_bottom: bool,
    pub is_keepout: bool,
}

#[derive(Debug, Clone, Copy)]
pub struct PcbTrack {
    pub layer: u8,
    pub start: CoordPoint,
    pub end: CoordPoint,
    pub width_raw: i32,
    pub is_locked: bool,
    pub is_tenting_top: bool,
    pub is_tenting_bottom: bool,
    pub is_keepout: bool,
    pub net_index: u16,
    pub component_index: u16,
}

#[derive(Debug, Clone)]
pub struct PcbRegion {
    pub layer: u8,
    pub outline: Vec<CoordPoint>,
    pub kind: i32,
    pub net: Option<String>,
    pub unique_id: Option<String>,
    pub name: Option<String>,
    pub is_locked: bool,
    pub is_tenting_top: bool,
    pub is_tenting_bottom: bool,
    pub is_keepout: bool,
    pub additional_params: Vec<(String, String)>,
}

#[derive(Debug, Clone)]
pub struct PcbComponentBody {
    pub layer_name: String,
    pub name: String,
    pub kind: i32,
    pub subpoly_index: i32,
    pub union_index: i32,
    pub arc_resolution_raw: i32,
    pub is_shape_based: bool,
    pub cavity_height_raw: i32,
    pub standoff_height_raw: i32,
    pub overall_height_raw: i32,
    pub body_color_3d: i32,
    pub body_opacity_3d: Real,
    pub body_projection: i32,
    pub model_id: String,
    pub model_embed: bool,
    pub model_2d_location: CoordPoint,
    pub model_2d_rotation: Real,
    pub model_3d_rot_x: Real,
    pub model_3d_rot_y: Real,
    pub model_3d_rot_z: Real,
    pub model_3d_dz_raw: i32,
    pub model_checksum: i32,
    pub model_name: String,
    pub model_type: i32,
    pub model_source: String,
    pub identifier: Option<String>,
    pub texture: String,
    pub outline: Vec<CoordPoint>,
    pub is_locked: bool,
    pub is_tenting_top: bool,
    pub is_tenting_bottom: bool,
    pub is_keepout: bool,
}

#[derive(Debug, Clone)]
pub struct PcbExtendedPrimitiveInfo {
    pub primitive_index: usize,
    pub object_name: String,
    pub params: Vec<(String, String)>,
}

#[derive(Debug, Clone)]
pub struct PcbModel {
    pub id: String,
    pub name: String,
    pub is_embedded: bool,
    pub model_source: String,
    pub rotation_x: Real,
    pub rotation_y: Real,
    pub rotation_z: Real,
    pub dz_raw: i32,
    pub checksum: i32,
    pub step_data: Vec<u8>,
}

#[derive(Debug, Clone)]
pub struct PcbComponent {
    pub name: String,
    pub description: String,
    pub height_raw: i32,
    pub pads: Vec<PcbPad>,
    pub arcs: Vec<PcbArc>,
    pub tracks: Vec<PcbTrack>,
    pub regions: Vec<PcbRegion>,
    pub bodies: Vec<PcbComponentBody>,
    pub extended_primitive_information: Vec<PcbExtendedPrimitiveInfo>,
}

#[derive(Debug, Clone)]
pub struct PcbLibrary {
    pub components: Vec<PcbComponent>,
    pub models: Vec<PcbModel>,
}

impl Default for PcbLibrary {
    fn default() -> (r: Self)
        ensures
            r.components@ == Seq::<PcbComponent>::empty(),
            r.models@ == Seq::<PcbModel>::empty(),
    {
        PcbLibrary { components: Vec::new(), models: Vec::new() }
    }
}

} // verus!
