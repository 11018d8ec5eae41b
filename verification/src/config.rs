//! The player's visual settings, read from the game's `config.json` or an exported skin.
//!
//! Only what affects a rendered replay is kept. Numbers are in millionths, colours in
//! millionths of a step from 0 to 255.

use vstd::prelude::*;

use crate::error::Error;
use crate::count::{lemma_tally_same, tally};
use crate::fixed::{
    div_nearest, greater, law_rounding_is_closest, law_rounding_is_monotone,
    law_rounding_keeps_whole_numbers, magnitude, nearest, within, ONE,
};
use crate::json::{
    all_json, as_bool, as_items, as_number, as_text, as_whole, bool_of, items_of, json_document,
    json_of, member, member_among, member_of, number_of, parse_json, text_of as json_text, whole_of, Json,
};
use crate::number::{fixed_of, parse_fixed};
use crate::text::{chars_of, contains, holds, lowercase, lowered};

verus! {

/// Note shape, from the name of the note texture.
#[derive(Debug, Clone, Copy, PartialEq, Eq, Structural)]
pub enum NoteShape {
    /// Thin outline with sharp corners.
    Thin,
    /// Square with slightly rounded corners.
    Square,
    /// Rounded square.
    Rounded,
    /// Circle.
    Circle,
}

/// The shape that the name of a texture stands for, whatever the case of its letters.
pub open spec fn shape_of(name: Seq<char>) -> NoteShape {
    let n = lowered(name);
    if holds(n, "thin"@) {
        NoteShape::Thin
    } else if holds(n, "circle"@) || holds(n, "dot"@) {
        NoteShape::Circle
    } else if holds(n, "round"@) {
        NoteShape::Rounded
    } else {
        NoteShape::Square
    }
}

impl NoteShape {
    /// The shape that the name of a texture stands for.
    pub fn from_skin(name: &str) -> (shape: NoteShape)
        ensures
            shape == shape_of(name@),
    {
        let chars: Vec<char> = chars_of(name);
        let n: Vec<char> = lowercase(chars.as_slice());
        if contains(n.as_slice(), "thin") {
            NoteShape::Thin
        } else if contains(n.as_slice(), "circle") || contains(n.as_slice(), "dot") {
            NoteShape::Circle
        } else if contains(n.as_slice(), "round") {
            NoteShape::Rounded
        } else {
            NoteShape::Square
        }
    }

    /// Corner radius and outline of the note, in millionths of half its width.
    pub fn sdf_params(self) -> (p: (i64, i64))
        ensures
            p == match self {
                NoteShape::Thin => (30_000i64, 160_000i64),
                NoteShape::Square => (80_000i64, 200_000i64),
                NoteShape::Rounded => (400_000i64, 240_000i64),
                NoteShape::Circle => (1_000_000i64, 260_000i64),
            },
    {
        match self {
            NoteShape::Thin => (30_000, 160_000),
            NoteShape::Square => (80_000, 200_000),
            NoteShape::Rounded => (400_000, 240_000),
            NoteShape::Circle => (1_000_000, 260_000),
        }
    }
}

/// A colour, each channel from 0 to 255 in millionths.
#[derive(Debug, Clone, Copy, PartialEq, Eq, Structural)]
pub struct Rgb {
    pub r: i64,
    pub g: i64,
    pub b: i64,
}

/// A colour in whole steps.
#[derive(Debug, Clone, Copy, PartialEq, Eq, Structural)]
pub struct Rgb8 {
    pub r: u8,
    pub g: u8,
    pub b: u8,
}

/// Placement of an optional meter, in millionths of the frame; scale 1 is the design size.
#[derive(Debug, Clone, Copy, PartialEq, Eq, Structural)]
pub struct ErrorMeter {
    pub enabled: bool,
    pub x: i64,
    pub y: i64,
    pub scale: i64,
    pub alpha: i64,
    /// Where the meter stands on the second side of a race, where that is somewhere else.
    pub ghost_x: Option<i64>,
    pub ghost_y: Option<i64>,
}

/// A meter that is switched off, at a place.
pub open spec fn meter_at(x: i64, y: i64) -> ErrorMeter {
    ErrorMeter { enabled: false, x, y, scale: ONE, alpha: 900_000, ghost_x: None, ghost_y: None }
}

impl ErrorMeter {
    /// A meter that is switched off, at a place.
    pub fn at(x: i64, y: i64) -> (m: ErrorMeter)
        ensures
            m == meter_at(x, y),
    {
        ErrorMeter { enabled: false, x, y, scale: ONE, alpha: 900_000, ghost_x: None, ghost_y: None }
    }
}

/// A meter as the second side of a race has it.
pub open spec fn ghost_meter(m: ErrorMeter) -> ErrorMeter {
    ErrorMeter {
        x: match m.ghost_x {
            Some(x) => x,
            None => m.x,
        },
        y: match m.ghost_y {
            Some(y) => y,
            None => m.y,
        },
        ..m
    }
}

impl ErrorMeter {
    /// The meter as the second side of a race has it.
    pub fn for_ghost(self) -> (m: ErrorMeter)
        ensures
            m == ghost_meter(self),
    {
        ErrorMeter {
            x: match self.ghost_x {
                Some(x) => x,
                None => self.x,
            },
            y: match self.ghost_y {
                Some(y) => y,
                None => self.y,
            },
            ..self
        }
    }
}

/// One background layer of a skin. Placement 0 is relative to the frame, 1 to the field.
#[derive(Debug, Clone)]
pub struct BackgroundLayer {
    /// The picture; empty until its file was found.
    pub bytes: Vec<u8>,
    pub fit: i64,
    pub placement: i64,
    pub center_x: i64,
    pub center_y: i64,
    pub scale_x: i64,
    pub scale_y: i64,
    pub flip_horizontal: bool,
    pub space_x: i64,
    pub space_y: i64,
    pub space_w: i64,
    pub space_h: i64,
    pub tint: Rgb,
    pub tint_opacity: i64,
}

/// A colour stop of the cursor trail.
#[derive(Debug, Clone, Copy, PartialEq, Eq, Structural)]
pub struct GradientStop {
    /// Position from 0 to 1, in millionths.
    pub position: i64,
    pub color: Rgb,
}

/// Where the player has put a part of the overlay: its middle, in millionths of the frame.
#[derive(Debug, Clone, PartialEq, Eq)]
pub struct HudPlace {
    /// Name of the part.
    pub key: String,
    pub x: i64,
    pub y: i64,
}

/// The overlay settings. An element that is switched off in the game is left out of the render
/// too.
#[derive(Debug, Clone, PartialEq, Eq)]
pub struct HudConfig {
    /// Accuracy entry.
    pub accuracy: bool,
    /// Combo ring.
    pub combo_ring: bool,
    /// Grade entry.
    pub grade: bool,
    /// Pauses entry.
    pub pauses: bool,
    /// Score entry.
    pub score: bool,
    /// Points entry.
    pub points: bool,
    /// Misses entry.
    pub misses: bool,
    /// Notes entry.
    pub notes: bool,
    /// Health bar.
    pub health_bar: bool,
    /// Colour of the health bar.
    pub health_bar_color: Rgb8,
    /// Opacity of the health bar.
    pub health_bar_alpha: i64,
    /// Progress bar.
    pub song_progress_bar: bool,
    /// Colour of the progress bar.
    pub song_progress_color: Rgb8,
    /// Opacity of the progress bar.
    pub song_progress_alpha: i64,
    /// Colour of the combo ring.
    pub combo_ring_color: Rgb8,
    /// Opacity of the combo ring.
    pub combo_ring_opacity: i64,
    /// Combo number on the field: shown unless its opacity is zero.
    pub playfield_combo_text: bool,
    /// Colour of the combo number.
    pub combo_text_color: Rgb8,
    /// Size of the combo number.
    pub combo_text_font_size: i64,
    /// Opacity of the combo number.
    pub combo_text_opacity: i64,
    /// Height of the combo number on the field, in percent.
    pub combo_text_vpos_pct: i64,
    /// Title line.
    pub song_info: bool,
    /// Opacity of the mark on a missed note.
    pub miss_effect_opacity: i64,
    /// Speed notation; a switch of the renderer, always on in a skin.
    pub speed_label: bool,
    /// Timing meter; an extra of the renderer.
    pub error_meter: ErrorMeter,
    /// Aim meter; an extra of the renderer.
    pub aim_meter: ErrorMeter,
    /// Parts that the player has moved; an extra of the renderer. The first place of a part counts.
    pub positions: Vec<HudPlace>,
}

/// The animated background layers.
#[derive(Debug, Clone, Copy, PartialEq, Eq)]
pub struct AmbientConfig {
    /// Base colour.
    pub color: Rgb,
    /// Accent colour.
    pub accent: Rgb,
    /// The accent follows the hit note.
    pub accent_from_hit_note: bool,
    /// Tunnel layer.
    pub tunnel_enabled: bool,
    /// Opacity of the tunnel.
    pub tunnel_opacity: i64,
    /// Chevron layer.
    pub chevron_enabled: bool,
    /// Opacity of the chevrons.
    pub chevron_opacity: i64,
    /// Gap of the chevrons, in pixels at 1080p.
    pub chevron_gap: i64,
    /// Large size of the chevrons.
    pub chevron_large: i64,
    /// Small size of the chevrons.
    pub chevron_small: i64,
    /// Width of the chevrons.
    pub chevron_width: i64,
    /// Speed of the chevrons.
    pub chevron_speed: i64,
    /// Rays layer.
    pub rays_enabled: bool,
    /// Opacity of the rays.
    pub rays_opacity: i64,
    /// Intensity of the rays.
    pub rays_intensity: i64,
    /// Width of the rays.
    pub rays_width: i64,
    /// Grid layer.
    pub grid_enabled: bool,
    /// Opacity of the grid.
    pub grid_opacity: i64,
    /// Cell size of the grid.
    pub grid_cell_size: i64,
    /// Gap at the centre of the grid.
    pub grid_center_gap: i64,
    /// Falloff of the grid.
    pub grid_fade_falloff: i64,
    /// Speed of the grid.
    pub grid_speed: i64,
    /// Parallax of the grid.
    pub grid_parallax: i64,
}

/// A player's visual settings.
#[derive(Debug, Clone)]
pub struct SkinConfig {
    /// Field of view, in degrees.
    pub camera_fov: i64,
    /// Approach rate.
    pub approach_rate: i64,
    /// Distance at which notes appear.
    pub spawn_distance: i64,
    /// Size of the notes.
    pub note_scale: i64,
    /// Opacity of the notes.
    pub note_opacity: i64,
    /// Length of the fade-in, from 0.01 to 1.
    pub fade_length: i64,
    /// Parallax of the camera.
    pub parallax: i64,
    /// Notes fade before they arrive.
    pub half_ghost: bool,
    /// Shape of the notes, from the name of their texture.
    pub note_shape: NoteShape,
    /// Texture of the notes.
    pub note_skin_name: String,
    /// Texture of the border.
    pub border_skin_name: String,
    /// Texture of the cursor.
    pub cursor_skin_name: String,
    /// Colour set.
    pub colorset_name: String,
    /// Colour of the border.
    pub border_color: Rgb,
    /// Opacity of the border.
    pub border_opacity: i64,
    /// Colour of the cursor.
    pub cursor_color: Rgb,
    /// Size of the cursor.
    pub cursor_scale: i64,
    /// Cursor trail.
    pub cursor_trail_enabled: bool,
    /// Opacity of the trail.
    pub cursor_trail_opacity: i64,
    /// Lifetime of a trail dot in seconds, at least 0.01.
    pub cursor_trail_fade_secs: i64,
    /// Spacing of the dots, at least 0.01.
    pub cursor_trail_spacing: i64,
    /// Colour of the trail.
    pub cursor_trail_color: Rgb,
    /// The trail takes the cursor's colour.
    pub cursor_trail_inherit: bool,
    /// Dots shrink as they age.
    pub cursor_trail_shrink: bool,
    /// Colour stops of the trail, by position.
    pub cursor_trail_gradient: Vec<GradientStop>,
    /// Bundled texture of the notes.
    pub note_texture: Option<Vec<u8>>,
    /// Bundled texture of the border.
    pub border_texture: Option<Vec<u8>>,
    /// Bundled texture of the cursor.
    pub cursor_texture: Option<Vec<u8>>,
    /// Background layers, from the bottom up.
    pub background_images: Vec<BackgroundLayer>,
    /// Bundled colours of the notes.
    pub colorset: Vec<[u8; 3]>,
    /// Icons of the mods, by name.
    pub mod_icons: Vec<(String, Vec<u8>)>,
    /// Font of the overlay.
    pub hud_font: Option<Vec<u8>>,
    /// Overlay.
    pub hud: HudConfig,
    /// Colour of the background.
    pub background_color: Rgb,
    /// Opacity of the cursor.
    pub cursor_opacity: i64,
    /// Rotation of the cursor, in degrees.
    pub cursor_rotation_deg: i64,
    /// Cell lines on the field.
    pub playfield_grid: bool,
    /// Colour of the cell lines.
    pub playfield_grid_color: Rgb,
    /// Opacity of the cell lines.
    pub playfield_grid_opacity: i64,
    /// Thickness of the cell lines, in pixels at 1440p.
    pub playfield_grid_thickness: i64,
    /// Opacity of the red vignette.
    pub fail_vignette_opacity: i64,
    /// Colour of the values.
    pub interface_text_color: Rgb8,
    /// Size of the values, at least 0.1.
    pub interface_values_font_size: i64,
    /// Colour of the panels.
    pub panel_color: Rgb8,
    /// Opacity of the panels.
    pub panel_opacity: i64,
    /// Opacity of the cards behind the panels.
    pub panel_background_opacity: i64,
    /// Extra distance of the panels.
    pub panel_gap: i64,
    /// Lean of the outer entries beside the field, in radians; an extra of the renderer.
    pub panel_angle: i64,
    /// Missed notes fly past the hit plane.
    pub push_back: bool,
    /// Hides the whole overlay.
    pub disable_gui: bool,
    /// The cursor stays centred and the world pans.
    pub spin_camera: bool,
    /// Ambient layers.
    pub ambient: AmbientConfig,
    /// Darkening of a background of the user's own, in place of the layers.
    pub custom_bg_dim: Option<i64>,
    /// Whether that background is a video.
    pub custom_bg_video: bool,
}

/// Whether an overlay is what a document sets.
pub open spec fn is_hud(c: HudConfig, doc: Json) -> bool {
    &&& c.accuracy == flag(doc, "LeftPanelAccuracyEnabled"@, true)
    &&& c.combo_ring == flag(doc, "LeftPanelComboRingEnabled"@, true)
    &&& c.grade == flag(doc, "LeftPanelGradeEnabled"@, true)
    &&& c.pauses == flag(doc, "LeftPanelPausesEnabled"@, true)
    &&& c.score == flag(doc, "RightPanelScoreEnabled"@, true)
    &&& c.points == flag(doc, "RightPanelPointsEnabled"@, true)
    &&& c.misses == flag(doc, "RightPanelMissesEnabled"@, true)
    &&& c.notes == flag(doc, "RightPanelNotesEnabled"@, true)
    &&& c.health_bar == flag(doc, "HealthBarEnabled"@, true)
    &&& c.health_bar_color == rgb8(doc, "HealthBarColorRed"@, "HealthBarColorGreen"@, "HealthBarColorBlue"@, 0, 220, 80)
    &&& c.health_bar_alpha == num(doc, "HealthBarAlpha"@, 860_000)
    &&& c.song_progress_bar == flag(doc, "SongProgressBarEnabled"@, true)
    &&& c.song_progress_color == rgb8(doc, "SongProgressBarColorRed"@, "SongProgressBarColorGreen"@, "SongProgressBarColorBlue"@, 220, 220, 225)
    &&& c.song_progress_alpha == num(doc, "SongProgressBarAlpha"@, 860_000)
    &&& c.combo_ring_color == rgb8(doc, "ComboRingColorRed"@, "ComboRingColorGreen"@, "ComboRingColorBlue"@, 0, 200, 200)
    &&& c.combo_ring_opacity == num(doc, "ComboRingOpacity"@, 1_000_000)
    &&& c.playfield_combo_text == (num(doc, "PlayfieldComboTextOpacity"@, 50_000) > 0)
    &&& c.combo_text_color == rgb8(doc, "PlayfieldComboTextColorRed"@, "PlayfieldComboTextColorGreen"@, "PlayfieldComboTextColorBlue"@, 255, 255, 255)
    &&& c.combo_text_font_size == num(doc, "PlayfieldComboTextFontSize"@, 190_000_000)
    &&& c.combo_text_opacity == num(doc, "PlayfieldComboTextOpacity"@, 50_000)
    &&& c.combo_text_vpos_pct == num(doc, "PlayfieldComboTextVerticalPositionPercent"@, 25_000_000)
    &&& c.song_info == flag(doc, "SongInfoEnabled"@, true)
    &&& c.miss_effect_opacity == num(doc, "MissEffectOpacity"@, 1_000_000)
    &&& c.speed_label
    &&& c.error_meter == meter_at(500_000, 880_000)
    &&& c.aim_meter == meter_at(150_000, 320_000)
    &&& c.positions@.len() == 0
}

/// Whether ambient layers are what a document sets.
pub open spec fn is_ambient(c: AmbientConfig, doc: Json) -> bool {
    &&& c.color == rgb(doc, "BackgroundRed"@, "BackgroundGreen"@, "BackgroundBlue"@, 0)
    &&& c.accent == rgb(doc, "BackgroundAccentRed"@, "BackgroundAccentGreen"@, "BackgroundAccentBlue"@, 255_000_000)
    &&& c.accent_from_hit_note == flag(doc, "BackgroundAccentFromHitNote"@, false)
    &&& c.tunnel_enabled == flag(doc, "BackgroundTunnelEnabled"@, false)
    &&& c.tunnel_opacity == num(doc, "BackgroundTunnelOpacity"@, 200_000)
    &&& c.chevron_enabled == flag(doc, "BackgroundChevronEnabled"@, false)
    &&& c.chevron_opacity == num(doc, "BackgroundChevronOpacity"@, 250_000)
    &&& c.chevron_gap == num(doc, "BackgroundChevronGap"@, 1_250_000_000)
    &&& c.chevron_large == num(doc, "BackgroundChevronLargeSize"@, 435_000_000)
    &&& c.chevron_small == num(doc, "BackgroundChevronSmallSize"@, 430_000_000)
    &&& c.chevron_width == num(doc, "BackgroundChevronWidth"@, 12_000_000)
    &&& c.chevron_speed == num(doc, "BackgroundChevronSpeedMultiplier"@, 700_000)
    &&& c.rays_enabled == flag(doc, "BackgroundRaysEnabled"@, false)
    &&& c.rays_opacity == num(doc, "BackgroundRaysOpacity"@, 200_000)
    &&& c.rays_intensity == num(doc, "BackgroundRaysIntensity"@, 400_000)
    &&& c.rays_width == num(doc, "BackgroundRaysWidth"@, 12_000_000)
    &&& c.grid_enabled == flag(doc, "BackgroundGridEnabled"@, false)
    &&& c.grid_opacity == num(doc, "BackgroundGridOpacity"@, 220_000)
    &&& c.grid_cell_size == num(doc, "BackgroundGridCellSize"@, 320_000_000)
    &&& c.grid_center_gap == num(doc, "BackgroundGridCenterGap"@, 1_100_000_000)
    &&& c.grid_fade_falloff == num(doc, "BackgroundGridFadeFalloff"@, 1_350_000)
    &&& c.grid_speed == num(doc, "BackgroundGridSpeedMultiplier"@, 750_000)
    &&& c.grid_parallax == num(doc, "GridParallax"@, 0)
}

/// Whether the settings of a skin, apart from its assets and ambient layers, are what a document
/// sets.
pub open spec fn is_settings(c: SkinConfig, doc: Json) -> bool {
    &&& c.camera_fov == num(doc, "CameraFov"@, 70_000_000)
    &&& c.approach_rate == num(doc, "ApproachRate"@, 24_500_000)
    &&& c.spawn_distance == num(doc, "SpawnDistance"@, 12_000_000)
    &&& c.note_scale == num(doc, "NoteScale"@, 900_000)
    &&& c.note_opacity == num(doc, "NoteOpacity"@, 1_000_000)
    &&& c.fade_length == within(num(doc, "FadeLength"@, 500_000), 10_000, 1_000_000)
    &&& c.parallax == num(doc, "Parallax"@, 0)
    &&& c.half_ghost == flag(doc, "HalfGhost"@, false)
    &&& c.note_shape == shape_of(words(doc, "NoteSkin"@))
    &&& c.note_skin_name@ == words(doc, "NoteSkin"@)
    &&& c.border_skin_name@ == words(doc, "BorderSkin"@)
    &&& c.cursor_skin_name@ == words(doc, "CursorSkin"@)
    &&& c.colorset_name@ == words(doc, "ColorSet"@)
    &&& c.border_color == rgb(doc, "BorderColorRed"@, "BorderColorGreen"@, "BorderColorBlue"@, 255_000_000)
    &&& c.border_opacity == num(doc, "BorderOpacity"@, 1_000_000)
    &&& c.cursor_color == rgb(doc, "CursorColorRed"@, "CursorColorGreen"@, "CursorColorBlue"@, 255_000_000)
    &&& c.cursor_scale == num(doc, "CursorScale"@, 1_000_000)
    &&& c.cursor_trail_enabled == flag(doc, "CursorTrailEnabled"@, true)
    &&& c.cursor_trail_opacity == num(doc, "CursorTrailOpacity"@, 500_000)
    &&& c.cursor_trail_fade_secs == greater(num(doc, "CursorTrailFadeTimeSeconds"@, 100_000), 10_000)
    &&& c.cursor_trail_spacing == greater(num(doc, "CursorTrailSpacingMultiplier"@, 400_000), 10_000)
    &&& c.cursor_trail_color == rgb(doc, "CursorTrailColorRed"@, "CursorTrailColorGreen"@, "CursorTrailColorBlue"@, 255_000_000)
    &&& c.cursor_trail_inherit == flag(doc, "CursorTrailInheritFromCursor"@, true)
    &&& c.cursor_trail_shrink == flag(doc, "CursorTrailShrinkOverTime"@, true)
    &&& c.cursor_trail_gradient@ == gradient_of(doc)
    &&& is_hud(c.hud, doc)
    &&& c.background_color == rgb(doc, "BackgroundRed"@, "BackgroundGreen"@, "BackgroundBlue"@, 0)
    &&& c.cursor_opacity == num(doc, "CursorOpacity"@, 1_000_000)
    &&& c.cursor_rotation_deg == num(doc, "CursorRotation"@, 0)
    &&& c.playfield_grid == flag(doc, "PlayfieldGridEnabled"@, false)
    &&& c.playfield_grid_color == rgb(doc, "PlayfieldGridColorRed"@, "PlayfieldGridColorGreen"@, "PlayfieldGridColorBlue"@, 255_000_000)
    &&& c.playfield_grid_opacity == num(doc, "PlayfieldGridOpacity"@, 1_000_000)
    &&& c.playfield_grid_thickness == num(doc, "PlayfieldGridThickness"@, 2_000_000)
    &&& c.fail_vignette_opacity == num(doc, "FailVignetteOpacity"@, 0)
    &&& c.interface_text_color == rgb8(doc, "InterfaceTextColorRed"@, "InterfaceTextColorGreen"@, "InterfaceTextColorBlue"@, 255, 255, 255)
    &&& c.interface_values_font_size == greater(num(doc, "InterfaceValuesFontSize"@, 1_000_000), 100_000)
    &&& c.panel_color == rgb8(doc, "PanelColorRed"@, "PanelColorGreen"@, "PanelColorBlue"@, 70, 1, 1)
    &&& c.panel_opacity == num(doc, "PanelOpacity"@, 1_000_000)
    &&& c.panel_background_opacity == num(doc, "PanelBackgroundOpacity"@, 0)
    &&& c.panel_gap == num(doc, "PanelGap"@, 0)
    &&& c.panel_angle == 0
    &&& c.push_back == flag(doc, "PushBack"@, false)
    &&& c.disable_gui == flag(doc, "GameSceneDisableGui"@, false)
    &&& c.spin_camera == flag(doc, "SpinCamera"@, false)
    &&& c.custom_bg_dim is None
    &&& !c.custom_bg_video
}

/// Whether a skin has no assets.
pub open spec fn is_bare(c: SkinConfig) -> bool {
    &&& c.note_texture is None
    &&& c.border_texture is None
    &&& c.cursor_texture is None
    &&& c.colorset@.len() == 0
    &&& c.mod_icons@.len() == 0
    &&& c.hud_font is None
    &&& forall|i: int|
        0 <= i < c.background_images@.len() ==> (#[trigger] c.background_images@[i]).bytes@.len()
            == 0
}

/// Whether a skin is what a document sets, without assets.
pub open spec fn is_config(c: SkinConfig, doc: Json) -> bool {
    &&& is_settings(c, doc)
    &&& is_bare(c)
    &&& layer_models(c.background_images@) == layers_of(doc)
    &&& is_ambient(c.ambient, doc)
}

fn read_hud(doc: &serde_json::Value) -> (c: HudConfig)
    ensures
        is_hud(c, json_of(*doc)),
{
    HudConfig {
        accuracy: read_flag(doc, "LeftPanelAccuracyEnabled", true),
        combo_ring: read_flag(doc, "LeftPanelComboRingEnabled", true),
        grade: read_flag(doc, "LeftPanelGradeEnabled", true),
        pauses: read_flag(doc, "LeftPanelPausesEnabled", true),
        score: read_flag(doc, "RightPanelScoreEnabled", true),
        points: read_flag(doc, "RightPanelPointsEnabled", true),
        misses: read_flag(doc, "RightPanelMissesEnabled", true),
        notes: read_flag(doc, "RightPanelNotesEnabled", true),
        health_bar: read_flag(doc, "HealthBarEnabled", true),
        health_bar_color: read_rgb8(doc, "HealthBarColorRed", "HealthBarColorGreen", "HealthBarColorBlue", 0, 220, 80),
        health_bar_alpha: read_num(doc, "HealthBarAlpha", 860_000),
        song_progress_bar: read_flag(doc, "SongProgressBarEnabled", true),
        song_progress_color: read_rgb8(doc, "SongProgressBarColorRed", "SongProgressBarColorGreen", "SongProgressBarColorBlue", 220, 220, 225),
        song_progress_alpha: read_num(doc, "SongProgressBarAlpha", 860_000),
        combo_ring_color: read_rgb8(doc, "ComboRingColorRed", "ComboRingColorGreen", "ComboRingColorBlue", 0, 200, 200),
        combo_ring_opacity: read_num(doc, "ComboRingOpacity", 1_000_000),
        playfield_combo_text: read_num(doc, "PlayfieldComboTextOpacity", 50_000) > 0,
        combo_text_color: read_rgb8(doc, "PlayfieldComboTextColorRed", "PlayfieldComboTextColorGreen", "PlayfieldComboTextColorBlue", 255, 255, 255),
        combo_text_font_size: read_num(doc, "PlayfieldComboTextFontSize", 190_000_000),
        combo_text_opacity: read_num(doc, "PlayfieldComboTextOpacity", 50_000),
        combo_text_vpos_pct: read_num(doc, "PlayfieldComboTextVerticalPositionPercent", 25_000_000),
        song_info: read_flag(doc, "SongInfoEnabled", true),
        miss_effect_opacity: read_num(doc, "MissEffectOpacity", 1_000_000),
        speed_label: true,
        error_meter: ErrorMeter::at(500_000, 880_000),
        aim_meter: ErrorMeter::at(150_000, 320_000),
        positions: Vec::new(),
    }
}

fn read_ambient(doc: &serde_json::Value) -> (c: AmbientConfig)
    ensures
        is_ambient(c, json_of(*doc)),
{
    AmbientConfig {
        color: read_rgb(doc, "BackgroundRed", "BackgroundGreen", "BackgroundBlue", 0),
        accent: read_rgb(doc, "BackgroundAccentRed", "BackgroundAccentGreen", "BackgroundAccentBlue", 255_000_000),
        accent_from_hit_note: read_flag(doc, "BackgroundAccentFromHitNote", false),
        tunnel_enabled: read_flag(doc, "BackgroundTunnelEnabled", false),
        tunnel_opacity: read_num(doc, "BackgroundTunnelOpacity", 200_000),
        chevron_enabled: read_flag(doc, "BackgroundChevronEnabled", false),
        chevron_opacity: read_num(doc, "BackgroundChevronOpacity", 250_000),
        chevron_gap: read_num(doc, "BackgroundChevronGap", 1_250_000_000),
        chevron_large: read_num(doc, "BackgroundChevronLargeSize", 435_000_000),
        chevron_small: read_num(doc, "BackgroundChevronSmallSize", 430_000_000),
        chevron_width: read_num(doc, "BackgroundChevronWidth", 12_000_000),
        chevron_speed: read_num(doc, "BackgroundChevronSpeedMultiplier", 700_000),
        rays_enabled: read_flag(doc, "BackgroundRaysEnabled", false),
        rays_opacity: read_num(doc, "BackgroundRaysOpacity", 200_000),
        rays_intensity: read_num(doc, "BackgroundRaysIntensity", 400_000),
        rays_width: read_num(doc, "BackgroundRaysWidth", 12_000_000),
        grid_enabled: read_flag(doc, "BackgroundGridEnabled", false),
        grid_opacity: read_num(doc, "BackgroundGridOpacity", 220_000),
        grid_cell_size: read_num(doc, "BackgroundGridCellSize", 320_000_000),
        grid_center_gap: read_num(doc, "BackgroundGridCenterGap", 1_100_000_000),
        grid_fade_falloff: read_num(doc, "BackgroundGridFadeFalloff", 1_350_000),
        grid_speed: read_num(doc, "BackgroundGridSpeedMultiplier", 750_000),
        grid_parallax: read_num(doc, "GridParallax", 0),
    }
}

/// What a document sets for a key: each setting is `{ "Key": { "Value": ... } }`.
pub open spec fn setting(doc: Json, key: Seq<char>) -> Option<Json> {
    match member_of(doc, key) {
        Some(m) => member_of(m, "Value"@),
        None => None,
    }
}

/// The number of a value in millionths, or a default.
pub open spec fn number_or(v: Option<Json>, dflt: int) -> int {
    match v {
        Some(j) => match number_of(j) {
            Some(s) => match fixed_of(s) {
                Some(n) => n,
                None => dflt,
            },
            None => dflt,
        },
        None => dflt,
    }
}

/// A number that a document sets, or a default.
#[verifier::opaque]
pub open spec fn num(doc: Json, key: Seq<char>, dflt: int) -> int {
    number_or(setting(doc, key), dflt)
}

/// The truth value of a value, or a default.
pub open spec fn flag_or(v: Option<Json>, dflt: bool) -> bool {
    match v {
        Some(j) => match bool_of(j) {
            Some(b) => b,
            None => dflt,
        },
        None => dflt,
    }
}

/// A switch that a document sets, or a default.
#[verifier::opaque]
pub open spec fn flag(doc: Json, key: Seq<char>, dflt: bool) -> bool {
    flag_or(setting(doc, key), dflt)
}

/// A text that a document sets; empty where it sets none.
#[verifier::opaque]
pub open spec fn words(doc: Json, key: Seq<char>) -> Seq<char> {
    match setting(doc, key) {
        Some(j) => match json_text(j) {
            Some(s) => s,
            None => Seq::empty(),
        },
        None => Seq::empty(),
    }
}

/// A colour that a document sets, channel by channel.
pub open spec fn rgb(doc: Json, r: Seq<char>, g: Seq<char>, b: Seq<char>, dflt: int) -> Rgb {
    Rgb { r: num(doc, r, dflt) as i64, g: num(doc, g, dflt) as i64, b: num(doc, b, dflt) as i64 }
}

/// A channel in whole steps.
pub open spec fn step_of(v: int) -> u8 {
    within(nearest(v, ONE as int), 0, 255) as u8
}

/// A colour that a document sets, in whole steps.
pub open spec fn rgb8(
    doc: Json,
    r: Seq<char>,
    g: Seq<char>,
    b: Seq<char>,
    dr: int,
    dg: int,
    db: int,
) -> Rgb8 {
    Rgb8 {
        r: step_of(num(doc, r, dr * ONE)),
        g: step_of(num(doc, g, dg * ONE)),
        b: step_of(num(doc, b, db * ONE)),
    }
}

/// A background layer as plain values, without its picture.
pub struct LayerModel {
    pub fit: int,
    pub placement: int,
    pub center_x: int,
    pub center_y: int,
    pub scale_x: int,
    pub scale_y: int,
    pub flip_horizontal: bool,
    pub space_x: int,
    pub space_y: int,
    pub space_w: int,
    pub space_h: int,
    pub tint: Rgb,
    pub tint_opacity: int,
}

/// A background layer as plain values.
pub open spec fn layer_model(l: BackgroundLayer) -> LayerModel {
    LayerModel {
        fit: l.fit as int,
        placement: l.placement as int,
        center_x: l.center_x as int,
        center_y: l.center_y as int,
        scale_x: l.scale_x as int,
        scale_y: l.scale_y as int,
        flip_horizontal: l.flip_horizontal,
        space_x: l.space_x as int,
        space_y: l.space_y as int,
        space_w: l.space_w as int,
        space_h: l.space_h as int,
        tint: l.tint,
        tint_opacity: l.tint_opacity as int,
    }
}

/// Background layers as plain values.
pub open spec fn layer_models(list: Seq<BackgroundLayer>) -> Seq<LayerModel> {
    Seq::new(list.len(), |i: int| layer_model(list[i]))
}

/// A whole number of a layer; 0 where it sets none.
pub open spec fn layer_whole(l: Json, key: Seq<char>) -> int {
    match member_of(l, key) {
        Some(j) => match whole_of(j) {
            Some(n) => n,
            None => 0,
        },
        None => 0,
    }
}

/// A number of a layer, or a default.
pub open spec fn layer_num(l: Json, key: Seq<char>, dflt: int) -> int {
    number_or(member_of(l, key), dflt)
}

/// The layer that a value describes.
#[verifier::opaque]
pub open spec fn layer_of(l: Json) -> LayerModel {
    LayerModel {
        fit: layer_whole(l, "Fit"@),
        placement: layer_whole(l, "Placement"@),
        center_x: layer_num(l, "CenterX"@, 500_000),
        center_y: layer_num(l, "CenterY"@, 500_000),
        scale_x: layer_num(l, "ScaleX"@, 1_000_000),
        scale_y: layer_num(l, "ScaleY"@, 1_000_000),
        flip_horizontal: flag_or(member_of(l, "FlipHorizontal"@), false),
        space_x: layer_num(l, "SpaceX"@, 0),
        space_y: layer_num(l, "SpaceY"@, 0),
        space_w: layer_num(l, "SpaceWidth"@, 8_000_000),
        space_h: layer_num(l, "SpaceHeight"@, 8_000_000),
        tint: Rgb {
            r: layer_num(l, "TintRed"@, 255_000_000) as i64,
            g: layer_num(l, "TintGreen"@, 255_000_000) as i64,
            b: layer_num(l, "TintBlue"@, 255_000_000) as i64,
        },
        tint_opacity: layer_num(l, "TintOpacity"@, 1_000_000),
    }
}

/// The list of layers in a document: under the key itself, or wrapped like other settings.
pub open spec fn layer_list(doc: Json) -> Seq<Json> {
    match member_of(doc, "BackgroundImages"@) {
        Some(m) => {
            let list = match member_of(m, "Value"@) {
                Some(v) => v,
                None => m,
            };
            match items_of(list) {
                Some(items) => items,
                None => Seq::empty(),
            }
        },
        None => Seq::empty(),
    }
}

/// The layers that a document describes.
pub open spec fn layers_of(doc: Json) -> Seq<LayerModel> {
    let list = layer_list(doc);
    Seq::new(list.len(), |i: int| layer_of(list[i]))
}

/// A number that a value must have.
pub open spec fn exact_num(j: Json, key: Seq<char>) -> Option<int> {
    match member_of(j, key) {
        Some(v) => match number_of(v) {
            Some(s) => fixed_of(s),
            None => None,
        },
        None => None,
    }
}

/// The colour stop that a value describes; none where something is missing.
pub open spec fn stop_of(j: Json) -> Option<GradientStop> {
    match (
        exact_num(j, "Position"@),
        exact_num(j, "Red"@),
        exact_num(j, "Green"@),
        exact_num(j, "Blue"@),
    ) {
        (Some(p), Some(r), Some(g), Some(b)) => Some(
            GradientStop {
                position: p as i64,
                color: Rgb { r: r as i64, g: g as i64, b: b as i64 },
            },
        ),
        _ => None,
    }
}

/// Stops with one more, behind all that do not lie further on.
pub open spec fn with_stop(stops: Seq<GradientStop>, s: GradientStop) -> Seq<GradientStop>
    decreases stops.len(),
{
    if stops.len() > 0 && stops.last().position > s.position {
        with_stop(stops.drop_last(), s).push(stops.last())
    } else {
        stops.push(s)
    }
}

/// The stops among some values, by position, and in order where two have the same.
pub open spec fn stops_among(items: Seq<Json>) -> Seq<GradientStop>
    decreases items.len(),
{
    if items.len() == 0 {
        Seq::empty()
    } else {
        match stop_of(items.last()) {
            Some(s) => with_stop(stops_among(items.drop_last()), s),
            None => stops_among(items.drop_last()),
        }
    }
}

/// The gradient that a document sets; empty where it is switched off.
pub open spec fn gradient_of(doc: Json) -> Seq<GradientStop> {
    if !flag(doc, "CursorTrailGradientEnabled"@, true) {
        Seq::empty()
    } else {
        match setting(doc, "CursorTrailGradient"@) {
            Some(v) => match items_of(v) {
                Some(items) => stops_among(items),
                None => Seq::empty(),
            },
            None => Seq::empty(),
        }
    }
}

fn find_setting<'a>(doc: &'a serde_json::Value, key: &str) -> (v: Option<&'a serde_json::Value>)
    ensures
        crate::json::json_in(v) == setting(json_of(*doc), key@),
{
    match member(doc, key) {
        Some(m) => member(m, "Value"),
        None => None,
    }
}

fn fixed_number(v: &serde_json::Value) -> (n: Option<i64>)
    ensures
        match n {
            Some(x) => number_of(json_of(*v)) is Some && fixed_of(number_of(json_of(*v))->0) == Some(
                x as int,
            ),
            None => number_of(json_of(*v)) is None || fixed_of(number_of(json_of(*v))->0) is None,
        },
{
    match as_number(v) {
        Some(s) => {
            let chars: Vec<char> = chars_of(s.as_str());
            parse_fixed(chars.as_slice())
        },
        None => None,
    }
}

fn num_or(v: Option<&serde_json::Value>, dflt: i64) -> (n: i64)
    ensures
        n == number_or(crate::json::json_in(v), dflt as int),
{
    match v {
        Some(v) => match fixed_number(v) {
            Some(n) => n,
            None => dflt,
        },
        None => dflt,
    }
}

fn read_num(doc: &serde_json::Value, key: &str, dflt: i64) -> (n: i64)
    ensures
        n == num(json_of(*doc), key@, dflt as int),
{
    proof {
        reveal(num);
    }
    num_or(find_setting(doc, key), dflt)
}

fn bool_or(v: Option<&serde_json::Value>, dflt: bool) -> (b: bool)
    ensures
        b == flag_or(crate::json::json_in(v), dflt),
{
    match v {
        Some(v) => match as_bool(v) {
            Some(b) => b,
            None => dflt,
        },
        None => dflt,
    }
}

fn read_flag(doc: &serde_json::Value, key: &str, dflt: bool) -> (b: bool)
    ensures
        b == flag(json_of(*doc), key@, dflt),
{
    proof {
        reveal(flag);
    }
    bool_or(find_setting(doc, key), dflt)
}

fn read_words(doc: &serde_json::Value, key: &str) -> (s: String)
    ensures
        s@ == words(json_of(*doc), key@),
{
    proof {
        reveal(words);
    }
    match find_setting(doc, key) {
        Some(v) => match as_text(v) {
            Some(s) => s.to_owned(),
            None => String::new(),
        },
        None => String::new(),
    }
}

fn read_rgb(doc: &serde_json::Value, r: &str, g: &str, b: &str, dflt: i64) -> (c: Rgb)
    ensures
        c == rgb(json_of(*doc), r@, g@, b@, dflt as int),
{
    Rgb { r: read_num(doc, r, dflt), g: read_num(doc, g, dflt), b: read_num(doc, b, dflt) }
}

fn step(v: i64) -> (s: u8)
    ensures
        s == step_of(v as int),
{
    let n: i128 = div_nearest(v as i128, ONE as i128);
    if n < 0 {
        0
    } else if n > 255 {
        255
    } else {
        n as u8
    }
}

fn read_rgb8(doc: &serde_json::Value, r: &str, g: &str, b: &str, dr: u8, dg: u8, db: u8) -> (c: Rgb8)
    ensures
        c == rgb8(json_of(*doc), r@, g@, b@, dr as int, dg as int, db as int),
{
    Rgb8 {
        r: step(read_num(doc, r, dr as i64 * ONE)),
        g: step(read_num(doc, g, dg as i64 * ONE)),
        b: step(read_num(doc, b, db as i64 * ONE)),
    }
}

fn limit(v: i64, lo: i64, hi: i64) -> (r: i64)
    ensures
        r == within(v as int, lo as int, hi as int),
{
    if v < lo {
        lo
    } else if v > hi {
        hi
    } else {
        v
    }
}

fn at_least(v: i64, lo: i64) -> (r: i64)
    ensures
        r == greater(v as int, lo as int),
{
    if v > lo {
        v
    } else {
        lo
    }
}

fn read_whole(l: &serde_json::Value, key: &str) -> (n: i64)
    ensures
        n == layer_whole(json_of(*l), key@),
{
    match member(l, key) {
        Some(v) => match as_whole(v) {
            Some(n) => n,
            None => 0,
        },
        None => 0,
    }
}

fn read_layer(l: &serde_json::Value) -> (layer: BackgroundLayer)
    ensures
        layer_model(layer) == layer_of(json_of(*l)),
        layer.bytes@.len() == 0,
{
    reveal(layer_of);
    BackgroundLayer {
        bytes: Vec::new(),
        fit: read_whole(l, "Fit"),
        placement: read_whole(l, "Placement"),
        center_x: num_or(member(l, "CenterX"), 500_000),
        center_y: num_or(member(l, "CenterY"), 500_000),
        scale_x: num_or(member(l, "ScaleX"), 1_000_000),
        scale_y: num_or(member(l, "ScaleY"), 1_000_000),
        flip_horizontal: bool_or(member(l, "FlipHorizontal"), false),
        space_x: num_or(member(l, "SpaceX"), 0),
        space_y: num_or(member(l, "SpaceY"), 0),
        space_w: num_or(member(l, "SpaceWidth"), 8_000_000),
        space_h: num_or(member(l, "SpaceHeight"), 8_000_000),
        tint: Rgb {
            r: num_or(member(l, "TintRed"), 255_000_000),
            g: num_or(member(l, "TintGreen"), 255_000_000),
            b: num_or(member(l, "TintBlue"), 255_000_000),
        },
        tint_opacity: num_or(member(l, "TintOpacity"), 1_000_000),
    }
}

fn read_layers(doc: &serde_json::Value) -> (layers: Vec<BackgroundLayer>)
    ensures
        layer_models(layers@) == layers_of(json_of(*doc)),
        forall|i: int| 0 <= i < layers@.len() ==> (#[trigger] layers@[i]).bytes@.len() == 0,
{
    let mut layers: Vec<BackgroundLayer> = Vec::new();
    assert(layer_models(layers@) =~= Seq::empty());
    let ghost all = layers_of(json_of(*doc));
    let list: &serde_json::Value = match member(doc, "BackgroundImages") {
        Some(m) => match member(m, "Value") {
            Some(v) => v,
            None => m,
        },
        None => {
            assert(all =~= Seq::empty());
            return layers;
        },
    };
    let items: &Vec<serde_json::Value> = match as_items(list) {
        Some(items) => items,
        None => {
            assert(all =~= Seq::empty());
            return layers;
        },
    };
    let mut i: usize = 0;
    while i < items.len()
        invariant
            i <= items@.len(),
            all.len() == items@.len(),
            forall|j: int| 0 <= j < items@.len() ==> #[trigger] all[j] == layer_of(json_of(items@[j])),
            layer_models(layers@) == all.take(i as int),
            forall|j: int| 0 <= j < layers@.len() ==> (#[trigger] layers@[j]).bytes@.len() == 0,
        decreases items@.len() - i,
    {
        let ghost before = layer_models(layers@);
        let layer: BackgroundLayer = read_layer(&items[i]);
        layers.push(layer);
        proof {
            assert(layer_models(layers@) =~= before.push(layer_model(layer)));
            assert(all.take(i + 1) =~= all.take(i as int).push(all[i as int]));
        }
        i = i + 1;
    }
    assert(all.take(i as int) =~= all);
    layers
}

fn read_exact(v: &serde_json::Value, key: &str) -> (n: Option<i64>)
    ensures
        match n {
            Some(x) => exact_num(json_of(*v), key@) == Some(x as int),
            None => exact_num(json_of(*v), key@) is None,
        },
{
    match member(v, key) {
        Some(m) => fixed_number(m),
        None => None,
    }
}

fn read_stop(v: &serde_json::Value) -> (s: Option<GradientStop>)
    ensures
        s == stop_of(json_of(*v)),
{
    match (
        read_exact(v, "Position"),
        read_exact(v, "Red"),
        read_exact(v, "Green"),
        read_exact(v, "Blue"),
    ) {
        (Some(position), Some(r), Some(g), Some(b)) => Some(
            GradientStop { position, color: Rgb { r, g, b } },
        ),
        _ => None,
    }
}

fn insert_stop(stops: &mut Vec<GradientStop>, s: GradientStop)
    ensures
        final(stops)@ == with_stop(old(stops)@, s),
{
    let ghost before = stops@;
    let mut p: usize = stops.len();
    assert(before.take(p as int) =~= before);
    assert(with_stop(before, s) =~= with_stop(before.take(p as int), s) + before.skip(p as int));
    while p > 0 && stops[p - 1].position > s.position
        invariant
            p <= stops@.len(),
            stops@ == before,
            with_stop(before, s) == with_stop(before.take(p as int), s) + before.skip(p as int),
        decreases p,
    {
        proof {
            let front = before.take(p as int);
            assert(front.drop_last() =~= before.take(p - 1));
            assert(with_stop(before, s) =~= with_stop(before.take(p - 1), s) + before.skip(p - 1));
        }
        p = p - 1;
    }
    stops.insert(p, s);
    proof {
        let front = before.take(p as int);
        assert(with_stop(front, s) == front.push(s));
        assert(stops@ =~= with_stop(before, s));
    }
}

fn read_gradient(doc: &serde_json::Value) -> (stops: Vec<GradientStop>)
    ensures
        stops@ == gradient_of(json_of(*doc)),
{
    let mut stops: Vec<GradientStop> = Vec::new();
    if !read_flag(doc, "CursorTrailGradientEnabled", true) {
        return stops;
    }
    let items: &Vec<serde_json::Value> = match find_setting(doc, "CursorTrailGradient") {
        Some(v) => match as_items(v) {
            Some(items) => items,
            None => {
                return stops;
            },
        },
        None => {
            return stops;
        },
    };
    let ghost all = all_json(items@);
    let mut i: usize = 0;
    assert(stops@ =~= stops_among(all.take(0)));
    while i < items.len()
        invariant
            i <= items@.len(),
            all == all_json(items@),
            stops@ == stops_among(all.take(i as int)),
        decreases items@.len() - i,
    {
        assert(all.take(i + 1).drop_last() =~= all.take(i as int));
        if let Some(s) = read_stop(&items[i]) {
            insert_stop(&mut stops, s);
        }
        i = i + 1;
    }
    assert(all.take(i as int) =~= all);
    stops
}

impl Default for HudConfig {
    /// The overlay that the game shows where nothing is set.
    fn default() -> (c: HudConfig)
        ensures
            is_hud(c, Json::Null),
    {
        proof {
            lemma_unset();
        }
        HudConfig {
            accuracy: true,
            combo_ring: true,
            grade: true,
            pauses: true,
            score: true,
            points: true,
            misses: true,
            notes: true,
            health_bar: true,
            health_bar_color: Rgb8 { r: 0, g: 220, b: 80 },
            health_bar_alpha: 860_000,
            song_progress_bar: true,
            song_progress_color: Rgb8 { r: 220, g: 220, b: 225 },
            song_progress_alpha: 860_000,
            combo_ring_color: Rgb8 { r: 0, g: 200, b: 200 },
            combo_ring_opacity: 1_000_000,
            playfield_combo_text: true,
            combo_text_color: Rgb8 { r: 255, g: 255, b: 255 },
            combo_text_font_size: 190_000_000,
            combo_text_opacity: 50_000,
            combo_text_vpos_pct: 25_000_000,
            song_info: true,
            miss_effect_opacity: 1_000_000,
            speed_label: true,
            error_meter: ErrorMeter::at(500_000, 880_000),
            aim_meter: ErrorMeter::at(150_000, 320_000),
            positions: Vec::new(),
        }
    }
}

impl Default for AmbientConfig {
    /// The ambient layers that the game shows where nothing is set: none.
    fn default() -> (c: AmbientConfig)
        ensures
            is_ambient(c, Json::Null),
    {
        proof {
            lemma_unset();
        }
        AmbientConfig {
            color: Rgb { r: 0, g: 0, b: 0 },
            accent: Rgb { r: 255_000_000, g: 255_000_000, b: 255_000_000 },
            accent_from_hit_note: false,
            tunnel_enabled: false,
            tunnel_opacity: 200_000,
            chevron_enabled: false,
            chevron_opacity: 250_000,
            chevron_gap: 1_250_000_000,
            chevron_large: 435_000_000,
            chevron_small: 430_000_000,
            chevron_width: 12_000_000,
            chevron_speed: 700_000,
            rays_enabled: false,
            rays_opacity: 200_000,
            rays_intensity: 400_000,
            rays_width: 12_000_000,
            grid_enabled: false,
            grid_opacity: 220_000,
            grid_cell_size: 320_000_000,
            grid_center_gap: 1_100_000_000,
            grid_fade_falloff: 1_350_000,
            grid_speed: 750_000,
            grid_parallax: 0,
        }
    }
}

impl Default for SkinConfig {
    /// The game's own defaults, which stand for every field that a document leaves out.
    fn default() -> (c: SkinConfig)
        ensures
            is_config(c, Json::Null),
    {
        proof {
            lemma_unset();
            lemma_square();
            assert(layer_models(Seq::empty()) =~= layers_of(Json::Null));
        }
        SkinConfig {
            camera_fov: 70_000_000,
            approach_rate: 24_500_000,
            spawn_distance: 12_000_000,
            note_scale: 900_000,
            note_opacity: 1_000_000,
            fade_length: 500_000,
            parallax: 0,
            half_ghost: false,
            note_shape: NoteShape::Square,
            note_skin_name: String::new(),
            border_skin_name: String::new(),
            cursor_skin_name: String::new(),
            colorset_name: String::new(),
            border_color: Rgb { r: 255_000_000, g: 255_000_000, b: 255_000_000 },
            border_opacity: 1_000_000,
            cursor_color: Rgb { r: 255_000_000, g: 255_000_000, b: 255_000_000 },
            cursor_scale: 1_000_000,
            cursor_trail_enabled: true,
            cursor_trail_opacity: 500_000,
            cursor_trail_fade_secs: 100_000,
            cursor_trail_spacing: 400_000,
            cursor_trail_color: Rgb { r: 255_000_000, g: 255_000_000, b: 255_000_000 },
            cursor_trail_inherit: true,
            cursor_trail_shrink: true,
            cursor_trail_gradient: Vec::new(),
            note_texture: None,
            border_texture: None,
            cursor_texture: None,
            background_images: Vec::new(),
            colorset: Vec::new(),
            mod_icons: Vec::new(),
            hud_font: None,
            hud: HudConfig::default(),
            background_color: Rgb { r: 0, g: 0, b: 0 },
            cursor_opacity: 1_000_000,
            cursor_rotation_deg: 0,
            playfield_grid: false,
            playfield_grid_color: Rgb { r: 255_000_000, g: 255_000_000, b: 255_000_000 },
            playfield_grid_opacity: 1_000_000,
            playfield_grid_thickness: 2_000_000,
            fail_vignette_opacity: 0,
            interface_text_color: Rgb8 { r: 255, g: 255, b: 255 },
            interface_values_font_size: 1_000_000,
            panel_color: Rgb8 { r: 70, g: 1, b: 1 },
            panel_opacity: 1_000_000,
            panel_background_opacity: 0,
            panel_gap: 0,
            panel_angle: 0,
            push_back: false,
            disable_gui: false,
            spin_camera: false,
            ambient: AmbientConfig::default(),
            custom_bg_dim: None,
            custom_bg_video: false,
        }
    }
}

proof fn lemma_unset()
    ensures
        forall|key: Seq<char>, d: int| num(Json::Null, key, d) == d,
        forall|key: Seq<char>, d: bool| flag(Json::Null, key, d) == d,
        forall|key: Seq<char>| words(Json::Null, key) == Seq::<char>::empty(),
        forall|d: int| 0 <= d <= 255 ==> #[trigger] step_of(d * ONE) == d,
{
    reveal(num);
    reveal(flag);
    reveal(words);
    assert forall|d: int| 0 <= d <= 255 implies #[trigger] step_of(d * ONE) == d by {
        assert(2 * (ONE as int) == 2_000_000);
        assert(nearest(d * ONE, ONE as int) == d);
    }
}

proof fn lemma_square()
    ensures
        shape_of(Seq::empty()) == NoteShape::Square,
{
    reveal_strlit("thin");
    reveal_strlit("circle");
    reveal_strlit("dot");
    reveal_strlit("round");
    assert(lowered(Seq::empty()).len() == 0);
}

impl SkinConfig {
    /// Reads the settings of a document. What is missing falls back to the game's own defaults.
    pub fn from_value(doc: &serde_json::Value) -> (c: SkinConfig)
        ensures
            is_config(c, json_of(*doc)),
    {
        let note_skin_name: String = read_words(doc, "NoteSkin");
        SkinConfig {
            camera_fov: read_num(doc, "CameraFov", 70_000_000),
            approach_rate: read_num(doc, "ApproachRate", 24_500_000),
            spawn_distance: read_num(doc, "SpawnDistance", 12_000_000),
            note_scale: read_num(doc, "NoteScale", 900_000),
            note_opacity: read_num(doc, "NoteOpacity", 1_000_000),
            fade_length: limit(read_num(doc, "FadeLength", 500_000), 10_000, 1_000_000),
            parallax: read_num(doc, "Parallax", 0),
            half_ghost: read_flag(doc, "HalfGhost", false),
            note_shape: NoteShape::from_skin(note_skin_name.as_str()),
            note_skin_name: note_skin_name,
            border_skin_name: read_words(doc, "BorderSkin"),
            cursor_skin_name: read_words(doc, "CursorSkin"),
            colorset_name: read_words(doc, "ColorSet"),
            border_color: read_rgb(doc, "BorderColorRed", "BorderColorGreen", "BorderColorBlue", 255_000_000),
            border_opacity: read_num(doc, "BorderOpacity", 1_000_000),
            cursor_color: read_rgb(doc, "CursorColorRed", "CursorColorGreen", "CursorColorBlue", 255_000_000),
            cursor_scale: read_num(doc, "CursorScale", 1_000_000),
            cursor_trail_enabled: read_flag(doc, "CursorTrailEnabled", true),
            cursor_trail_opacity: read_num(doc, "CursorTrailOpacity", 500_000),
            cursor_trail_fade_secs: at_least(read_num(doc, "CursorTrailFadeTimeSeconds", 100_000), 10_000),
            cursor_trail_spacing: at_least(read_num(doc, "CursorTrailSpacingMultiplier", 400_000), 10_000),
            cursor_trail_color: read_rgb(doc, "CursorTrailColorRed", "CursorTrailColorGreen", "CursorTrailColorBlue", 255_000_000),
            cursor_trail_inherit: read_flag(doc, "CursorTrailInheritFromCursor", true),
            cursor_trail_shrink: read_flag(doc, "CursorTrailShrinkOverTime", true),
            cursor_trail_gradient: read_gradient(doc),
            note_texture: None,
            border_texture: None,
            cursor_texture: None,
            background_images: read_layers(doc),
            colorset: Vec::new(),
            mod_icons: Vec::new(),
            hud_font: None,
            hud: read_hud(doc),
            background_color: read_rgb(doc, "BackgroundRed", "BackgroundGreen", "BackgroundBlue", 0),
            cursor_opacity: read_num(doc, "CursorOpacity", 1_000_000),
            cursor_rotation_deg: read_num(doc, "CursorRotation", 0),
            playfield_grid: read_flag(doc, "PlayfieldGridEnabled", false),
            playfield_grid_color: read_rgb(doc, "PlayfieldGridColorRed", "PlayfieldGridColorGreen", "PlayfieldGridColorBlue", 255_000_000),
            playfield_grid_opacity: read_num(doc, "PlayfieldGridOpacity", 1_000_000),
            playfield_grid_thickness: read_num(doc, "PlayfieldGridThickness", 2_000_000),
            fail_vignette_opacity: read_num(doc, "FailVignetteOpacity", 0),
            interface_text_color: read_rgb8(doc, "InterfaceTextColorRed", "InterfaceTextColorGreen", "InterfaceTextColorBlue", 255, 255, 255),
            interface_values_font_size: at_least(read_num(doc, "InterfaceValuesFontSize", 1_000_000), 100_000),
            panel_color: read_rgb8(doc, "PanelColorRed", "PanelColorGreen", "PanelColorBlue", 70, 1, 1),
            panel_opacity: read_num(doc, "PanelOpacity", 1_000_000),
            panel_background_opacity: read_num(doc, "PanelBackgroundOpacity", 0),
            panel_gap: read_num(doc, "PanelGap", 0),
            panel_angle: 0,
            push_back: read_flag(doc, "PushBack", false),
            disable_gui: read_flag(doc, "GameSceneDisableGui", false),
            spin_camera: read_flag(doc, "SpinCamera", false),
            ambient: read_ambient(doc),
            custom_bg_dim: None,
            custom_bg_video: false,
        }
    }

    /// Reads a settings file.
    pub fn from_json(json: &str) -> (r: Result<SkinConfig, Error>)
        ensures
            match r {
                Ok(c) => match json_document(json@) {
                    Ok(doc) => is_config(c, doc),
                    Err(_) => false,
                },
                Err(e) => match json_document(json@) {
                    Ok(_) => false,
                    Err(why) => e matches Error::Config(text) && text@ == "config JSON: "@ + why,
                },
            },
    {
        match parse_json(json) {
            Ok(doc) => Ok(SkinConfig::from_value(&doc)),
            Err(why) => {
                let mut text: String = "config JSON: ".to_owned();
                text.append(why.as_str());
                Err(Error::Config(text))
            },
        }
    }

    /// Whether the border is drawn as corners only.
    pub fn border_is_corners(&self) -> (r: bool)
        ensures
            r == holds(lowered(self.border_skin_name@), "corner"@),
    {
        let chars: Vec<char> = chars_of(self.border_skin_name.as_str());
        let n: Vec<char> = lowercase(chars.as_slice());
        contains(n.as_slice(), "corner")
    }
}

/// The stops of a gradient are in the order of their positions.
pub proof fn law_gradient_is_sorted(items: Seq<Json>)
    ensures
        forall|i: int, j: int|
            0 <= i <= j < stops_among(items).len() ==> (#[trigger] stops_among(items)[i]).position
                <= (#[trigger] stops_among(items)[j]).position,
    decreases items.len(),
{
    if items.len() > 0 {
        law_gradient_is_sorted(items.drop_last());
        if let Some(s) = stop_of(items.last()) {
            lemma_with_stop(stops_among(items.drop_last()), s);
        }
    }
}

spec fn by_position(stops: Seq<GradientStop>) -> bool {
    forall|i: int, j: int|
        0 <= i <= j < stops.len() ==> (#[trigger] stops[i]).position <= (
        #[trigger] stops[j]).position
}

proof fn lemma_with_stop(stops: Seq<GradientStop>, s: GradientStop)
    requires
        by_position(stops),
    ensures
        by_position(with_stop(stops, s)),
        forall|i: int|
            0 <= i < with_stop(stops, s).len() ==> {
                ||| (#[trigger] with_stop(stops, s)[i]).position <= s.position
                ||| stops.len() > 0 && with_stop(stops, s)[i].position <= stops.last().position
            },
    decreases stops.len(),
{
    if stops.len() > 0 && stops.last().position > s.position {
        let front = stops.drop_last();
        assert(by_position(front)) by {
            assert forall|i: int, j: int| 0 <= i <= j < front.len() implies (
            #[trigger] front[i]).position <= (#[trigger] front[j]).position by {
                assert(front[i] == stops[i] && front[j] == stops[j]);
            }
        }
        lemma_with_stop(front, s);
        let w = with_stop(front, s);
        let all = with_stop(stops, s);
        assert forall|i: int| 0 <= i < w.len() implies (#[trigger] w[i]).position
            <= stops.last().position by {
            if front.len() > 0 {
                assert(front.last() == stops[front.len() - 1]);
            }
        }
        assert forall|i: int, j: int| 0 <= i <= j < all.len() implies (#[trigger] all[i]).position
            <= (#[trigger] all[j]).position by {
            if j < w.len() {
                assert(all[i] == w[i] && all[j] == w[j]);
            } else if i < w.len() {
                assert(all[i] == w[i]);
            }
        }
        assert forall|i: int| 0 <= i < all.len() implies {
            ||| (#[trigger] all[i]).position <= s.position
            ||| stops.len() > 0 && all[i].position <= stops.last().position
        } by {
            if i < w.len() {
                assert(all[i] == w[i]);
            }
        }
    }
}

/// A setting is read from the member of its name, where its value stands; without one, or with a
/// value of another kind, it keeps its default.
pub proof fn law_settings_are_read_by_name(
    key: Seq<char>,
    other: Seq<char>,
    s: Seq<char>,
    whole: Option<int>,
    b: bool,
    dflt: int,
    n: int,
)
    requires
        other != key,
        fixed_of(s) == Some(n),
    ensures
        ({
            let number = Json::Number(s, whole);
            let doc = Json::Object(seq![(key, Json::Object(seq![("Value"@, number)]))]);
            &&& num(doc, key, dflt) == n
            &&& num(doc, other, dflt) == dflt
            &&& flag(doc, key, b) == b
        }),
        ({
            let doc = Json::Object(seq![(key, Json::Object(seq![("Value"@, Json::Bool(b))]))]);
            &&& flag(doc, key, !b) == b
            &&& flag(doc, other, b) == b
            &&& num(doc, key, dflt) == dflt
        }),
        num(Json::Object(Seq::empty()), key, dflt) == dflt,
        flag(Json::Object(Seq::empty()), key, b) == b,
{
    reveal(num);
    reveal(flag);
    lemma_only_member(key, other, Json::Object(seq![("Value"@, Json::Number(s, whole))]));
    lemma_only_member("Value"@, "Value"@, Json::Number(s, whole));
    lemma_only_member(key, other, Json::Object(seq![("Value"@, Json::Bool(b))]));
    lemma_only_member("Value"@, "Value"@, Json::Bool(b));
}

proof fn lemma_only_member(key: Seq<char>, other: Seq<char>, v: Json)
    ensures
        member_of(Json::Object(seq![(key, v)]), key) == Some(v),
        other != key ==> member_of(Json::Object(seq![(key, v)]), other) is None,
{
    let members = seq![(key, v)];
    assert(members[0].0 == key);
    assert(members.drop_first() =~= Seq::<(Seq<char>, Json)>::empty());
    assert(member_among(members.drop_first(), other) is None);
}

/// A colour step is the nearest whole one, from 0 to 255.
pub proof fn law_color_steps_are_whole(v: int, more: int)
    requires
        v <= more,
    ensures
        0 <= v <= 255_000_000 ==> 2 * magnitude(1_000_000 * step_of(v) - v) <= 1_000_000,
        v <= 0 ==> step_of(v) == 0,
        v >= 255_000_000 ==> step_of(v) == 255,
        step_of(v) <= step_of(more),
{
    law_rounding_is_closest(v, 1_000_000);
    law_rounding_is_monotone(v, more, 1_000_000);
    law_rounding_keeps_whole_numbers(0, 0, 1_000_000);
    law_rounding_keeps_whole_numbers(255, 0, 1_000_000);
    if v <= 0 {
        law_rounding_is_monotone(v, 0, 1_000_000);
    }
    if v >= 0 {
        law_rounding_is_monotone(0, v, 1_000_000);
    }
    if v >= 255_000_000 {
        law_rounding_is_monotone(255_000_000, v, 1_000_000);
    }
    if v <= 255_000_000 {
        law_rounding_is_monotone(v, 255_000_000, 1_000_000);
    }
}

/// Every stop that can be read is kept, and one is put in behind all that stand at its place or
/// before it.
pub proof fn law_every_stop_is_kept(items: Seq<Json>)
    ensures
        stops_among(items).len() == tally(|i: int| stop_of(items[i]) is Some, items.len()),
    decreases items.len(),
{
    if items.len() > 0 {
        let rest = items.drop_last();
        law_every_stop_is_kept(rest);
        lemma_tally_same(
            |i: int| stop_of(rest[i]) is Some,
            |i: int| stop_of(items[i]) is Some,
            rest.len(),
        );
        match stop_of(items.last()) {
            Some(s) => {
                lemma_one_stop_more(stops_among(rest), s);
            },
            None => {},
        }
    }
}

proof fn lemma_one_stop_more(stops: Seq<GradientStop>, s: GradientStop)
    ensures
        with_stop(stops, s).len() == stops.len() + 1,
    decreases stops.len(),
{
    if stops.len() > 0 && stops.last().position > s.position {
        lemma_one_stop_more(stops.drop_last(), s);
    }
}

/// On the second side of a race a meter stands where it is put for that, or else where the first
/// one's stands, and is otherwise the same.
pub proof fn law_ghost_meters_differ_in_place_only(m: ErrorMeter)
    ensures
        m.ghost_x is None && m.ghost_y is None ==> ghost_meter(m) == m,
        m.ghost_x matches Some(x) ==> ghost_meter(m).x == x,
        m.ghost_y matches Some(y) ==> ghost_meter(m).y == y,
        m.ghost_x is None ==> ghost_meter(m).x == m.x,
        m.ghost_y is None ==> ghost_meter(m).y == m.y,
        ghost_meter(m).scale == m.scale,
        ghost_meter(m).alpha == m.alpha,
        ghost_meter(m).enabled == m.enabled,
{
}

} // verus!
