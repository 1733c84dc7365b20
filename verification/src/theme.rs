//! Every colour, type size and measure that the window is drawn with.
//!
//! Measures are singles, in points; colours are red, green, blue and alpha, each a
//! single. Both are written as the bits of the number, with the number itself beside
//! them.

use crate::ieee::{single, Single};
use crate::ui::Color;
use vstd::prelude::*;

verus! {

// Glyphs of the icon face.

/// Jump to the edit before.
pub const ICON_PREV_EDIT: char = '\u{E243}';

/// Step a frame back.
pub const ICON_PREV_FRAME: char = '\u{E06E}';

/// Play.
pub const ICON_PLAY: char = '\u{E13C}';

/// Pause.
pub const ICON_PAUSE: char = '\u{E12E}';

/// Step a frame on.
pub const ICON_NEXT_FRAME: char = '\u{E06F}';

/// Jump to the edit after.
pub const ICON_NEXT_EDIT: char = '\u{E244}';

/// Split.
pub const ICON_SPLIT: char = '\u{E3B6}';

/// Delete.
pub const ICON_DELETE: char = '\u{E18D}';

/// Undo.
pub const ICON_UNDO: char = '\u{E19B}';

/// Redo.
pub const ICON_REDO: char = '\u{E143}';

/// Snapping.
pub const ICON_SNAP: char = '\u{E2B5}';

/// Export.
pub const ICON_RENDER: char = '\u{E0D0}';

/// Stop.
pub const ICON_STOP: char = '\u{E167}';

/// Import media.
pub const ICON_IMPORT: char = '\u{E22F}';

/// Remove.
pub const ICON_CLOSE: char = '\u{E1B2}';

/// Project settings.
pub const ICON_SETTINGS: char = '\u{E154}';

/// Open a project.
pub const ICON_OPEN: char = '\u{E247}';

/// Save the project.
pub const ICON_SAVE: char = '\u{E14D}';

// Numbers the layout is written in.

/// A half, `0.5`.
pub const HALF_PT: u32 = 0x3f00_0000;

/// One, `1`.
pub const ONE_PT: u32 = 0x3f80_0000;

/// Two, `2`.
pub const TWO_PT: u32 = 0x4000_0000;

/// Three, `3`.
pub const THREE_PT: u32 = 0x4040_0000;

/// Four, `4`.
pub const FOUR_PT: u32 = 0x4080_0000;

/// Six, `6`.
pub const SIX_PT: u32 = 0x40c0_0000;

/// Eight, `8`.
pub const EIGHT_PT: u32 = 0x4100_0000;

/// A hundred, `100`.
pub const HUNDRED_PT: u32 = 0x42c8_0000;

// Panels and the dividers between them.

/// The share of the height above the timeline in a fresh session, `0.55`.
pub const TOP_BOTTOM_SPLIT: u32 = 0x3f0c_cccd;

/// The share of the width that the pool has in a fresh session, `0.28`.
pub const MEDIA_PREVIEW_SPLIT: u32 = 0x3e8f_5c29;

/// How far either side of a divider takes hold of it, `5`.
pub const SPLITTER_GRAB_PX: u32 = 0x40a0_0000;

/// Width of a lit divider, `3`.
pub const SPLITTER_ACTIVE_W: u32 = 0x4040_0000;

/// A lit divider, `0.45 0.45 0.53 1`.
pub const SPLITTER_ACTIVE_COLOR: [u32; 4] = [0x3ee6_6666, 0x3ee6_6666, 0x3f07_ae14, 0x3f80_0000];

/// The least width of the pool, `160`.
pub const POOL_MIN_W: u32 = 0x4320_0000;

/// The least width of the preview, `340`.
pub const PREVIEW_MIN_W: u32 = 0x43aa_0000;

/// The least height above the timeline, `100`.
pub const TOP_MIN_H: u32 = 0x42c8_0000;

/// The least height of the timeline, `100`.
pub const TIMELINE_MIN_H: u32 = 0x42c8_0000;

/// The pool, `0.15 0.15 0.18 1`.
pub const MEDIA_POOL_COLOR: [u32; 4] = [0x3e19_999a, 0x3e19_999a, 0x3e38_51ec, 0x3f80_0000];

/// The well around the canvas, `0.03 0.03 0.04 1`.
pub const PREVIEW_COLOR: [u32; 4] = [0x3cf5_c28f, 0x3cf5_c28f, 0x3d23_d70a, 0x3f80_0000];

/// The canvas with nothing on it, `0 0 0 1`.
pub const CANVAS_COLOR: [u32; 4] = [0x0000_0000, 0x0000_0000, 0x0000_0000, 0x3f80_0000];

/// The timeline behind its lanes, `0.09 0.09 0.11 1`.
pub const TIMELINE_COLOR: [u32; 4] = [0x3db8_51ec, 0x3db8_51ec, 0x3de1_47ae, 0x3f80_0000];

/// A lane, `0.05 0.05 0.06 1`.
pub const LANE_COLOR: [u32; 4] = [0x3d4c_cccd, 0x3d4c_cccd, 0x3d75_c28f, 0x3f80_0000];

/// The edge of a panel, `0.28 0.28 0.33 1`.
pub const PANEL_BORDER_COLOR: [u32; 4] = [0x3e8f_5c29, 0x3e8f_5c29, 0x3ea8_f5c3, 0x3f80_0000];

/// A line within a panel, `0.2 0.2 0.24 1`.
pub const DIVIDER_COLOR: [u32; 4] = [0x3e4c_cccd, 0x3e4c_cccd, 0x3e75_c28f, 0x3f80_0000];

// Clips.

/// A clip on a video lane, `0.19 0.28 0.44 1`.
pub const VIDEO_CLIP_COLOR: [u32; 4] = [0x3e42_8f5c, 0x3e8f_5c29, 0x3ee1_47ae, 0x3f80_0000];

/// A clip on an audio lane, `0.19 0.38 0.25 1`.
pub const AUDIO_CLIP_COLOR: [u32; 4] = [0x3e42_8f5c, 0x3ec2_8f5c, 0x3e80_0000, 0x3f80_0000];

/// Width of an outline, `1`.
pub const CLIP_BORDER_PX: u32 = 0x3f80_0000;

/// How much of the fill the outline keeps, `0.4`.
pub const CLIP_BORDER_DARKEN: u32 = 0x3ecc_cccd;

/// The outline of the selected clip, `1 0.72 0.3 1`.
pub const CLIP_SELECTED_BORDER: [u32; 4] = [0x3f80_0000, 0x3f38_51ec, 0x3e99_999a, 0x3f80_0000];

/// Width of the outline of the selected clip, `2`.
pub const CLIP_SELECTED_BORDER_PX: u32 = 0x4000_0000;

/// How far selection lifts the fill, `0.14`.
pub const CLIP_SELECTED_LIFT: u32 = 0x3e0f_5c29;

/// A waveform, `0.75 0.95 0.8 0.95`.
pub const AUDIO_WAVE_COLOR: [u32; 4] = [0x3f40_0000, 0x3f73_3333, 0x3f4c_cccd, 0x3f73_3333];

/// The name of a clip, `0.95 0.95 0.98 1`.
pub const CLIP_LABEL_COLOR: [u32; 4] = [0x3f73_3333, 0x3f73_3333, 0x3f7a_e148, 0x3f80_0000];

/// A heading, `0.72 0.72 0.78 1`.
pub const LABEL_COLOR: [u32; 4] = [0x3f38_51ec, 0x3f38_51ec, 0x3f47_ae14, 0x3f80_0000];

/// The name of a track, `0.62 0.62 0.68 1`.
pub const TRACK_LABEL_COLOR: [u32; 4] = [0x3f1e_b852, 0x3f1e_b852, 0x3f2e_147b, 0x3f80_0000];

// The type scale.

/// The smallest type, `11`.
pub const TYPE_SM: u32 = 0x4130_0000;

/// Rows, `12`.
pub const TYPE_MD: u32 = 0x4140_0000;

/// Headings, `13`.
pub const TYPE_LG: u32 = 0x4150_0000;

/// The timecode, `14`.
pub const TYPE_XL: u32 = 0x4160_0000;

/// Icons, `16`.
pub const TYPE_ICON: u32 = 0x4180_0000;

/// Room around a heading, `10`.
pub const LABEL_PAD: u32 = 0x4120_0000;

// The playhead and the transport bar.

/// The playhead, `0.95 0.35 0.35 1`.
pub const PLAYHEAD_COLOR: [u32; 4] = [0x3f73_3333, 0x3eb3_3333, 0x3eb3_3333, 0x3f80_0000];

/// Width of the playhead, `2`.
pub const PLAYHEAD_WIDTH: u32 = 0x4000_0000;

/// The timecode, `0.95 0.95 0.98 1`.
pub const TIMER_COLOR: [u32; 4] = [0x3f73_3333, 0x3f73_3333, 0x3f7a_e148, 0x3f80_0000];

/// Height of the transport bar, `40`.
pub const TRANSPORT_BAR_H: u32 = 0x4220_0000;

/// The transport bar, `0.15 0.15 0.18 1`.
pub const TRANSPORT_BAR_COLOR: [u32; 4] = [0x3e19_999a, 0x3e19_999a, 0x3e38_51ec, 0x3f80_0000];

/// Width of a button, `32`.
pub const TRANSPORT_BTN_W: u32 = 0x4200_0000;

/// Height of a button, `26`.
pub const TRANSPORT_BTN_H: u32 = 0x41d0_0000;

/// Room between buttons, `8`.
pub const TRANSPORT_GAP: u32 = 0x4100_0000;

// The export readout and the status line.

/// Width of the readout, `190`.
pub const EXPORT_READOUT_W: u32 = 0x433e_0000;

/// Room right of the readout, `10`.
pub const EXPORT_READOUT_GAP: u32 = 0x4120_0000;

/// Height of the progress bar, `4`.
pub const EXPORT_BAR_H: u32 = 0x4080_0000;

/// The progress bar, `0.1 0.1 0.13 1`.
pub const EXPORT_BAR_TRACK: [u32; 4] = [0x3dcc_cccd, 0x3dcc_cccd, 0x3e05_1eb8, 0x3f80_0000];

/// What the progress bar has filled, `0.95 0.55 0.15 1`.
pub const EXPORT_BAR_FILL: [u32; 4] = [0x3f73_3333, 0x3f0c_cccd, 0x3e19_999a, 0x3f80_0000];

/// Good news, `0.6 0.85 0.65 1`.
pub const STATUS_OK: [u32; 4] = [0x3f19_999a, 0x3f59_999a, 0x3f26_6666, 0x3f80_0000];

/// Bad news, `0.92 0.55 0.55 1`.
pub const STATUS_ERR: [u32; 4] = [0x3f6b_851f, 0x3f0c_cccd, 0x3f0c_cccd, 0x3f80_0000];

/// News, `0.72 0.72 0.78 1`.
pub const STATUS_INFO: [u32; 4] = [0x3f38_51ec, 0x3f38_51ec, 0x3f47_ae14, 0x3f80_0000];

/// How long a status stays, in seconds, `8`.
pub const STATUS_SECONDS: u64 = 0x4020_0000_0000_0000;

// The settings menu.

/// The menu, `0.13 0.13 0.16 1`.
pub const MENU_BG: [u32; 4] = [0x3e05_1eb8, 0x3e05_1eb8, 0x3e23_d70a, 0x3f80_0000];

/// The edge of the menu, `0.34 0.34 0.4 1`.
pub const MENU_BORDER: [u32; 4] = [0x3eae_147b, 0x3eae_147b, 0x3ecc_cccd, 0x3f80_0000];

/// Room inside the menu, `10`.
pub const MENU_PAD: u32 = 0x4120_0000;

/// Height of a row, `22`.
pub const MENU_ROW_H: u32 = 0x41b0_0000;

/// Room between rows, `1`.
pub const MENU_ROW_GAP: u32 = 0x3f80_0000;

/// Room between sections, `12`.
pub const MENU_SECTION_GAP: u32 = 0x4140_0000;

/// The heading of a section, `0.62 0.62 0.68 1`.
pub const MENU_HEADER_COLOR: [u32; 4] = [0x3f1e_b852, 0x3f1e_b852, 0x3f2e_147b, 0x3f80_0000];

/// Width of a resolution row, `132`.
pub const MENU_RES_W: u32 = 0x4304_0000;

/// Width of a column of rates, `60`.
pub const MENU_FPS_COL_W: u32 = 0x4270_0000;

/// Room between the columns, `4`.
pub const MENU_FPS_COL_GAP: u32 = 0x4080_0000;

/// Room between the menu and its button, `7`.
pub const MENU_GAP: u32 = 0x40e0_0000;

/// The shadow of the menu, `0 0 0 0.1`.
pub const MENU_SHADOW: [u32; 4] = [0x0000_0000, 0x0000_0000, 0x0000_0000, 0x3dcc_cccd];

// Lanes and the ruler.

/// The least height of a lane, `32`.
pub const TRACK_LANE_MIN_H: u32 = 0x4200_0000;

/// The greatest height of a lane, `88`.
pub const TRACK_LANE_MAX_H: u32 = 0x42b0_0000;

/// The share of the room that lanes take, `0.9`.
pub const TRACK_LANE_FILL: u32 = 0x3f66_6666;

/// Room between lanes, `2`.
pub const TRACK_LANE_GAP: u32 = 0x4000_0000;

/// Width of the track names, `48`.
pub const TRACK_HEADER_WIDTH: u32 = 0x4240_0000;

/// Height of the toolbar, `46`.
pub const TIMELINE_TOP_PAD: u32 = 0x4238_0000;

/// Height of the ruler, `22`.
pub const TIMELINE_RULER_H: u32 = 0x41b0_0000;

/// The ruler, `0.15 0.15 0.18 1`.
pub const TIMELINE_RULER_COLOR: [u32; 4] = [0x3e19_999a, 0x3e19_999a, 0x3e38_51ec, 0x3f80_0000];

/// A tick, `0.58 0.58 0.64 1`.
pub const TIMELINE_RULER_TICK_COLOR: [u32; 4] = [0x3f14_7ae1, 0x3f14_7ae1, 0x3f23_d70a, 0x3f80_0000];

/// The time at a tick, `0.72 0.72 0.78 1`.
pub const TIMELINE_RULER_LABEL_COLOR: [u32; 4] = [0x3f38_51ec, 0x3f38_51ec, 0x3f47_ae14, 0x3f80_0000];

/// Height of a tick, `6`.
pub const TIMELINE_RULER_TICK_H: u32 = 0x40c0_0000;

/// Height of the scroll strip, `12`.
pub const TIMELINE_SCROLLBAR_H: u32 = 0x4140_0000;

/// The least width of the thumb, `24`.
pub const SCROLLBAR_MIN_THUMB_W: u32 = 0x41c0_0000;

/// Room above and below the thumb, `3`.
pub const SCROLLBAR_THUMB_INSET: u32 = 0x4040_0000;

/// The scroll strip, `0.05 0.05 0.06 1`.
pub const SCROLLBAR_TRACK_COLOR: [u32; 4] = [0x3d4c_cccd, 0x3d4c_cccd, 0x3d75_c28f, 0x3f80_0000];

/// The thumb at rest, `0.28 0.28 0.33 1`.
pub const SCROLLBAR_THUMB_COLOR: [u32; 4] = [0x3e8f_5c29, 0x3e8f_5c29, 0x3ea8_f5c3, 0x3f80_0000];

/// The thumb under the cursor, `0.34 0.34 0.4 1`.
pub const SCROLLBAR_THUMB_HOVER_COLOR: [u32; 4] = [0x3eae_147b, 0x3eae_147b, 0x3ecc_cccd, 0x3f80_0000];

/// The thumb in hand, `0.45 0.45 0.53 1`.
pub const SCROLLBAR_THUMB_ACTIVE_COLOR: [u32; 4] = [0x3ee6_6666, 0x3ee6_6666, 0x3f07_ae14, 0x3f80_0000];

// The media pool.

/// Where the rows begin, `36`.
pub const POOL_LIST_TOP: u32 = 0x4210_0000;

/// Height of a row, `64`.
pub const POOL_ROW_HEIGHT: u32 = 0x4280_0000;

/// Room between rows, `4`.
pub const POOL_ROW_GAP: u32 = 0x4080_0000;

/// Room inside a row, `6`.
pub const POOL_ROW_PAD: u32 = 0x40c0_0000;

/// A row, `0.2 0.2 0.24 1`.
pub const POOL_ROW_COLOR: [u32; 4] = [0x3e4c_cccd, 0x3e4c_cccd, 0x3e75_c28f, 0x3f80_0000];

/// Room between the name and the format, `5`.
pub const POOL_ITEM_META_GAP: u32 = 0x40a0_0000;

/// Width of a thumbnail, `92`.
pub const POOL_THUMB_W: u32 = 0x42b8_0000;

/// Height of a thumbnail, `52`.
pub const POOL_THUMB_H: u32 = 0x4250_0000;

/// Behind a thumbnail, `0.08 0.08 0.1 1`.
pub const POOL_THUMB_BG: [u32; 4] = [0x3da3_d70a, 0x3da3_d70a, 0x3dcc_cccd, 0x3f80_0000];

/// Behind a length, `0 0 0 0.65`.
pub const POOL_DUR_BG: [u32; 4] = [0x0000_0000, 0x0000_0000, 0x0000_0000, 0x3f26_6666];

/// A length, `0.95 0.95 0.98 1`.
pub const POOL_DUR_TEXT: [u32; 4] = [0x3f73_3333, 0x3f73_3333, 0x3f7a_e148, 0x3f80_0000];

/// Side of the box that removes a row, `18`.
pub const POOL_CLOSE_BOX: u32 = 0x4190_0000;

/// Room around that box, `3`.
pub const POOL_CLOSE_INSET: u32 = 0x4040_0000;

/// That box, `0 0 0 0.7`.
pub const POOL_CLOSE_BG: [u32; 4] = [0x0000_0000, 0x0000_0000, 0x0000_0000, 0x3f33_3333];

/// That box under the cursor, `0.65 0.25 0.25 0.95`.
pub const POOL_CLOSE_BG_HOVER: [u32; 4] = [0x3f26_6666, 0x3e80_0000, 0x3e80_0000, 0x3f73_3333];

/// The cross in it, `0.95 0.95 0.98 1`.
pub const POOL_CLOSE_GLYPH_COLOR: [u32; 4] = [0x3f73_3333, 0x3f73_3333, 0x3f7a_e148, 0x3f80_0000];

// Levels and fades.

/// Room above and below the level line, `5`.
pub const CLIP_LEVEL_INSET: u32 = 0x40a0_0000;

/// Width of the level line, `1`.
pub const CLIP_LEVEL_LINE_H: u32 = 0x3f80_0000;

/// Width of the level line of the selected clip, `2`.
pub const CLIP_LEVEL_ACTIVE_H: u32 = 0x4000_0000;

/// How far from the line takes hold of it, `5`.
pub const CLIP_LEVEL_GRAB_PX: u32 = 0x40a0_0000;

/// Room around the level, `5`.
pub const CLIP_LEVEL_LABEL_PAD: u32 = 0x40a0_0000;

/// The level line, `1 0.88 0.55 0.55`.
pub const CLIP_LEVEL_COLOR: [u32; 4] = [0x3f80_0000, 0x3f61_47ae, 0x3f0c_cccd, 0x3f0c_cccd];

/// The level line of the selected clip, `1 0.82 0.35 1`.
pub const CLIP_LEVEL_ACTIVE_COLOR: [u32; 4] = [0x3f80_0000, 0x3f51_eb85, 0x3eb3_3333, 0x3f80_0000];

/// The level, `1 0.9 0.7 1`.
pub const CLIP_LEVEL_LABEL_COLOR: [u32; 4] = [0x3f80_0000, 0x3f66_6666, 0x3f33_3333, 0x3f80_0000];

/// What a fade takes away, `0 0 0 0.62`.
pub const CLIP_FADE_SHADE: [u32; 4] = [0x0000_0000, 0x0000_0000, 0x0000_0000, 0x3f1e_b852];

/// The line of a fade, `1 0.88 0.55 0.85`.
pub const CLIP_FADE_EDGE_COLOR: [u32; 4] = [0x3f80_0000, 0x3f61_47ae, 0x3f0c_cccd, 0x3f59_999a];

/// Width of the line of a fade, `1`.
pub const CLIP_FADE_EDGE_H: u32 = 0x3f80_0000;

/// Side of a fade handle, `9`.
pub const CLIP_FADE_HANDLE_BOX: u32 = 0x4110_0000;

/// A fade handle, `1 0.82 0.35 0.85`.
pub const CLIP_FADE_HANDLE_COLOR: [u32; 4] = [0x3f80_0000, 0x3f51_eb85, 0x3eb3_3333, 0x3f59_999a];

/// How far from an edge takes hold of it, `6`.
pub const CLIP_EDGE_GRAB_PX: u32 = 0x40c0_0000;

/// Room beside a label on its plate, `3`.
pub const CLIP_LABEL_PLATE_PAD_X: u32 = 0x4040_0000;

/// Room above a label on its plate, `1`.
pub const CLIP_LABEL_PLATE_PAD_Y: u32 = 0x3f80_0000;

/// The plate behind a label, `0 0 0 0.45`.
pub const CLIP_LABEL_PLATE_COLOR: [u32; 4] = [0x0000_0000, 0x0000_0000, 0x0000_0000, 0x3ee6_6666];

/// The least level, in decibels, that is spelled out, `0.05`.
pub const LEVEL_WORTH_SAYING: u32 = 0x3d4c_cccd;

// Dragging.

/// The least width of the ghost, `4`.
pub const GHOST_MIN_W: u32 = 0x4080_0000;

/// The ghost over a video lane, `0.19 0.28 0.44 0.55`.
pub const DRAG_GHOST_VIDEO_COLOR: [u32; 4] = [0x3e42_8f5c, 0x3e8f_5c29, 0x3ee1_47ae, 0x3f0c_cccd];

/// The ghost over an audio lane, `0.19 0.38 0.25 0.55`.
pub const DRAG_GHOST_AUDIO_COLOR: [u32; 4] = [0x3e42_8f5c, 0x3ec2_8f5c, 0x3e80_0000, 0x3f0c_cccd];

/// Side of a handle on the canvas, `10`.
pub const TRANSFORM_HANDLE_BOX: u32 = 0x4120_0000;

// Waveforms.

/// The share of a lane that a full peak takes either way, `0.45`.
pub const LANE_WAVE_REACH: u32 = 0x3ee6_6666;

/// The share of a thumbnail that a full peak takes either way, `0.42`.
pub const POOL_WAVE_REACH: u32 = 0x3ed7_0a3d;

// Buttons and tooltips.

/// A button, `0.22 0.22 0.27 0.94`.
pub const BTN_BG: [u32; 4] = [0x3e61_47ae, 0x3e61_47ae, 0x3e8a_3d71, 0x3f70_a3d7];

/// A button under the cursor, `0.33 0.33 0.4 0.96`.
pub const BTN_BG_HOVER: [u32; 4] = [0x3ea8_f5c3, 0x3ea8_f5c3, 0x3ecc_cccd, 0x3f75_c28f];

/// A button that cannot be pressed, `0.16 0.16 0.19 0.92`.
pub const BTN_BG_DISABLED: [u32; 4] = [0x3e23_d70a, 0x3e23_d70a, 0x3e42_8f5c, 0x3f6b_851f];

/// The lit top edge of a button, `1 1 1 0.07`.
pub const BTN_TOP_HIGHLIGHT: [u32; 4] = [0x3f80_0000, 0x3f80_0000, 0x3f80_0000, 0x3d8f_5c29];

/// The icon of a button, `0.95 0.95 0.98 1`.
pub const BTN_LABEL: [u32; 4] = [0x3f73_3333, 0x3f73_3333, 0x3f7a_e148, 0x3f80_0000];

/// The icon of a button that cannot be pressed, `0.42 0.42 0.47 1`.
pub const BTN_LABEL_DISABLED: [u32; 4] = [0x3ed7_0a3d, 0x3ed7_0a3d, 0x3ef0_a3d7, 0x3f80_0000];

/// The strip of a setting that is on, `0.95 0.55 0.15 1`.
pub const TOGGLE_ON: [u32; 4] = [0x3f73_3333, 0x3f0c_cccd, 0x3e19_999a, 0x3f80_0000];

/// The strip of a setting that is off, `0.3 0.3 0.34 1`.
pub const TOGGLE_OFF: [u32; 4] = [0x3e99_999a, 0x3e99_999a, 0x3eae_147b, 0x3f80_0000];

/// Width of that strip, `3`.
pub const TOGGLE_STRIP_W: u32 = 0x4040_0000;

/// A tooltip, `0.06 0.06 0.08 1`.
pub const TOOLTIP_BG: [u32; 4] = [0x3d75_c28f, 0x3d75_c28f, 0x3da3_d70a, 0x3f80_0000];

/// The edge of a tooltip, `0.34 0.34 0.4 1`.
pub const TOOLTIP_BORDER: [u32; 4] = [0x3eae_147b, 0x3eae_147b, 0x3ecc_cccd, 0x3f80_0000];

/// The words of a tooltip, `0.96 0.96 0.98 1`.
pub const TOOLTIP_LABEL: [u32; 4] = [0x3f75_c28f, 0x3f75_c28f, 0x3f7a_e148, 0x3f80_0000];

/// Room between a tooltip and its button, `7`.
pub const TOOLTIP_GAP: u32 = 0x40e0_0000;

/// Room beside the words, `9`.
pub const TOOLTIP_PAD_X: u32 = 0x4110_0000;

/// Room above the words, `5`.
pub const TOOLTIP_PAD_Y: u32 = 0x40a0_0000;

/// The shadow of a tooltip, `0 0 0 0.1`.
pub const TOOLTIP_SHADOW: [u32; 4] = [0x0000_0000, 0x0000_0000, 0x0000_0000, 0x3dcc_cccd];

/// The colour of four numbers.
pub open spec fn spec_paint(bits: [u32; 4]) -> Color {
    Color { r: single(bits[0]), g: single(bits[1]), b: single(bits[2]), a: single(bits[3]) }
}

/// The colour of four numbers.
#[verifier::when_used_as_spec(spec_paint)]
pub fn paint(bits: [u32; 4]) -> (r: Color)
    ensures
        r == spec_paint(bits),
{
    Color { r: single(bits[0]), g: single(bits[1]), b: single(bits[2]), a: single(bits[3]) }
}

/// A colour blended towards white by `f`.
pub open spec fn spec_lighten(c: Color, f: Single) -> Color {
    let one = single(ONE_PT);
    Color {
        r: c.r.plus(one.minus(c.r).times(f)),
        g: c.g.plus(one.minus(c.g).times(f)),
        b: c.b.plus(one.minus(c.b).times(f)),
        a: c.a,
    }
}

/// A colour blended towards white by `f`; its alpha stays.
#[verifier::when_used_as_spec(spec_lighten)]
pub fn lighten(c: Color, f: Single) -> (r: Color)
    ensures
        r == spec_lighten(c, f),
{
    let one: Single = single(ONE_PT);
    Color {
        r: c.r.plus(one.minus(c.r).times(f)),
        g: c.g.plus(one.minus(c.g).times(f)),
        b: c.b.plus(one.minus(c.b).times(f)),
        a: c.a,
    }
}

/// A colour scaled by `f`.
pub open spec fn spec_darken(c: Color, f: Single) -> Color {
    Color { r: c.r.times(f), g: c.g.times(f), b: c.b.times(f), a: c.a }
}

/// A colour scaled by `f`; its alpha stays.
#[verifier::when_used_as_spec(spec_darken)]
pub fn darken(c: Color, f: Single) -> (r: Color)
    ensures
        r == spec_darken(c, f),
{
    Color { r: c.r.times(f), g: c.g.times(f), b: c.b.times(f), a: c.a }
}

} // verus!
