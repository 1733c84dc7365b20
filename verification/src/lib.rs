//! The editing core of a video editor.

#![allow(unused_imports)]

pub mod canvas;
pub mod chrome;
pub mod commands;
pub mod compose;
pub mod controls;
pub mod cutting;
pub mod document;
pub mod drag;
pub mod drawing;
pub mod edit;
pub mod export;
pub mod fades;
pub mod fmt;
pub mod frame;
pub mod glyphs;
pub mod ieee;
pub mod gripping;
pub mod hearing;
pub mod input;
pub mod keys;
pub mod lane;
pub mod layout;
pub mod levels;
pub mod media;
pub mod menu;
pub mod moving;
pub mod names;
pub mod order;
pub mod panel;
pub mod picture;
pub mod placing;
pub mod preview;
pub mod project;
pub mod raster;
pub mod reading;
pub mod rows;
pub mod ruler;
pub mod scene;
pub mod session;
pub mod showing;
pub mod sound;
pub mod split;
pub mod strings;
pub mod take;
pub mod theme;
pub mod timeline;
pub mod timing;
pub mod title;
pub mod typeset;
pub mod ui;
pub mod view;
pub mod viewing;
