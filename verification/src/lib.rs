//! Core of a playlist manager: conversion between an in-memory ordered list
//! of tracks and four on-disk playlist text formats (M3U8, M3U, TXT, CSV),
//! path-mode resolution, and the playlist directory index.
#![verifier::loop_isolation(false)]

pub mod cover;
pub mod csv;
pub mod emit;
pub mod index;
pub mod num;
pub mod parse;
pub mod playlist;
pub mod paths;
pub mod text;
pub mod track;
