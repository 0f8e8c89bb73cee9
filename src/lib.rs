//! Verified image kernels: conversion of 4:2:0 luma/chroma planes into an
//! interleaved RGBA buffer, and block-matching motion estimation between two
//! grayscale frames.
pub mod color;
pub mod error;
pub mod flow;
pub mod wire;

pub use color::{convert_yuv_to_rgba, luma_pixels, yuv_to_rgb};
pub use error::ImageError;
pub use flow::{estimate_flow, BlockVector, FlowField, BLOCK_SIZE, SEARCH_RADIUS};
pub use wire::{
    new_uint_8_list_0, wire_get_correlation_flow, wire_uint_8_list, wire_yuv_rgba, NewWithNullPtr,
};
