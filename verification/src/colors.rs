//! A fixed lookup from color names to RGBA quadruples.

use vstd::prelude::*;
use crate::text::str_eq;

verus! {

/// The table: each known name and its quadruple, `None` for the rest.
pub open spec fn spec_rgb(s: Seq<char>) -> Option<(i32, i32, i32, i32)> {
    if s == "merah"@ {
        Some((255, 0, 0, 0))
    } else if s == "merah muda"@ {
        Some((255, 127, 127, 0))
    } else if s == "merah tua"@ {
        Some((128, 0, 0, 0))
    } else if s == "hijau"@ {
        Some((0, 255, 0, 0))
    } else if s == "hijau muda"@ {
        Some((127, 255, 127, 0))
    } else if s == "biru"@ {
        Some((0, 0, 255, 0))
    } else if s == "biru muda"@ {
        Some((127, 127, 255, 0))
    } else if s == "biru tua"@ {
        Some((0, 0, 128, 0))
    } else if s == "kuning"@ {
        Some((255, 255, 0, 0))
    } else if s == "kuning muda"@ {
        Some((255, 255, 102, 0))
    } else if s == "kuning tua"@ {
        Some((128, 128, 0, 0))
    } else {
        None
    }
}

/// Resolves a color name to its quadruple, or `None` for an unknown name.
pub fn get_rgb_color(warna: &str) -> (r: Option<(i32, i32, i32, i32)>)
    ensures
        r == spec_rgb(warna@),
{
    if str_eq(warna, "merah") {
        Some((255, 0, 0, 0))
    } else if str_eq(warna, "merah muda") {
        Some((255, 127, 127, 0))
    } else if str_eq(warna, "merah tua") {
        Some((128, 0, 0, 0))
    } else if str_eq(warna, "hijau") {
        Some((0, 255, 0, 0))
    } else if str_eq(warna, "hijau muda") {
        Some((127, 255, 127, 0))
    } else if str_eq(warna, "biru") {
        Some((0, 0, 255, 0))
    } else if str_eq(warna, "biru muda") {
        Some((127, 127, 255, 0))
    } else if str_eq(warna, "biru tua") {
        Some((0, 0, 128, 0))
    } else if str_eq(warna, "kuning") {
        Some((255, 255, 0, 0))
    } else if str_eq(warna, "kuning muda") {
        Some((255, 255, 102, 0))
    } else if str_eq(warna, "kuning tua") {
        Some((128, 128, 0, 0))
    } else {
        None
    }
}

} // verus!
