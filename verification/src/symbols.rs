//! Fixed DEFLATE symbol tables: mapping match lengths in [3, 258] to the
//! literal/length alphabet (257..=285) and back-reference distances in
//! [1, 32768] to the distance alphabet (0..=29), with their extra-bit counts.
//! The tables follow RFC 1951.

use vstd::prelude::*;

verus! {

/// Literal/length alphabet symbol for a match length in [3, 258].
pub open spec fn spec_length_symbol(l: int) -> int {
    if l < 11 { 254 + l }
    else if l < 13 { 265 } else if l < 15 { 266 }
    else if l < 17 { 267 } else if l < 19 { 268 }
    else if l < 23 { 269 } else if l < 27 { 270 }
    else if l < 31 { 271 } else if l < 35 { 272 }
    else if l < 43 { 273 } else if l < 51 { 274 }
    else if l < 59 { 275 } else if l < 67 { 276 }
    else if l < 83 { 277 } else if l < 99 { 278 }
    else if l < 115 { 279 } else if l < 131 { 280 }
    else if l < 163 { 281 } else if l < 195 { 282 }
    else if l < 227 { 283 } else if l < 258 { 284 }
    else { 285 }
}

/// Extra bits carried by a match of length `l`.
pub open spec fn spec_length_extra_bits(l: int) -> int {
    if l < 11 { 0 }
    else if l < 19 { 1 }
    else if l < 35 { 2 }
    else if l < 67 { 3 }
    else if l < 131 { 4 }
    else if l < 258 { 5 }
    else { 0 }
}

/// Extra bits carried by length symbol `s` in [257, 285].
pub open spec fn spec_length_symbol_extra_bits(s: int) -> int {
    if s < 265 { 0 }
    else if s < 269 { 1 }
    else if s < 273 { 2 }
    else if s < 277 { 3 }
    else if s < 281 { 4 }
    else if s < 285 { 5 }
    else { 0 }
}

/// Distance alphabet symbol for a distance in [1, 32768].
pub open spec fn spec_dist_symbol(d: int) -> int {
    if d < 5 { d - 1 }
    else if d < 7 { 4 } else if d < 9 { 5 }
    else if d < 13 { 6 } else if d < 17 { 7 }
    else if d < 25 { 8 } else if d < 33 { 9 }
    else if d < 49 { 10 } else if d < 65 { 11 }
    else if d < 97 { 12 } else if d < 129 { 13 }
    else if d < 193 { 14 } else if d < 257 { 15 }
    else if d < 385 { 16 } else if d < 513 { 17 }
    else if d < 769 { 18 } else if d < 1025 { 19 }
    else if d < 1537 { 20 } else if d < 2049 { 21 }
    else if d < 3073 { 22 } else if d < 4097 { 23 }
    else if d < 6145 { 24 } else if d < 8193 { 25 }
    else if d < 12289 { 26 } else if d < 16385 { 27 }
    else if d < 24577 { 28 }
    else { 29 }
}

/// Extra bits carried by a distance `d`.
pub open spec fn spec_dist_extra_bits(d: int) -> int {
    if d < 5 { 0 }
    else if d < 9 { 1 }
    else if d < 17 { 2 }
    else if d < 33 { 3 }
    else if d < 65 { 4 }
    else if d < 129 { 5 }
    else if d < 257 { 6 }
    else if d < 513 { 7 }
    else if d < 1025 { 8 }
    else if d < 2049 { 9 }
    else if d < 4097 { 10 }
    else if d < 8193 { 11 }
    else if d < 16385 { 12 }
    else { 13 }
}

/// Extra bits carried by distance symbol `s` in [0, 29].
pub open spec fn spec_dist_symbol_extra_bits(s: int) -> int {
    if s < 4 { 0 } else { s / 2 - 1 }
}

pub fn length_symbol(l: u16) -> (s: u16)
    requires
        3 <= l <= 258,
    ensures
        s == spec_length_symbol(l as int),
        257 <= s <= 285,
{
    if l < 11 { 254 + l }
    else if l < 13 { 265 } else if l < 15 { 266 }
    else if l < 17 { 267 } else if l < 19 { 268 }
    else if l < 23 { 269 } else if l < 27 { 270 }
    else if l < 31 { 271 } else if l < 35 { 272 }
    else if l < 43 { 273 } else if l < 51 { 274 }
    else if l < 59 { 275 } else if l < 67 { 276 }
    else if l < 83 { 277 } else if l < 99 { 278 }
    else if l < 115 { 279 } else if l < 131 { 280 }
    else if l < 163 { 281 } else if l < 195 { 282 }
    else if l < 227 { 283 } else if l < 258 { 284 }
    else { 285 }
}

pub fn length_extra_bits(l: u16) -> (n: u16)
    requires
        3 <= l <= 258,
    ensures
        n == spec_length_extra_bits(l as int),
        n <= 5,
{
    if l < 11 { 0 }
    else if l < 19 { 1 }
    else if l < 35 { 2 }
    else if l < 67 { 3 }
    else if l < 131 { 4 }
    else if l < 258 { 5 }
    else { 0 }
}

pub fn length_symbol_extra_bits(s: u16) -> (n: u16)
    requires
        257 <= s <= 285,
    ensures
        n == spec_length_symbol_extra_bits(s as int),
        n <= 5,
{
    if s < 265 { 0 }
    else if s < 269 { 1 }
    else if s < 273 { 2 }
    else if s < 277 { 3 }
    else if s < 281 { 4 }
    else if s < 285 { 5 }
    else { 0 }
}

pub fn dist_symbol(d: u16) -> (s: u16)
    requires
        1 <= d <= 32768,
    ensures
        s == spec_dist_symbol(d as int),
        s <= 29,
{
    if d < 5 { d - 1 }
    else if d < 7 { 4 } else if d < 9 { 5 }
    else if d < 13 { 6 } else if d < 17 { 7 }
    else if d < 25 { 8 } else if d < 33 { 9 }
    else if d < 49 { 10 } else if d < 65 { 11 }
    else if d < 97 { 12 } else if d < 129 { 13 }
    else if d < 193 { 14 } else if d < 257 { 15 }
    else if d < 385 { 16 } else if d < 513 { 17 }
    else if d < 769 { 18 } else if d < 1025 { 19 }
    else if d < 1537 { 20 } else if d < 2049 { 21 }
    else if d < 3073 { 22 } else if d < 4097 { 23 }
    else if d < 6145 { 24 } else if d < 8193 { 25 }
    else if d < 12289 { 26 } else if d < 16385 { 27 }
    else if d < 24577 { 28 }
    else { 29 }
}

pub fn dist_extra_bits(d: u16) -> (n: u16)
    requires
        1 <= d <= 32768,
    ensures
        n == spec_dist_extra_bits(d as int),
        n <= 13,
{
    if d < 5 { 0 }
    else if d < 9 { 1 }
    else if d < 17 { 2 }
    else if d < 33 { 3 }
    else if d < 65 { 4 }
    else if d < 129 { 5 }
    else if d < 257 { 6 }
    else if d < 513 { 7 }
    else if d < 1025 { 8 }
    else if d < 2049 { 9 }
    else if d < 4097 { 10 }
    else if d < 8193 { 11 }
    else if d < 16385 { 12 }
    else { 13 }
}

pub fn dist_symbol_extra_bits(s: u16) -> (n: u16)
    requires
        s <= 29,
    ensures
        n == spec_dist_symbol_extra_bits(s as int),
        n <= 13,
{
    if s < 4 { 0 } else { s / 2 - 1 }
}

} // verus!
