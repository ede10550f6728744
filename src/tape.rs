use vstd::prelude::*;

verus! {

/// Number of cells on the tape.
pub const TAPE_LEN: usize = 30000;

/// Position reached from `p` after moving `k` cells on the circular tape.
pub open spec fn wrap(p: int, k: int) -> int {
    ((p + k) % 30000 + 30000) % 30000
}

/// Value of a cell holding `v` after adding `d`, modulo 256.
pub open spec fn byte_add(v: int, d: int) -> int {
    (v + d) % 256
}

/// Moves the data pointer `p` by `k` cells, wrapping around both ends of the tape.
pub fn wrap_position(p: usize, k: i32) -> (r: usize)
    requires
        p < TAPE_LEN,
    ensures
        r == wrap(p as int, k as int),
        r < TAPE_LEN,
{
    if k >= 0 {
        let m: usize = (k as u32 % 30000) as usize;
        proof {
            let ki = k as int;
            assert((p + ki) % 30000 == (p + ki % 30000) % 30000) by (nonlinear_arith)
                requires ki >= 0, p >= 0;
        }
        (p + m) % 30000
    } else {
        let m: usize = (((-(k as i64)) as u64) % 30000) as usize;
        proof {
            let ki = k as int;
            assert((p + ki) % 30000 == (p + 30000 - (-ki) % 30000) % 30000) by (nonlinear_arith)
                requires ki < 0, p >= 0;
        }
        (p + 30000 - m) % 30000
    }
}

/// Adds the signed delta `d` to the cell value `v`, wrapping modulo 256.
pub fn add_wrapping(v: u8, d: i8) -> (r: u8)
    ensures
        r == byte_add(v as int, d as int),
{
    let s: i16 = v as i16 + d as i16;
    if s < 0 {
        (s + 256) as u8
    } else if s >= 256 {
        (s - 256) as u8
    } else {
        s as u8
    }
}

/// Adds the cell value `v` to the cell value `w`, wrapping modulo 256.
pub fn add_bytes(w: u8, v: u8) -> (r: u8)
    ensures
        r == byte_add(w as int, v as int),
{
    ((w as u16 + v as u16) % 256) as u8
}

} // verus!
