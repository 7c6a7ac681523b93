//! Binary point clouds: little-endian 32-bit floats in groups of four
//! (x, y, z, intensity). Each float is kept as its IEEE-754 bit pattern.
use vstd::prelude::*;

verus! {

/// Why a point cloud was refused.
#[derive(Debug, Clone, Copy, PartialEq, Eq, Structural)]
pub enum PcdError {
    /// The stream ends inside a group of four floats.
    Truncated,
}

/// A point of a cloud, its coordinates and intensity as IEEE-754 bit patterns.
#[derive(Debug, Clone, Copy, PartialEq, Eq, Structural)]
pub struct InfoPoint {
    pub x_bits: u32,
    pub y_bits: u32,
    pub z_bits: u32,
    pub intensity_bits: u32,
    pub device_id: Option<u64>,
    pub active: Option<u64>,
}

/// The little-endian integer of four bytes.
pub open spec fn le_u32(b: Seq<u8>, at: int) -> int {
    b[at] + 256 * b[at + 1] + 65536 * b[at + 2] + 16777216 * b[at + 3]
}

/// The `i`-th point of a stream.
pub open spec fn point_at(b: Seq<u8>, i: int) -> InfoPoint {
    InfoPoint {
        x_bits: le_u32(b, 16 * i) as u32,
        y_bits: le_u32(b, 16 * i + 4) as u32,
        z_bits: le_u32(b, 16 * i + 8) as u32,
        intensity_bits: le_u32(b, 16 * i + 12) as u32,
        device_id: None,
        active: None,
    }
}

/// Relies on byteorder's `LittleEndian::read_u32`: the first four bytes of
/// `buf` as a little-endian integer (it panics on fewer than four).
#[verifier::external_body]
fn read_u32_le(buf: &[u8]) -> (r: u32)
    requires
        buf@.len() >= 4,
    ensures
        r == le_u32(buf@, 0),
{
    <byteorder::LittleEndian as byteorder::ByteOrder>::read_u32(buf)
}

fn word_at(bytes: &[u8], at: usize) -> (r: u32)
    requires
        at + 4 <= bytes@.len(),
    ensures
        r == le_u32(bytes@, at as int),
{
    let len = bytes.len();
    assert(at + 4 <= len);
    let buf = vstd::slice::slice_subrange(bytes, at, at + 4);
    read_u32_le(buf)
}

/// Decodes a point cloud. It succeeds exactly when the length is a
/// multiple of sixteen, with one point per sixteen bytes, in order.
pub fn decode_points(bytes: &[u8]) -> (r: Result<Vec<InfoPoint>, PcdError>)
    ensures
        r is Ok <==> bytes@.len() % 16 == 0,
        r is Ok ==> r->Ok_0@.len() == bytes@.len() / 16,
        r is Ok ==> forall|i: int|
            0 <= i < r->Ok_0@.len() ==> #[trigger] r->Ok_0@[i] == point_at(bytes@, i),
{
    if bytes.len() % 16 != 0 {
        return Err(PcdError::Truncated);
    }
    let len = bytes.len();
    let n = len / 16;
    let mut points: Vec<InfoPoint> = Vec::new();
    let mut i: usize = 0;
    while i < n
        invariant
            n == bytes@.len() / 16,
            len == bytes@.len(),
            bytes@.len() % 16 == 0,
            i <= n,
            points@.len() == i,
            forall|j: int| 0 <= j < i ==> #[trigger] points@[j] == point_at(bytes@, j),
        decreases n - i,
    {
        assert(16 * i + 16 <= bytes@.len()) by (nonlinear_arith)
            requires
                i < n,
                n == bytes@.len() / 16,
        ;
        assert(16 * i + 16 <= len);
        let at = 16 * i;
        let p = InfoPoint {
            x_bits: word_at(bytes, at),
            y_bits: word_at(bytes, at + 4),
            z_bits: word_at(bytes, at + 8),
            intensity_bits: word_at(bytes, at + 12),
            device_id: None,
            active: None,
        };
        points.push(p);
        i = i + 1;
    }
    Ok(points)
}

} // verus!
