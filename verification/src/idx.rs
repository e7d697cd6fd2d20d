use vstd::prelude::*;

verus! {

/// Big-endian value of four bytes.
pub open spec fn be_value(b0: u8, b1: u8, b2: u8, b3: u8) -> int {
    b0 * 0x1000000 + b1 * 0x10000 + b2 * 0x100 + b3
}

/// The big-endian `u32` at `offset`.
pub open spec fn spec_be_u32(b: Seq<u8>, offset: int) -> int {
    be_value(b[offset], b[offset + 1], b[offset + 2], b[offset + 3])
}

/// Reads the big-endian `u32` at `offset`.
pub fn read_be_u32(bytes: &[u8], offset: usize) -> (r: u32)
    requires
        offset + 4 <= bytes@.len(),
    ensures
        r == spec_be_u32(bytes@, offset as int),
{
    let b0 = bytes[offset];
    let b1 = bytes[offset + 1];
    let b2 = bytes[offset + 2];
    let b3 = bytes[offset + 3];
    let r = ((b0 as u32) << 24u32) | ((b1 as u32) << 16u32) | ((b2 as u32) << 8u32) | (b3 as u32);
    assert(r == (b0 as u32) * 0x1000000u32 + (b1 as u32) * 0x10000u32 + (b2 as u32) * 0x100u32 + (b3 as u32)) by (bit_vector)
        requires
            r == ((b0 as u32) << 24u32) | ((b1 as u32) << 16u32) | ((b2 as u32) << 8u32) | (b3 as u32),
    ;
    r
}

/// Magic word of an IDX file of unsigned-byte images.
pub const IDX_IMAGES_MAGIC: u32 = 0x0803u32;

/// Magic word of an IDX file of unsigned-byte labels.
pub const IDX_LABELS_MAGIC: u32 = 0x0801u32;

/// Why an IDX file was rejected.
#[derive(Clone, Copy, Debug, PartialEq, Eq, Structural)]
pub enum IdxError {
    /// Shorter than its header.
    TooShort,
    /// The magic word found instead of the expected one.
    BadMagic(u32),
    /// Fewer data bytes than the header announces.
    Truncated,
}

/// Header and pixels of an IDX image file: `n` images of `rows` x `cols` bytes,
/// one after the other.
pub struct IdxImages {
    pub n: usize,
    pub rows: usize,
    pub cols: usize,
    pub pixels: Vec<u8>,
}

/// Outcome of reading an IDX image file.
pub open spec fn spec_idx_images(b: Seq<u8>) -> Result<(usize, usize, usize, Seq<u8>), IdxError> {
    if b.len() < 16 {
        Err(IdxError::TooShort)
    } else if spec_be_u32(b, 0) != IDX_IMAGES_MAGIC {
        Err(IdxError::BadMagic(spec_be_u32(b, 0) as u32))
    } else {
        let n = spec_be_u32(b, 4);
        let rows = spec_be_u32(b, 8);
        let cols = spec_be_u32(b, 12);
        let need = 16 + n * (rows * cols);
        if b.len() < need {
            Err(IdxError::Truncated)
        } else {
            Ok((n as usize, rows as usize, cols as usize, b.subrange(16, need)))
        }
    }
}

/// The header of an IDX image file, `(count, rows, cols)`, checked against the
/// bytes: what `parse_idx_images` checks, without copying the pixels.
pub fn idx_images_header(bytes: &[u8]) -> (r: Result<(usize, usize, usize), IdxError>)
    ensures
        match r {
            Ok((n, rows, cols)) => spec_idx_images(bytes@) matches Ok((n2, rows2, cols2, _)) && n == n2 && rows == rows2
                && cols == cols2,
            Err(e) => spec_idx_images(bytes@) == Err::<(usize, usize, usize, Seq<u8>), IdxError>(e),
        },
        r matches Ok((n, rows, cols)) ==> 16 + n * (rows * cols) <= bytes@.len(),
{
    let len = bytes.len();
    if len < 16 {
        return Err(IdxError::TooShort);
    }
    let magic = read_be_u32(bytes, 0);
    let n = read_be_u32(bytes, 4) as usize;
    let rows = read_be_u32(bytes, 8) as usize;
    let cols = read_be_u32(bytes, 12) as usize;
    if magic != IDX_IMAGES_MAGIC {
        return Err(IdxError::BadMagic(magic));
    }
    let pixels = match rows.checked_mul(cols) {
        Some(p) => p,
        None => {
            if n == 0 {
                proof {
                    assert(n * (rows * cols) == 0) by (nonlinear_arith)
                        requires
                            n == 0,
                    ;
                }
                return Ok((n, rows, cols));
            }
            proof {
                assert(n * (rows * cols) >= rows * cols) by (nonlinear_arith)
                    requires
                        n >= 1,
                        rows * cols >= 0,
                ;
            }
            return Err(IdxError::Truncated);
        },
    };
    let body = match n.checked_mul(pixels) {
        Some(x) => x,
        None => return Err(IdxError::Truncated),
    };
    if len - 16 < body {
        return Err(IdxError::Truncated);
    }
    Ok((n, rows, cols))
}

/// Parses an IDX image file: a big-endian header (magic `0x0803`, count, rows,
/// cols) and then `count * rows * cols` pixel bytes.
pub fn parse_idx_images(bytes: &[u8]) -> (r: Result<IdxImages, IdxError>)
    ensures
        match r {
            Ok(im) => spec_idx_images(bytes@) == Ok::<(usize, usize, usize, Seq<u8>), IdxError>((im.n, im.rows, im.cols, im.pixels@)),
            Err(e) => spec_idx_images(bytes@) == Err::<(usize, usize, usize, Seq<u8>), IdxError>(e),
        },
{
    match idx_images_header(bytes) {
        Err(e) => Err(e),
        Ok((n, rows, cols)) => {
            proof {
                vstd::arithmetic::mul::lemma_mul_nonnegative(rows as int, cols as int);
                vstd::arithmetic::mul::lemma_mul_nonnegative(n as int, rows * cols);
            }
            let len = bytes.len();
            let body = if n == 0 {
                proof {
                    assert(n * (rows * cols) == 0) by (nonlinear_arith)
                        requires
                            n == 0,
                    ;
                }
                0
            } else {
                proof {
                    assert(n * (rows * cols) >= rows * cols) by (nonlinear_arith)
                        requires
                            n >= 1,
                            rows * cols >= 0,
                    ;
                }
                let p = rows * cols;
                n * p
            };
            let px = vstd::slice::slice_subrange(bytes, 16, 16 + body);
            Ok(IdxImages { n, rows, cols, pixels: vstd::slice::slice_to_vec(px) })
        },
    }
}

/// Outcome of reading an IDX label file.
pub open spec fn spec_idx_labels(b: Seq<u8>) -> Result<Seq<u8>, IdxError> {
    if b.len() < 8 {
        Err(IdxError::TooShort)
    } else if spec_be_u32(b, 0) != IDX_LABELS_MAGIC {
        Err(IdxError::BadMagic(spec_be_u32(b, 0) as u32))
    } else {
        let n = spec_be_u32(b, 4);
        if b.len() < 8 + n {
            Err(IdxError::Truncated)
        } else {
            Ok(b.subrange(8, 8 + n))
        }
    }
}

/// Parses an IDX label file (magic `0x00000801`, then the label count as a
/// big-endian word, then one byte per label); returns the labels.
pub fn parse_idx_labels(bytes: &[u8]) -> (r: Result<Vec<u8>, IdxError>)
    ensures
        match r {
            Ok(l) => spec_idx_labels(bytes@) == Ok::<Seq<u8>, IdxError>(l@),
            Err(e) => spec_idx_labels(bytes@) == Err::<Seq<u8>, IdxError>(e),
        },
{
    let len = bytes.len();
    if len < 8 {
        return Err(IdxError::TooShort);
    }
    let magic = read_be_u32(bytes, 0);
    let n = read_be_u32(bytes, 4) as usize;
    if magic != IDX_LABELS_MAGIC {
        return Err(IdxError::BadMagic(magic));
    }
    if len - 8 < n {
        return Err(IdxError::Truncated);
    }
    let l = vstd::slice::slice_subrange(bytes, 8, 8 + n);
    Ok(vstd::slice::slice_to_vec(l))
}

/// Bit pattern of the `f32` value `1.0`.
pub const ONE_BITS: u32 = 0x3f80_0000u32;

/// One-hot rows for class labels: row `i` has `classes` entries, all `0.0` but the
/// one at the label, which is `1.0` (as bit patterns). A label beyond the row
/// lands in a later row of the flat layout.
pub fn one_hot(labels: &[u8], classes: usize) -> (out: Vec<u32>)
    requires
        labels@.len() * classes <= usize::MAX,
        forall|i: int| 0 <= i < labels@.len() ==> #[trigger] labels@[i] + i * classes < labels@.len() * classes,
    ensures
        out@.len() == labels@.len() * classes,
        forall|t: int| 0 <= t < out@.len() ==> #[trigger] out@[t] == if exists|i: int|
            0 <= i < labels@.len() && i * classes + labels@[i] == t {
            ONE_BITS
        } else {
            crate::tensor::ZERO_BITS
        },
{
    let n = labels.len();
    let mut out = vec![crate::tensor::ZERO_BITS; n * classes];
    let mut i: usize = 0;
    while i < n
        invariant
            i <= n,
            n == labels@.len(),
            n * classes <= usize::MAX,
            out@.len() == n * classes,
            forall|i: int| 0 <= i < labels@.len() ==> #[trigger] labels@[i] + i * classes < labels@.len() * classes,
            forall|t: int| 0 <= t < out@.len() ==> #[trigger] out@[t] == if exists|k: int|
                0 <= k < i && k * classes + labels@[k] == t {
                ONE_BITS
            } else {
                crate::tensor::ZERO_BITS
            },
        decreases n - i,
    {
        assert(labels@[i as int] + i * classes < n * classes);
        assert(i * classes <= n * classes) by (nonlinear_arith)
            requires
                i < n,
        ;
        let at = i * classes + labels[i] as usize;
        let ghost before = out@;
        out.set(at, ONE_BITS);
        proof {
            assert forall|t: int| 0 <= t < out@.len() implies #[trigger] out@[t] == if exists|k: int|
                0 <= k < i + 1 && k * classes + labels@[k] == t {
                ONE_BITS
            } else {
                crate::tensor::ZERO_BITS
            } by {
                if t == at {
                    assert(i * classes + labels@[i as int] == t);
                } else {
                    assert(out@[t] == before[t]);
                    if exists|k: int| 0 <= k < i + 1 && k * classes + labels@[k] == t {
                        let k = choose|k: int| 0 <= k < i + 1 && k * classes + labels@[k] == t;
                        assert(k != i);
                    }
                }
            }
        }
        i = i + 1;
    }
    out
}

/// The one-hot label table for `n` images: `None` when the label count is not
/// `n`, else `one_hot(labels, classes)`.
pub fn labels_for_images(n: usize, labels: &[u8], classes: usize) -> (r: Option<Vec<u32>>)
    requires
        labels@.len() == n ==> labels@.len() * classes <= usize::MAX,
        labels@.len() == n ==> forall|i: int| 0 <= i < labels@.len() ==> #[trigger] labels@[i] + i * classes < labels@.len()
            * classes,
    ensures
        labels@.len() != n ==> r is None,
        labels@.len() == n ==> (r matches Some(t) && t@.len() == n * classes && forall|k: int| 0 <= k < t@.len() ==> #[trigger] t@[k]
            == if exists|i: int| 0 <= i < labels@.len() && i * classes + labels@[i] == k {
            ONE_BITS
        } else {
            crate::tensor::ZERO_BITS
        }),
{
    if labels.len() != n {
        return None;
    }
    Some(one_hot(labels, classes))
}

} // verus!
