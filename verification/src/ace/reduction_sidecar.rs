//! The detached model that may add a ply to late-move reductions: a file of
//! fixed layout that is refused unless everything about it is right.
//!
//! Layout, in bytes: 8 of magic; three 4-byte numbers (format, schema, inputs);
//! 32 of the hash of the network it belongs to; two 4-byte numbers (calibration,
//! data); 37 weights, bias, scale, shift and threshold of 8 bytes each; 32 of
//! the hash of everything before. Numbers are little-endian; the last are
//! doubles, kept here as their bits.

use sha2::{Digest, Sha256};
use vstd::prelude::*;

use crate::util::text::{decimal, push_decimal, push_text};

verus! {

/// Inputs of the model.
pub const INPUTS: usize = 37;

/// Bytes of the file.
pub const BYTES: usize = 420;

/// Bytes before the last hash.
pub const PAYLOAD: usize = 388;

/// What `Sha256::digest` makes of the bytes.
pub uninterp spec fn sha256(data: Seq<u8>) -> Seq<u8>;

/// `Sha256::digest` of the `sha2` crate: the hash of the bytes, which depends
/// on them alone.
#[verifier::external_body]
fn sha256_digest(data: &[u8]) -> (r: [u8; 32])
    ensures
        r@ == sha256(data@),
{
    Sha256::digest(data).into()
}

/// A model: the bits of its doubles.
#[derive(Debug, Clone, Copy)]
pub struct ReductionSidecar {
    pub weights: [u64; 37],
    pub bias: u64,
    pub calibration_scale: u64,
    pub calibration_shift: u64,
    pub threshold: u64,
}

/// Why a file is refused.
#[derive(Debug, Clone, Copy, PartialEq, Eq, Structural)]
pub enum SidecarError {
    Size(usize),
    Magic,
    Schema,
    Trunk,
    Version,
    Payload,
    Numbers,
}

/// The magic bytes.
pub open spec fn magic() -> Seq<u8> {
    seq![84u8, 73, 83, 82, 68, 88, 49, 0]
}

/// The number in four bytes.
pub open spec fn four(b: Seq<u8>, at: int) -> int {
    b[at] + b[at + 1] * 0x100 + b[at + 2] * 0x1_0000 + b[at + 3] * 0x100_0000
}

/// The number in eight bytes.
pub open spec fn eight(b: Seq<u8>, at: int) -> int {
    four(b, at) + four(b, at + 4) * 0x1_0000_0000
}

fn read_four(b: &[u8], at: usize) -> (r: u32)
    requires
        at + 4 <= b@.len(),
    ensures
        r == four(b@, at as int),
{
    b[at] as u32 + b[at + 1] as u32 * 0x100 + b[at + 2] as u32 * 0x1_0000 + b[at + 3] as u32
        * 0x100_0000
}

fn read_eight(b: &[u8], at: usize) -> (r: u64)
    requires
        at + 8 <= b@.len(),
    ensures
        r == eight(b@, at as int),
{
    let n: usize = b.len();
    assert(at + 8 <= n);
    read_four(b, at) as u64 + read_four(b, at + 4) as u64 * 0x1_0000_0000
}

/// The double of these bits is a number, and not infinite.
pub open spec fn finite_bits(x: int) -> bool {
    x / 0x10_0000_0000_0000 % 0x800 != 0x7FF
}

/// The double of these bits lies between 0 and 1.
pub open spec fn unit_bits(x: int) -> bool {
    x <= 0x3FF0_0000_0000_0000 || x == 0x8000_0000_0000_0000
}

fn is_finite_bits(x: u64) -> (r: bool)
    ensures
        r == finite_bits(x as int),
{
    x / 0x10_0000_0000_0000 % 0x800 != 0x7FF
}

/// The bytes `a..a + n` of one are the bytes `b..` of the other.
pub open spec fn matches_at(x: Seq<u8>, a: int, y: Seq<u8>, n: int) -> bool {
    forall|i: int| 0 <= i < n ==> #[trigger] x[a + i] == y[i]
}

fn same_bytes(x: &[u8], a: usize, y: &[u8], n: usize) -> (r: bool)
    requires
        a + n <= x@.len(),
        n <= y@.len(),
    ensures
        r == matches_at(x@, a as int, y@, n as int),
{
    let len: usize = x.len();
    let mut i: usize = 0;
    while i < n
        invariant
            i <= n,
            len == x@.len(),
            a + n <= x@.len(),
            n <= y@.len(),
            forall|j: int| 0 <= j < i ==> #[trigger] x@[a + j] == y@[j],
        decreases n - i,
    {
        if x[a + i] != y[i] {
            assert(x@[a + i as int] != y@[i as int]);
            return false;
        }
        i += 1;
    }
    true
}

/// The `k`-th double of the file, from the first weight on.
pub open spec fn double_at(b: Seq<u8>, k: int) -> int {
    eight(b, 60 + 8 * k)
}

/// All doubles are finite and the threshold, the last, lies between 0 and 1.
pub open spec fn numbers_ok(b: Seq<u8>) -> bool {
    &&& forall|k: int| 0 <= k < 41 ==> finite_bits(#[trigger] double_at(b, k))
    &&& unit_bits(double_at(b, 40))
}

/// What is wrong with a file, if anything: the first of its faults, in the
/// order of the layout, the numbers last.
pub open spec fn fault_of(b: Seq<u8>, trunk: Seq<u8>, digest: Seq<u8>) -> Option<SidecarError> {
    if b.len() != BYTES {
        Some(SidecarError::Size(b.len() as usize))
    } else if !matches_at(b, 0, magic(), 8) {
        Some(SidecarError::Magic)
    } else if four(b, 8) != 1 || four(b, 12) != 1 || four(b, 16) != INPUTS {
        Some(SidecarError::Schema)
    } else if !matches_at(b, 20, trunk, 32) {
        Some(SidecarError::Trunk)
    } else if four(b, 52) != 1 || four(b, 56) != 1 {
        Some(SidecarError::Version)
    } else if !matches_at(b, PAYLOAD as int, digest, 32) {
        Some(SidecarError::Payload)
    } else if !numbers_ok(b) {
        Some(SidecarError::Numbers)
    } else {
        None
    }
}

/// The model holds the doubles of the file.
pub open spec fn holds(s: ReductionSidecar, b: Seq<u8>) -> bool {
    &&& forall|k: int| 0 <= k < 37 ==> #[trigger] s.weights[k] == double_at(b, k)
    &&& s.bias == double_at(b, 37)
    &&& s.calibration_scale == double_at(b, 38)
    &&& s.calibration_shift == double_at(b, 39)
    &&& s.threshold == double_at(b, 40)
}

/// Reads a file, given the hash of its payload.
pub fn read_sidecar(bytes: &[u8], trunk: &[u8; 32], digest: &[u8; 32]) -> (r: Result<
    ReductionSidecar,
    SidecarError,
>)
    ensures
        match r {
            Ok(s) => fault_of(bytes@, trunk@, digest@) is None && holds(s, bytes@),
            Err(e) => fault_of(bytes@, trunk@, digest@) == Some(e),
        },
{
    if bytes.len() != BYTES {
        return Err(SidecarError::Size(bytes.len()));
    }
    let m: [u8; 8] = [84u8, 73, 83, 82, 68, 88, 49, 0];
    assert(m@ =~= magic());
    if !same_bytes(bytes, 0, &m, 8) {
        return Err(SidecarError::Magic);
    }
    if read_four(bytes, 8) != 1 || read_four(bytes, 12) != 1 || read_four(bytes, 16)
        != INPUTS as u32 {
        return Err(SidecarError::Schema);
    }
    if !same_bytes(bytes, 20, trunk, 32) {
        return Err(SidecarError::Trunk);
    }
    if read_four(bytes, 52) != 1 || read_four(bytes, 56) != 1 {
        return Err(SidecarError::Version);
    }
    if !same_bytes(bytes, PAYLOAD, digest, 32) {
        return Err(SidecarError::Payload);
    }
    let mut all: [u64; 41] = [0u64; 41];
    let mut k: usize = 0;
    while k < 41
        invariant
            k <= 41,
            bytes@.len() == BYTES,
            forall|j: int| 0 <= j < k ==> #[trigger] all[j] == double_at(bytes@, j),
            forall|j: int| 0 <= j < k ==> finite_bits(#[trigger] double_at(bytes@, j)),
            fault_of(bytes@, trunk@, digest@) == (if numbers_ok(bytes@) {
                None
            } else {
                Some(SidecarError::Numbers)
            }),
        decreases 41 - k,
    {
        let x: u64 = read_eight(bytes, 60 + 8 * k);
        assert(x == double_at(bytes@, k as int));
        if !is_finite_bits(x) {
            return Err(SidecarError::Numbers);
        }
        all[k] = x;
        k += 1;
    }
    let threshold: u64 = all[40];
    assert(threshold == double_at(bytes@, 40));
    if !(threshold <= 0x3FF0_0000_0000_0000 || threshold == 0x8000_0000_0000_0000) {
        return Err(SidecarError::Numbers);
    }
    let mut weights: [u64; 37] = [0u64; 37];
    let mut i: usize = 0;
    while i < 37
        invariant
            i <= 37,
            forall|j: int| 0 <= j < 41 ==> #[trigger] all[j] == double_at(bytes@, j),
            forall|j: int| 0 <= j < i ==> #[trigger] weights[j] == double_at(bytes@, j),
        decreases 37 - i,
    {
        weights[i] = all[i];
        i += 1;
    }
    Ok(
        ReductionSidecar {
            weights,
            bias: all[37],
            calibration_scale: all[38],
            calibration_shift: all[39],
            threshold,
        },
    )
}

impl ReductionSidecar {
    /// Reads a file that belongs to the network with the given hash.
    pub fn from_bytes(bytes: &[u8], trunk: &[u8; 32]) -> (r: Result<Self, SidecarError>)
        ensures
            ({
                let digest = sha256(bytes@.subrange(0, PAYLOAD as int));
                match r {
                    Ok(s) => fault_of(bytes@, trunk@, digest) is None && holds(s, bytes@),
                    Err(e) => fault_of(bytes@, trunk@, digest) == Some(e),
                }
            }),
    {
        if bytes.len() != BYTES {
            return Err(SidecarError::Size(bytes.len()));
        }
        let payload: &[u8] = vstd::slice::slice_subrange(bytes, 0, PAYLOAD);
        let digest: [u8; 32] = sha256_digest(payload);
        read_sidecar(bytes, trunk, &digest)
    }
}

impl SidecarError {
    /// The message of a refusal.
    pub open spec fn text(self) -> Seq<char> {
        match self {
            SidecarError::Size(n) => "sidecar size mismatch: "@ + decimal(n as nat) + " != "@
                + decimal(BYTES as nat),
            SidecarError::Magic => "sidecar magic mismatch"@,
            SidecarError::Schema => "sidecar schema mismatch"@,
            SidecarError::Trunk => "sidecar trunk hash mismatch"@,
            SidecarError::Version => "sidecar calibration/data version mismatch"@,
            SidecarError::Payload => "sidecar payload hash mismatch"@,
            SidecarError::Numbers => "sidecar contains invalid numeric values"@,
        }
    }

    /// The message of a refusal.
    pub fn message(self) -> (r: String)
        ensures
            r@ == self.text(),
    {
        let mut s: String = String::new();
        match self {
            SidecarError::Size(n) => {
                push_text(&mut s, "sidecar size mismatch: ");
                push_decimal(&mut s, n as u64);
                push_text(&mut s, " != ");
                push_decimal(&mut s, BYTES as u64);
            },
            SidecarError::Magic => push_text(&mut s, "sidecar magic mismatch"),
            SidecarError::Schema => push_text(&mut s, "sidecar schema mismatch"),
            SidecarError::Trunk => push_text(&mut s, "sidecar trunk hash mismatch"),
            SidecarError::Version => push_text(&mut s, "sidecar calibration/data version mismatch"),
            SidecarError::Payload => push_text(&mut s, "sidecar payload hash mismatch"),
            SidecarError::Numbers => push_text(&mut s, "sidecar contains invalid numeric values"),
        }
        assert(s@ =~= self.text());
        s
    }
}

/// A file that is taken is refused with any other hash of its network or of its
/// payload.
pub proof fn lemma_fails_closed(b: Seq<u8>, trunk: Seq<u8>, digest: Seq<u8>, other: Seq<u8>)
    requires
        fault_of(b, trunk, digest) is None,
        other.len() == 32,
        trunk.len() == 32,
        digest.len() == 32,
        other != trunk || other != digest,
    ensures
        other != trunk ==> fault_of(b, other, digest) == Some(SidecarError::Trunk),
        other != digest ==> fault_of(b, trunk, other) == Some(SidecarError::Payload),
{
    if other != trunk {
        if matches_at(b, 20, other, 32) {
            assert forall|i: int| 0 <= i < 32 implies other[i] == trunk[i] by {
                assert(b[20 + i] == other[i]);
                assert(b[20 + i] == trunk[i]);
            }
            assert(other =~= trunk);
        }
    }
    if other != digest {
        if matches_at(b, PAYLOAD as int, other, 32) {
            assert forall|i: int| 0 <= i < 32 implies other[i] == digest[i] by {
                assert(b[PAYLOAD as int + i] == other[i]);
                assert(b[PAYLOAD as int + i] == digest[i]);
            }
            assert(other =~= digest);
        }
    }
}

} // verus!
