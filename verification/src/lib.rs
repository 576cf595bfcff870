use vstd::prelude::*;

pub mod buffer;
pub mod codec;
pub mod engine;
pub mod maybe;
pub mod signature;
pub mod value;
pub mod wire;

verus! {

use crate::signature::Signature;

/// Errors surfaced by the wire codec.
///
/// Structural errors (`UnsupportedType`, `IncorrectType`) mean the signature
/// names a type the codec cannot handle or does not match the decoder
/// invoked; data errors (`IncorrectValue`, `InvalidUtf8`) mean the bytes are
/// structurally plausible but violate a value-level constraint; size errors
/// (`InsufficientData`, `ExcessData`) mean the buffer is shorter or longer
/// than the signature demands.
#[derive(Debug, PartialEq)]
pub enum VariantError {
    ExcessData,
    IncorrectType,
    IncorrectValue,
    InvalidUtf8,
    InsufficientData,
    UnsupportedType(Signature),
}

/// The wire encoding in use.  The D-Bus marshalling rules are the same under
/// both variants; they differ only in the byte order of multi-byte values.
#[derive(Debug, Clone, Copy, PartialEq, Eq, Structural)]
pub enum EncodingFormat {
    DBusLittleEndian,
    DBusBigEndian,
}

impl Default for EncodingFormat {
    fn default() -> (r: Self)
        ensures
            r == EncodingFormat::DBusLittleEndian,
    {
        EncodingFormat::DBusLittleEndian
    }
}

/// Number of zero bytes needed after `n_bytes_before` bytes so that the next
/// value starts on an `alignment`-byte boundary.
pub open spec fn pad_amount(n_bytes_before: nat, alignment: nat) -> nat
    recommends
        1 <= alignment,
{
    (((alignment as int) - (n_bytes_before as int) % (alignment as int)) % (alignment as int)) as nat
}

/// Computes the padding needed to round `n_bytes_before` up to `alignment`.
///
/// The alignment invariant: the result `p` is the unique value with
/// `0 <= p < alignment` and `(n_bytes_before + p) % alignment == 0`.
pub fn padding_for_n_bytes(n_bytes_before: usize, alignment: usize) -> (p: usize)
    requires
        1 <= alignment <= 8,
    ensures
        p == pad_amount(n_bytes_before as nat, alignment as nat),
        p < alignment,
        (n_bytes_before + p) % (alignment as int) == 0,
{
    let p = (alignment - n_bytes_before % alignment) % alignment;
    proof {
        let n = n_bytes_before as int;
        let a = alignment as int;
        assert(p == (a - n % a) % a && (n + (a - n % a) % a) % a == 0 && (a - n % a) % a < a)
            by (nonlinear_arith)
            requires
                1 <= a <= 8,
                n >= 0,
                p == (a - n % a) % a,
        ;
    }
    p
}

} // verus!
