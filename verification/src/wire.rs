use vstd::prelude::*;

verus! {

use vstd::bytes::{
    spec_u16_to_le_bytes,
    spec_u16_from_le_bytes,
    spec_u32_to_le_bytes,
    spec_u32_from_le_bytes,
    spec_u64_to_le_bytes,
    spec_u64_from_le_bytes,
    lemma_auto_spec_u16_to_from_le_bytes,
    lemma_auto_spec_u32_to_from_le_bytes,
    lemma_auto_spec_u64_to_from_le_bytes,
};
use vstd::utf8::encode_utf8;
use crate::EncodingFormat;
use crate::pad_amount;
use crate::signature::align_of_code;
use crate::value::{Value, sig_of, sig_of_list, value_eq, value_list_eq, wf, wf_elems, wf_list, lemma_wf_list_index};

pub open spec fn is_big(fmt: EncodingFormat) -> bool {
    fmt is DBusBigEndian
}

pub open spec fn zeros(n: nat) -> Seq<u8> {
    Seq::new(n, |i| 0u8)
}

/// The `width` bytes of `bits`, in the byte order of `fmt`.
pub open spec fn fixed_bytes(bits: u64, width: nat, fmt: EncodingFormat) -> Seq<u8> {
    let le = if width == 1 {
        seq![bits as u8]
    } else if width == 2 {
        spec_u16_to_le_bytes(bits as u16)
    } else if width == 4 {
        spec_u32_to_le_bytes(bits as u32)
    } else {
        spec_u64_to_le_bytes(bits)
    };
    if is_big(fmt) {
        le.reverse()
    } else {
        le
    }
}

/// The value of the `b.len()`-byte field `b`, in the byte order of `fmt`.
pub open spec fn fixed_val(b: Seq<u8>, fmt: EncodingFormat) -> u64 {
    let le = if is_big(fmt) {
        b.reverse()
    } else {
        b
    };
    if b.len() == 1 {
        le[0] as u64
    } else if b.len() == 2 {
        spec_u16_from_le_bytes(le) as u64
    } else if b.len() == 4 {
        spec_u32_from_le_bytes(le) as u64
    } else {
        spec_u64_from_le_bytes(le)
    }
}

pub proof fn lemma_fixed_bytes_len(bits: u64, width: nat, fmt: EncodingFormat)
    requires
        width == 1 || width == 2 || width == 4 || width == 8,
    ensures
        fixed_bytes(bits, width, fmt).len() == width,
{
    lemma_auto_spec_u16_to_from_le_bytes();
    lemma_auto_spec_u32_to_from_le_bytes();
    lemma_auto_spec_u64_to_from_le_bytes();
}

/// Reading back the bytes of `bits` recovers `bits`.
pub proof fn lemma_fixed_roundtrip(bits: u64, width: nat, fmt: EncodingFormat)
    requires
        width == 1 ==> bits < 0x100,
        width == 2 ==> bits < 0x10000,
        width == 4 ==> bits < 0x100000000,
        width == 1 || width == 2 || width == 4 || width == 8,
    ensures
        fixed_bytes(bits, width, fmt).len() == width,
        fixed_val(fixed_bytes(bits, width, fmt), fmt) == bits,
{
    lemma_auto_spec_u16_to_from_le_bytes();
    lemma_auto_spec_u32_to_from_le_bytes();
    lemma_auto_spec_u64_to_from_le_bytes();
    let le = if width == 1 {
        seq![bits as u8]
    } else if width == 2 {
        spec_u16_to_le_bytes(bits as u16)
    } else if width == 4 {
        spec_u32_to_le_bytes(bits as u32)
    } else {
        spec_u64_to_le_bytes(bits)
    };
    assert(le.len() == width);
    if is_big(fmt) {
        assert(le.reverse().reverse() =~= le);
    }
}

/// A field's bytes are determined by its value.
pub proof fn lemma_fixed_bytes_of_val(b: Seq<u8>, fmt: EncodingFormat)
    requires
        b.len() == 1 || b.len() == 2 || b.len() == 4 || b.len() == 8,
    ensures
        fixed_bytes(fixed_val(b, fmt), b.len(), fmt) == b,
        b.len() == 1 ==> fixed_val(b, fmt) < 0x100,
        b.len() == 2 ==> fixed_val(b, fmt) < 0x10000,
        b.len() == 4 ==> fixed_val(b, fmt) < 0x100000000,
{
    lemma_auto_spec_u16_to_from_le_bytes();
    lemma_auto_spec_u32_to_from_le_bytes();
    lemma_auto_spec_u64_to_from_le_bytes();
    let le = if is_big(fmt) {
        b.reverse()
    } else {
        b
    };
    assert(le.len() == b.len());
    if b.len() == 1 {
        assert(seq![le[0]] =~= le);
    }
    if is_big(fmt) {
        assert(le.reverse() =~= b);
    }
}

/// The raw bits of a fixed-size scalar value, widened to 64 bits; signed
/// values contribute their two's-complement bit pattern.
pub open spec fn scalar_bits(v: Value) -> u64 {
    match v {
        Value::U8(x) => x as u64,
        Value::Bool(x) => if x {
            1
        } else {
            0
        },
        Value::I16(x) => (x as u16) as u64,
        Value::U16(x) => x as u64,
        Value::I32(x) => (x as u32) as u64,
        Value::U32(x) => x as u64,
        Value::I64(x) => x as u64,
        Value::U64(x) => x,
        Value::F64(n) => n,
        _ => 0,
    }
}

/// The wire width (equal to the alignment) of a fixed-size scalar value.
pub open spec fn scalar_width(v: Value) -> nat {
    match v {
        Value::U8(_) => 1,
        Value::Bool(_) => 4,
        Value::I16(_) => 2,
        Value::U16(_) => 2,
        Value::I32(_) => 4,
        Value::U32(_) => 4,
        Value::I64(_) => 8,
        Value::U64(_) => 8,
        Value::F64(_) => 8,
        _ => 0,
    }
}


/// Canonical bytes of a fixed-size scalar at offset `off`: padding to the
/// width, then the value's bytes.
pub open spec fn enc_fixed(bits: u64, width: nat, off: nat, fmt: EncodingFormat) -> Seq<u8> {
    zeros(pad_amount(off, width)) + fixed_bytes(bits, width, fmt)
}

/// Canonical bytes of a string-like value: padding to 4, a 4-byte byte
/// count, the payload, and a trailing NUL not counted in the length.
pub open spec fn enc_string(payload: Seq<u8>, off: nat, fmt: EncodingFormat) -> Seq<u8> {
    zeros(pad_amount(off, 4)) + fixed_bytes(payload.len() as u64, 4, fmt) + payload + seq![0u8]
}

/// Canonical bytes of a signature value: a 1-byte length, the type codes,
/// and a trailing NUL.
pub open spec fn enc_signature(payload: Seq<u8>) -> Seq<u8> {
    seq![payload.len() as u8] + payload + seq![0u8]
}

/// The canonical encoding of `v` when it starts at absolute offset `off`:
/// every padding byte is zero.
pub open spec fn enc_value(v: Value, off: nat, fmt: EncodingFormat) -> Seq<u8>
    decreases v,
{
    match v {
        Value::Str(s) => enc_string(encode_utf8(s@), off, fmt),
        Value::ObjectPath(s) => enc_string(encode_utf8(s@), off, fmt),
        Value::Signature(g) => enc_signature(g@),
        Value::Array(esig, elems) => {
            let pd = pad_amount(off, 4);
            let off2 = off + pd + 4;
            let ea = align_of_code(if esig@.len() > 0 {
                esig@[0]
            } else {
                0u8
            });
            let pd2 = pad_amount(off2, ea);
            let body = enc_list(elems@, off2 + pd2, fmt);
            zeros(pd) + fixed_bytes(body.len() as u64, 4, fmt) + zeros(pd2) + body
        },
        Value::Structure(vs) => {
            let pd = pad_amount(off, 8);
            zeros(pd) + enc_list(vs@, off + pd, fmt)
        },
        Value::DictEntry(k, val) => {
            let pd = pad_amount(off, 8);
            let bk = enc_value(*k, off + pd, fmt);
            zeros(pd) + bk + enc_value(*val, off + pd + bk.len(), fmt)
        },
        Value::Variant(b) => {
            let sl = sig_of(*b);
            enc_signature(sl) + enc_value(*b, off + sl.len() + 2, fmt)
        },
        _ => enc_fixed(scalar_bits(v), scalar_width(v), off, fmt),
    }
}

/// Canonical encoding of a list of values laid out contiguously from `off`.
pub open spec fn enc_list(vs: Seq<Value>, off: nat, fmt: EncodingFormat) -> Seq<u8>
    decreases vs,
{
    if vs.len() == 0 {
        Seq::empty()
    } else {
        let b0 = enc_value(vs[0], off, fmt);
        b0 + enc_list(vs.drop_first(), off + b0.len(), fmt)
    }
}

/// Length of the canonical encoding of `v` at offset `off`.
pub open spec fn enc_len(v: Value, off: nat, fmt: EncodingFormat) -> nat {
    enc_value(v, off, fmt).len()
}

/// Size bounds that make `v` encodable at offset `off`: every length
/// prefix fits its field.
pub open spec fn enc_ok(v: Value, off: nat, fmt: EncodingFormat) -> bool
    decreases v,
{
    match v {
        Value::Str(s) => encode_utf8(s@).len() < 0x100000000,
        Value::ObjectPath(s) => encode_utf8(s@).len() < 0x100000000,
        Value::Signature(g) => g@.len() <= 255,
        Value::Array(esig, elems) => {
            let pd = pad_amount(off, 4);
            let off2 = off + pd + 4;
            let ea = align_of_code(if esig@.len() > 0 {
                esig@[0]
            } else {
                0u8
            });
            let pd2 = pad_amount(off2, ea);
            &&& enc_list_ok(elems@, off2 + pd2, fmt)
            &&& enc_list(elems@, off2 + pd2, fmt).len() < 0x100000000
        },
        Value::Structure(vs) => enc_list_ok(vs@, off + pad_amount(off, 8), fmt),
        Value::DictEntry(k, val) => {
            let off1 = off + pad_amount(off, 8);
            enc_ok(*k, off1, fmt) && enc_ok(*val, off1 + enc_len(*k, off1, fmt), fmt)
        },
        Value::Variant(b) => sig_of(*b).len() <= 255 && enc_ok(
            *b,
            off + sig_of(*b).len() + 2,
            fmt,
        ),
        _ => true,
    }
}

pub open spec fn enc_list_ok(vs: Seq<Value>, off: nat, fmt: EncodingFormat) -> bool
    decreases vs,
{
    vs.len() == 0 || (enc_ok(vs[0], off, fmt) && enc_list_ok(
        vs.drop_first(),
        off + enc_len(vs[0], off, fmt),
        fmt,
    ))
}

/// `b` is a wire image of a fixed-size field: correct length and value
/// bytes; the padding bytes may hold anything.
pub open spec fn image_fixed(
    bits: u64,
    width: nat,
    off: nat,
    b: Seq<u8>,
    fmt: EncodingFormat,
) -> bool {
    let pd = pad_amount(off, width);
    b.len() == pd + width && b.skip(pd as int) == fixed_bytes(bits, width, fmt)
}

/// `b` is a wire image of a length-prefixed string with payload `payload`.
pub open spec fn image_string(
    payload: Seq<u8>,
    off: nat,
    b: Seq<u8>,
    fmt: EncodingFormat,
) -> bool {
    let pd = pad_amount(off, 4);
    &&& payload.len() < 0x100000000
    &&& b.len() == pd + 4 + payload.len() + 1
    &&& b.subrange(pd as int, (pd + 4) as int) == fixed_bytes(payload.len() as u64, 4, fmt)
    &&& b.subrange((pd + 4) as int, (pd + 4 + payload.len()) as int) == payload
    &&& b[b.len() - 1] == 0u8
}

/// `b` is a wire image of a signature value with type codes `payload`.
pub open spec fn image_signature(payload: Seq<u8>, b: Seq<u8>) -> bool {
    &&& payload.len() <= 255
    &&& b.len() == payload.len() + 2
    &&& b[0] == payload.len() as u8
    &&& b.subrange(1, (1 + payload.len()) as int) == payload
    &&& b[b.len() - 1] == 0u8
}

/// `b` is a wire image of `v` at absolute offset `off`: it has exactly the
/// canonical layout and value bytes of `v`, but its padding bytes are
/// unconstrained (the decoder skips them without looking).
pub open spec fn wire_of(v: Value, off: nat, b: Seq<u8>, fmt: EncodingFormat) -> bool
    decreases v,
{
    match v {
        Value::Str(s) => image_string(encode_utf8(s@), off, b, fmt),
        Value::ObjectPath(s) => image_string(encode_utf8(s@), off, b, fmt),
        Value::Signature(g) => image_signature(g@, b),
        Value::Array(esig, elems) => {
            let pd = pad_amount(off, 4);
            let off2 = off + pd + 4;
            let ea = align_of_code(if esig@.len() > 0 {
                esig@[0]
            } else {
                0u8
            });
            let pd2 = pad_amount(off2, ea);
            let body = b.skip((pd + 4 + pd2) as int);
            &&& esig@.len() >= 1
            &&& b.len() >= pd + 4 + pd2
            &&& body.len() < 0x100000000
            &&& b.subrange(pd as int, (pd + 4) as int) == fixed_bytes(body.len() as u64, 4, fmt)
            &&& wire_list(elems@, off2 + pd2, body, fmt)
        },
        Value::Structure(vs) => {
            let pd = pad_amount(off, 8);
            b.len() >= pd && wire_list(vs@, off + pd, b.skip(pd as int), fmt)
        },
        Value::DictEntry(k, val) => {
            let pd = pad_amount(off, 8);
            let off1 = off + pd;
            let kl = enc_len(*k, off1, fmt);
            &&& b.len() >= pd + kl
            &&& wire_of(*k, off1, b.subrange(pd as int, (pd + kl) as int), fmt)
            &&& wire_of(*val, off1 + kl, b.skip((pd + kl) as int), fmt)
        },
        Value::Variant(bx) => {
            let sl = sig_of(*bx);
            &&& sl.len() <= 255
            &&& b.len() >= sl.len() + 2
            &&& image_signature(sl, b.subrange(0, (sl.len() + 2) as int))
            &&& wire_of(*bx, off + sl.len() + 2, b.skip((sl.len() + 2) as int), fmt)
        },
        _ => image_fixed(scalar_bits(v), scalar_width(v), off, b, fmt),
    }
}

/// `b` is the contiguous concatenation of wire images of the values `vs`.
pub open spec fn wire_list(vs: Seq<Value>, off: nat, b: Seq<u8>, fmt: EncodingFormat) -> bool
    decreases vs,
{
    if vs.len() == 0 {
        b.len() == 0
    } else {
        let k = enc_len(vs[0], off, fmt);
        &&& k <= b.len()
        &&& wire_of(vs[0], off, b.subrange(0, k as int), fmt)
        &&& wire_list(vs.drop_first(), off + k, b.skip(k as int), fmt)
    }
}

/// Every wire image of `v` at `off` has the canonical length.
pub proof fn lemma_wire_len(v: Value, off: nat, b: Seq<u8>, fmt: EncodingFormat)
    requires
        wire_of(v, off, b, fmt),
    ensures
        b.len() == enc_len(v, off, fmt),
    decreases v,
{
    match v {
        Value::Str(s) => {
            lemma_fixed_bytes_len(encode_utf8(s@).len() as u64, 4, fmt);
        },
        Value::ObjectPath(s) => {
            lemma_fixed_bytes_len(encode_utf8(s@).len() as u64, 4, fmt);
        },
        Value::Signature(g) => {
        },
        Value::Array(esig, elems) => {
            let pd = pad_amount(off, 4);
            let off2 = off + pd + 4;
            let ea = align_of_code(if esig@.len() > 0 {
                esig@[0]
            } else {
                0u8
            });
            let pd2 = pad_amount(off2, ea);
            let body = b.skip((pd + 4 + pd2) as int);
            lemma_wire_list_len(elems@, off2 + pd2, body, fmt);
            lemma_fixed_bytes_len(body.len() as u64, 4, fmt);
        },
        Value::Structure(vs) => {
            let pd = pad_amount(off, 8);
            lemma_wire_list_len(vs@, off + pd, b.skip(pd as int), fmt);
        },
        Value::DictEntry(k, val) => {
            let pd = pad_amount(off, 8);
            let off1 = off + pd;
            let kl = enc_len(*k, off1, fmt);
            lemma_wire_len(*k, off1, b.subrange(pd as int, (pd + kl) as int), fmt);
            lemma_wire_len(*val, off1 + kl, b.skip((pd + kl) as int), fmt);
        },
        Value::Variant(bx) => {
            let sl = sig_of(*bx);
            lemma_wire_len(*bx, off + sl.len() + 2, b.skip((sl.len() + 2) as int), fmt);
        },
        _ => {
            lemma_fixed_bytes_len(scalar_bits(v), scalar_width(v), fmt);
        },
    }
}

pub proof fn lemma_wire_list_len(vs: Seq<Value>, off: nat, b: Seq<u8>, fmt: EncodingFormat)
    requires
        wire_list(vs, off, b, fmt),
    ensures
        b.len() == enc_list(vs, off, fmt).len(),
    decreases vs,
{
    if vs.len() > 0 {
        let k = enc_len(vs[0], off, fmt);
        lemma_wire_len(vs[0], off, b.subrange(0, k as int), fmt);
        lemma_wire_list_len(vs.drop_first(), off + k, b.skip(k as int), fmt);
    }
}

/// The canonical encoding is itself a wire image.
#[verifier::rlimit(100)]
#[verifier::spinoff_prover]
pub proof fn lemma_enc_is_wire(v: Value, off: nat, fmt: EncodingFormat)
    requires
        wf(v),
        enc_ok(v, off, fmt),
    ensures
        wire_of(v, off, enc_value(v, off, fmt), fmt),
    decreases v,
{
    let b = enc_value(v, off, fmt);
    match v {
        Value::Str(s) => {
            let p = encode_utf8(s@);
            let pd = pad_amount(off, 4);
            lemma_fixed_bytes_len(p.len() as u64, 4, fmt);
            assert(b.subrange(pd as int, (pd + 4) as int) =~= fixed_bytes(
                p.len() as u64,
                4,
                fmt,
            ));
            assert(b.subrange((pd + 4) as int, (pd + 4 + p.len()) as int) =~= p);
        },
        Value::ObjectPath(s) => {
            let p = encode_utf8(s@);
            let pd = pad_amount(off, 4);
            lemma_fixed_bytes_len(p.len() as u64, 4, fmt);
            assert(b.subrange(pd as int, (pd + 4) as int) =~= fixed_bytes(
                p.len() as u64,
                4,
                fmt,
            ));
            assert(b.subrange((pd + 4) as int, (pd + 4 + p.len()) as int) =~= p);
        },
        Value::Signature(g) => {
            assert(b.subrange(1, (1 + g@.len()) as int) =~= g@);
        },
        Value::Array(esig, elems) => {
            let pd = pad_amount(off, 4);
            let off2 = off + pd + 4;
            let ea = align_of_code(if esig@.len() > 0 {
                esig@[0]
            } else {
                0u8
            });
            let pd2 = pad_amount(off2, ea);
            let body = enc_list(elems@, off2 + pd2, fmt);
            lemma_fixed_bytes_len(body.len() as u64, 4, fmt);
            lemma_enc_list_is_wire(elems@, esig@, off2 + pd2, fmt);
            assert(b.skip((pd + 4 + pd2) as int) =~= body);
            assert(b.subrange(pd as int, (pd + 4) as int) =~= fixed_bytes(
                body.len() as u64,
                4,
                fmt,
            ));
            assert(esig@.len() >= 1);
        },
        Value::Structure(vs) => {
            let pd = pad_amount(off, 8);
            lemma_enc_struct_list_is_wire(vs@, off + pd, fmt);
            assert(b.skip(pd as int) =~= enc_list(vs@, off + pd, fmt));
        },
        Value::DictEntry(k, val) => {
            let pd = pad_amount(off, 8);
            let off1 = off + pd;
            let bk = enc_value(*k, off1, fmt);
            let bv = enc_value(*val, off1 + bk.len(), fmt);
            lemma_enc_is_wire(*k, off1, fmt);
            lemma_enc_is_wire(*val, off1 + bk.len(), fmt);
            assert(b.subrange(pd as int, (pd + bk.len()) as int) =~= bk);
            assert(b.skip((pd + bk.len()) as int) =~= bv);
        },
        Value::Variant(bx) => {
            let sl = sig_of(*bx);
            let hdr = enc_signature(sl);
            let inner = enc_value(*bx, off + sl.len() + 2, fmt);
            lemma_enc_is_wire(*bx, off + sl.len() + 2, fmt);
            assert(b.subrange(0, (sl.len() + 2) as int) =~= hdr);
            assert(hdr.subrange(1, (1 + sl.len()) as int) =~= sl);
            assert(b.skip((sl.len() + 2) as int) =~= inner);
            assert(image_signature(sl, b.subrange(0, (sl.len() + 2) as int)));
        },
        _ => {
            let pd = pad_amount(off, scalar_width(v));
            lemma_fixed_bytes_len(scalar_bits(v), scalar_width(v), fmt);
            assert(b.skip(pd as int) =~= fixed_bytes(scalar_bits(v), scalar_width(v), fmt));
        },
    }
}

/// The canonical encoding of an array's element run is a wire image of it.
pub proof fn lemma_enc_list_is_wire(vs: Seq<Value>, esig: Seq<u8>, off: nat, fmt: EncodingFormat)
    requires
        wf_elems(vs, esig),
        enc_list_ok(vs, off, fmt),
    ensures
        wire_list(vs, off, enc_list(vs, off, fmt), fmt),
    decreases vs,
{
    if vs.len() > 0 {
        let b0 = enc_value(vs[0], off, fmt);
        let b = enc_list(vs, off, fmt);
        lemma_enc_is_wire(vs[0], off, fmt);
        lemma_enc_list_is_wire(vs.drop_first(), esig, off + b0.len(), fmt);
        assert(b.subrange(0, b0.len() as int) =~= b0);
        assert(b.skip(b0.len() as int) =~= enc_list(vs.drop_first(), off + b0.len(), fmt));
    }
}

/// The canonical encoding of a structure's field run is a wire image of it.
pub proof fn lemma_enc_struct_list_is_wire(vs: Seq<Value>, off: nat, fmt: EncodingFormat)
    requires
        wf_list(vs),
        enc_list_ok(vs, off, fmt),
    ensures
        wire_list(vs, off, enc_list(vs, off, fmt), fmt),
    decreases vs,
{
    if vs.len() > 0 {
        let b0 = enc_value(vs[0], off, fmt);
        let b = enc_list(vs, off, fmt);
        lemma_enc_is_wire(vs[0], off, fmt);
        lemma_enc_struct_list_is_wire(vs.drop_first(), off + b0.len(), fmt);
        assert(b.subrange(0, b0.len() as int) =~= b0);
        assert(b.skip(b0.len() as int) =~= enc_list(vs.drop_first(), off + b0.len(), fmt));
    }
}

/// Executable test for [`is_big`].
pub fn is_big_exec(fmt: EncodingFormat) -> (r: bool)
    ensures
        r == is_big(fmt),
{
    match fmt {
        EncodingFormat::DBusBigEndian => true,
        EncodingFormat::DBusLittleEndian => false,
    }
}

/// Appends `n` zero bytes.
pub fn write_zeros(bytes: &mut Vec<u8>, n: usize)
    requires
        old(bytes)@.len() + n <= usize::MAX,
    ensures
        final(bytes)@ == old(bytes)@ + zeros(n as nat),
{
    let new_len = bytes.len() + n;
    bytes.resize(new_len, 0u8);
    proof {
        assert(bytes@ =~= old(bytes)@ + zeros(n as nat));
    }
}

/// Appends the 1-byte field for `x`.
pub fn write_u8_bytes(bytes: &mut Vec<u8>, x: u8, fmt: EncodingFormat)
    ensures
        final(bytes)@ == old(bytes)@ + fixed_bytes(x as u64, 1, fmt),
{
    bytes.push(x);
    proof {
        let f = fixed_bytes(x as u64, 1, fmt);
        assert(seq![x].reverse() =~= seq![x]);
        assert(f =~= seq![x]);
        assert(bytes@ =~= old(bytes)@ + f);
    }
}

/// Appends the 2-byte field for `x` in the byte order of `fmt`.
pub fn write_u16_bytes(bytes: &mut Vec<u8>, x: u16, fmt: EncodingFormat)
    ensures
        final(bytes)@ == old(bytes)@ + fixed_bytes(x as u64, 2, fmt),
{
    let v = vstd::bytes::u16_to_le_bytes(x);
    if is_big_exec(fmt) {
        bytes.push(v[1]);
        bytes.push(v[0]);
        proof {
            assert(v@.reverse() =~= seq![v@[1], v@[0]]);
            assert(bytes@ =~= old(bytes)@ + fixed_bytes(x as u64, 2, fmt));
        }
    } else {
        bytes.extend_from_slice(v.as_slice());
        proof {
            assert(bytes@ =~= old(bytes)@ + fixed_bytes(x as u64, 2, fmt));
        }
    }
}

/// Appends the 4-byte field for `x` in the byte order of `fmt`.
pub fn write_u32_bytes(bytes: &mut Vec<u8>, x: u32, fmt: EncodingFormat)
    ensures
        final(bytes)@ == old(bytes)@ + fixed_bytes(x as u64, 4, fmt),
{
    let v = vstd::bytes::u32_to_le_bytes(x);
    if is_big_exec(fmt) {
        bytes.push(v[3]);
        bytes.push(v[2]);
        bytes.push(v[1]);
        bytes.push(v[0]);
        proof {
            assert(v@.reverse() =~= seq![v@[3], v@[2], v@[1], v@[0]]);
            assert(bytes@ =~= old(bytes)@ + fixed_bytes(x as u64, 4, fmt));
        }
    } else {
        bytes.extend_from_slice(v.as_slice());
        proof {
            assert(bytes@ =~= old(bytes)@ + fixed_bytes(x as u64, 4, fmt));
        }
    }
}

/// Appends the 8-byte field for `x` in the byte order of `fmt`.
pub fn write_u64_bytes(bytes: &mut Vec<u8>, x: u64, fmt: EncodingFormat)
    ensures
        final(bytes)@ == old(bytes)@ + fixed_bytes(x, 8, fmt),
{
    let v = vstd::bytes::u64_to_le_bytes(x);
    if is_big_exec(fmt) {
        bytes.push(v[7]);
        bytes.push(v[6]);
        bytes.push(v[5]);
        bytes.push(v[4]);
        bytes.push(v[3]);
        bytes.push(v[2]);
        bytes.push(v[1]);
        bytes.push(v[0]);
        proof {
            assert(v@.reverse() =~= seq![v@[7], v@[6], v@[5], v@[4], v@[3], v@[2], v@[1], v@[0]]);
            assert(bytes@ =~= old(bytes)@ + fixed_bytes(x, 8, fmt));
        }
    } else {
        bytes.extend_from_slice(v.as_slice());
        proof {
            assert(bytes@ =~= old(bytes)@ + fixed_bytes(x, 8, fmt));
        }
    }
}

/// Reads the 1-byte field at `at`.
pub fn read_u8_bytes(data: &crate::buffer::SharedData, at: usize, fmt: EncodingFormat) -> (x: u8)
    requires
        at + 1 <= data@.len(),
    ensures
        data@.subrange(at as int, at as int + 1) == fixed_bytes(x as u64, 1, fmt),
{
    let x = data.get(at);
    proof {
        assert(data@.subrange(at as int, at as int + 1) =~= seq![x]);
        assert(seq![x].reverse() =~= seq![x]);
        assert(fixed_bytes(x as u64, 1, fmt) =~= seq![x]);
    }
    x
}

/// Reads the 2-byte field at `at` in the byte order of `fmt`.
pub fn read_u16_bytes(data: &crate::buffer::SharedData, at: usize, fmt: EncodingFormat) -> (x: u16)
    requires
        at + 2 <= data@.len(),
    ensures
        data@.subrange(at as int, at as int + 2) == fixed_bytes(x as u64, 2, fmt),
{
    let _n = data.len();
    let mut v: Vec<u8> = Vec::new();
    if is_big_exec(fmt) {
        v.push(data.get(at + 1));
        v.push(data.get(at));
    } else {
        v.push(data.get(at));
        v.push(data.get(at + 1));
    }
    let x = vstd::bytes::u16_from_le_bytes(v.as_slice());
    proof {
        let sub = data@.subrange(at as int, at as int + 2);
        lemma_fixed_bytes_of_val(sub, fmt);
        if is_big(fmt) {
            assert(sub.reverse() =~= v@);
        } else {
            assert(sub =~= v@);
        }
        lemma_fixed_roundtrip(x as u64, 2, fmt);
        assert(fixed_val(sub, fmt) == x as u64);
    }
    x
}

/// Reads the 4-byte field at `at` in the byte order of `fmt`.
pub fn read_u32_bytes(data: &crate::buffer::SharedData, at: usize, fmt: EncodingFormat) -> (x: u32)
    requires
        at + 4 <= data@.len(),
    ensures
        data@.subrange(at as int, at as int + 4) == fixed_bytes(x as u64, 4, fmt),
{
    let _n = data.len();
    let mut v: Vec<u8> = Vec::new();
    if is_big_exec(fmt) {
        v.push(data.get(at + 3));
        v.push(data.get(at + 2));
        v.push(data.get(at + 1));
        v.push(data.get(at));
    } else {
        v.push(data.get(at));
        v.push(data.get(at + 1));
        v.push(data.get(at + 2));
        v.push(data.get(at + 3));
    }
    let x = vstd::bytes::u32_from_le_bytes(v.as_slice());
    proof {
        let sub = data@.subrange(at as int, at as int + 4);
        lemma_fixed_bytes_of_val(sub, fmt);
        if is_big(fmt) {
            assert(sub.reverse() =~= v@);
        } else {
            assert(sub =~= v@);
        }
        lemma_fixed_roundtrip(x as u64, 4, fmt);
        assert(fixed_val(sub, fmt) == x as u64);
    }
    x
}

/// Reads the 8-byte field at `at` in the byte order of `fmt`.
pub fn read_u64_bytes(data: &crate::buffer::SharedData, at: usize, fmt: EncodingFormat) -> (x: u64)
    requires
        at + 8 <= data@.len(),
    ensures
        data@.subrange(at as int, at as int + 8) == fixed_bytes(x, 8, fmt),
{
    let _n = data.len();
    let mut v: Vec<u8> = Vec::new();
    if is_big_exec(fmt) {
        v.push(data.get(at + 7));
        v.push(data.get(at + 6));
        v.push(data.get(at + 5));
        v.push(data.get(at + 4));
        v.push(data.get(at + 3));
        v.push(data.get(at + 2));
        v.push(data.get(at + 1));
        v.push(data.get(at));
    } else {
        v.push(data.get(at));
        v.push(data.get(at + 1));
        v.push(data.get(at + 2));
        v.push(data.get(at + 3));
        v.push(data.get(at + 4));
        v.push(data.get(at + 5));
        v.push(data.get(at + 6));
        v.push(data.get(at + 7));
    }
    let x = vstd::bytes::u64_from_le_bytes(v.as_slice());
    proof {
        let sub = data@.subrange(at as int, at as int + 8);
        lemma_fixed_bytes_of_val(sub, fmt);
        if is_big(fmt) {
            assert(sub.reverse() =~= v@);
        } else {
            assert(sub =~= v@);
        }
        lemma_fixed_roundtrip(x, 8, fmt);
        assert(fixed_val(sub, fmt) == x);
    }
    x
}

/// Extends a contiguous run of wire images by one more image.
pub proof fn lemma_wire_list_snoc(
    vs: Seq<Value>,
    off: nat,
    b: Seq<u8>,
    x: Value,
    bx: Seq<u8>,
    fmt: EncodingFormat,
)
    requires
        wire_list(vs, off, b, fmt),
        wire_of(x, off + b.len(), bx, fmt),
    ensures
        wire_list(vs.push(x), off, b + bx, fmt),
    decreases vs,
{
    lemma_wire_len(x, off + b.len(), bx, fmt);
    if vs.len() == 0 {
        let k = enc_len(x, off, fmt);
        assert(vs.push(x)[0] == x);
        assert(vs.push(x).drop_first() =~= Seq::<Value>::empty());
        assert((b + bx).subrange(0, k as int) =~= bx);
        assert((b + bx).skip(k as int) =~= Seq::<u8>::empty());
        assert(wire_of(x, off, (b + bx).subrange(0, k as int), fmt));
        assert(wire_list(Seq::<Value>::empty(), off + k, Seq::<u8>::empty(), fmt));
        assert(wire_list(vs.push(x).drop_first(), off + k, (b + bx).skip(k as int), fmt));
    } else {
        let k = enc_len(vs[0], off, fmt);
        assert(vs.push(x)[0] == vs[0]);
        assert(vs.push(x).drop_first() =~= vs.drop_first().push(x));
        assert((b + bx).subrange(0, k as int) =~= b.subrange(0, k as int));
        assert((b + bx).skip(k as int) =~= b.skip(k as int) + bx);
        lemma_wire_list_snoc(vs.drop_first(), off + k, b.skip(k as int), x, bx, fmt);
        assert(wire_of(vs.push(x)[0], off, (b + bx).subrange(0, k as int), fmt));
        assert(wire_list(vs.push(x).drop_first(), off + k, (b + bx).skip(k as int), fmt));
    }
}

/// Canonical encodings of concatenated lists concatenate.
pub proof fn lemma_enc_list_append(a: Seq<Value>, b: Seq<Value>, off: nat, fmt: EncodingFormat)
    ensures
        enc_list(a + b, off, fmt) == enc_list(a, off, fmt) + enc_list(
            b,
            off + enc_list(a, off, fmt).len(),
            fmt,
        ),
    decreases a,
{
    if a.len() == 0 {
        assert(a + b =~= b);
        assert(enc_list(a, off, fmt) =~= Seq::<u8>::empty());
        assert(enc_list(a, off, fmt) + enc_list(b, off + enc_list(a, off, fmt).len(), fmt)
            =~= enc_list(b, off, fmt));
    } else {
        let b0 = enc_value(a[0], off, fmt);
        assert((a + b)[0] == a[0]);
        assert((a + b).drop_first() =~= a.drop_first() + b);
        lemma_enc_list_append(a.drop_first(), b, off + b0.len(), fmt);
        assert(b0 + (enc_list(a.drop_first(), off + b0.len(), fmt) + enc_list(
            b,
            off + b0.len() + enc_list(a.drop_first(), off + b0.len(), fmt).len(),
            fmt,
        )) =~= (b0 + enc_list(a.drop_first(), off + b0.len(), fmt)) + enc_list(
            b,
            off + b0.len() + enc_list(a.drop_first(), off + b0.len(), fmt).len(),
            fmt,
        ));
    }
}

/// Appending one more value to a list appends its encoding.
pub proof fn lemma_enc_list_snoc(vs: Seq<Value>, x: Value, off: nat, fmt: EncodingFormat)
    ensures
        enc_list(vs.push(x), off, fmt) == enc_list(vs, off, fmt) + enc_value(
            x,
            off + enc_list(vs, off, fmt).len(),
            fmt,
        ),
{
    assert(vs.push(x) =~= vs + seq![x]);
    lemma_enc_list_append(vs, seq![x], off, fmt);
    let o2 = off + enc_list(vs, off, fmt).len();
    assert(seq![x].drop_first() =~= Seq::<Value>::empty());
    assert(seq![x][0] == x);
    assert(enc_list(Seq::<Value>::empty(), o2 + enc_value(x, o2, fmt).len(), fmt)
        =~= Seq::<u8>::empty());
    assert(enc_list(seq![x], o2, fmt) =~= enc_value(x, o2, fmt));
}

/// Every well-formed value occupies at least one byte on the wire.
#[verifier::rlimit(100)]
#[verifier::spinoff_prover]
pub proof fn lemma_enc_len_pos(v: Value, off: nat, fmt: EncodingFormat)
    requires
        wf(v),
    ensures
        enc_len(v, off, fmt) >= 1,
    decreases v,
{
    match v {
        Value::Str(s) => {
            lemma_fixed_bytes_len(encode_utf8(s@).len() as u64, 4, fmt);
            assert(enc_value(v, off, fmt) == enc_string(encode_utf8(s@), off, fmt));
            assert(enc_string(encode_utf8(s@), off, fmt).len() >= 1);
            assert(enc_len(v, off, fmt) >= 1);
        },
        Value::ObjectPath(s) => {
            lemma_fixed_bytes_len(encode_utf8(s@).len() as u64, 4, fmt);
            assert(enc_value(v, off, fmt) == enc_string(encode_utf8(s@), off, fmt));
            assert(enc_string(encode_utf8(s@), off, fmt).len() >= 1);
        },
        Value::Signature(g) => {
            assert(enc_value(v, off, fmt) == enc_signature(g@));
            assert(enc_signature(g@).len() == g@.len() + 2);
        },
        Value::Array(esig, elems) => {
            let pd = pad_amount(off, 4);
            let off2 = off + pd + 4;
            let ea = align_of_code(if esig@.len() > 0 {
                esig@[0]
            } else {
                0u8
            });
            let pd2 = pad_amount(off2, ea);
            let body = enc_list(elems@, off2 + pd2, fmt);
            lemma_fixed_bytes_len(body.len() as u64, 4, fmt);
            assert(enc_value(v, off, fmt) == zeros(pd) + fixed_bytes(body.len() as u64, 4, fmt)
                + zeros(pd2) + body);
            assert(enc_value(v, off, fmt).len() >= 4);
        },
        Value::Structure(vs) => {
            let pd = pad_amount(off, 8);
            crate::value::lemma_wf_list_index(vs@, 0);
            lemma_enc_len_pos(vs@[0], off + pd, fmt);
            assert(enc_value(v, off, fmt) == zeros(pd) + enc_list(vs@, off + pd, fmt));
            assert(enc_list(vs@, off + pd, fmt).len() >= enc_value(vs@[0], off + pd, fmt).len());
        },
        Value::DictEntry(k, val) => {
            let pd = pad_amount(off, 8);
            lemma_enc_len_pos(*k, off + pd, fmt);
            let bk = enc_value(*k, off + pd, fmt);
            assert(enc_value(v, off, fmt) == zeros(pd) + bk + enc_value(
                *val,
                off + pd + bk.len(),
                fmt,
            ));
        },
        Value::Variant(b) => {
            let sl = sig_of(*b);
            assert(enc_value(v, off, fmt) == enc_signature(sl) + enc_value(
                *b,
                off + sl.len() + 2,
                fmt,
            ));
            assert(enc_signature(sl).len() == sl.len() + 2);
        },
        _ => {
            lemma_fixed_bytes_len(scalar_bits(v), scalar_width(v), fmt);
            assert(enc_value(v, off, fmt) == zeros(pad_amount(off, scalar_width(v)))
                + fixed_bytes(scalar_bits(v), scalar_width(v), fmt));
        },
    }
}

/// Two fixed-size field images of the same width in front of the same data
/// have the same length and hold the same value.
proof fn lemma_fixed_unique(
    bits1: u64,
    bits2: u64,
    w: nat,
    off: nat,
    d: Seq<u8>,
    n1: int,
    n2: int,
    fmt: EncodingFormat,
)
    requires
        w == 1 || w == 2 || w == 4 || w == 8,
        w == 1 ==> bits1 < 0x100 && bits2 < 0x100,
        w == 2 ==> bits1 < 0x10000 && bits2 < 0x10000,
        w == 4 ==> bits1 < 0x100000000 && bits2 < 0x100000000,
        0 <= n1 <= d.len(),
        0 <= n2 <= d.len(),
        image_fixed(bits1, w, off, d.subrange(0, n1), fmt),
        image_fixed(bits2, w, off, d.subrange(0, n2), fmt),
    ensures
        n1 == n2,
        bits1 == bits2,
{
    let pd = pad_amount(off, w);
    assert(d.subrange(0, n1).skip(pd as int) =~= d.subrange(pd as int, (pd + w) as int));
    assert(d.subrange(0, n2).skip(pd as int) =~= d.subrange(pd as int, (pd + w) as int));
    lemma_fixed_roundtrip(bits1, w, fmt);
    lemma_fixed_roundtrip(bits2, w, fmt);
}

#[verifier::rlimit(100)]
#[verifier::spinoff_prover]
proof fn lemma_wire_unique_variant(
    v1: Value,
    v2: Value,
    off: nat,
    d: Seq<u8>,
    n1: int,
    n2: int,
    fmt: EncodingFormat,
)
    requires
        wf(v1),
        wf(v2),
        v1 is Variant,
        v2 is Variant,
        sig_of(v1) == sig_of(v2),
        0 <= n1 <= d.len(),
        0 <= n2 <= d.len(),
        wire_of(v1, off, d.subrange(0, n1), fmt),
        wire_of(v2, off, d.subrange(0, n2), fmt),
    ensures
        n1 == n2,
        value_eq(v1, v2),
    decreases v1, 0int,
{
    let b1 = d.subrange(0, n1);
    let b2 = d.subrange(0, n2);
    match (v1, v2) {
        (Value::Variant(i1), Value::Variant(i2)) => {
            let sl1 = sig_of(*i1);
            let sl2 = sig_of(*i2);
            let h1 = b1.subrange(0, (sl1.len() + 2) as int);
            let h2 = b2.subrange(0, (sl2.len() + 2) as int);
            assert(h1[0] == d[0] && h2[0] == d[0]);
            assert(sl1.len() == sl2.len());
            let l = sl1.len();
            assert(h1.subrange(1, (1 + l) as int) =~= d.subrange(1, (1 + l) as int));
            assert(h2.subrange(1, (1 + l) as int) =~= d.subrange(1, (1 + l) as int));
            assert(sl1 == sl2);
            let dd = d.skip((l + 2) as int);
            assert(b1.skip((l + 2) as int) =~= dd.subrange(0, n1 - (l + 2)));
            assert(b2.skip((l + 2) as int) =~= dd.subrange(0, n2 - (l + 2)));
            lemma_wire_unique(
                *i1,
                *i2,
                off + l + 2,
                dd,
                n1 - (l + 2) as int,
                n2 - (l + 2) as int,
                fmt,
            );
        },
        _ => {
            assert(false);
        },
    }
}

#[verifier::rlimit(100)]
#[verifier::spinoff_prover]
proof fn lemma_wire_unique_array(
    v1: Value,
    v2: Value,
    off: nat,
    d: Seq<u8>,
    n1: int,
    n2: int,
    fmt: EncodingFormat,
)
    requires
        wf(v1),
        wf(v2),
        v1 is Array,
        v2 is Array,
        sig_of(v1) == sig_of(v2),
        0 <= n1 <= d.len(),
        0 <= n2 <= d.len(),
        wire_of(v1, off, d.subrange(0, n1), fmt),
        wire_of(v2, off, d.subrange(0, n2), fmt),
    ensures
        n1 == n2,
        value_eq(v1, v2),
    decreases v1, 0int,
{
    let b1 = d.subrange(0, n1);
    let b2 = d.subrange(0, n2);
    match (v1, v2) {
        (Value::Array(e1, l1), Value::Array(e2, l2)) => {
            assert(e1@ =~= sig_of(v1).subrange(1, sig_of(v1).len() as int));
            assert(e2@ =~= sig_of(v2).subrange(1, sig_of(v2).len() as int));
            assert(e1@ == e2@);
            let pd = pad_amount(off, 4);
            let off2 = off + pd + 4;
            let ea = align_of_code(if e1@.len() > 0 {
                e1@[0]
            } else {
                0u8
            });
            let pd2 = pad_amount(off2, ea);
            let body1 = b1.skip((pd + 4 + pd2) as int);
            let body2 = b2.skip((pd + 4 + pd2) as int);
            assert(b1.subrange(pd as int, (pd + 4) as int) =~= d.subrange(
                pd as int,
                (pd + 4) as int,
            ));
            assert(b2.subrange(pd as int, (pd + 4) as int) =~= d.subrange(
                pd as int,
                (pd + 4) as int,
            ));
            lemma_fixed_roundtrip(body1.len() as u64, 4, fmt);
            lemma_fixed_roundtrip(body2.len() as u64, 4, fmt);
            assert(body1.len() == body2.len());
            assert(n1 == n2);
            assert(body1 =~= body2);
            let dd = d.subrange((pd + 4 + pd2) as int, n1);
            assert(body1 =~= dd.subrange(0, n1 - (pd + 4 + pd2)));
            assert(body2 =~= dd.subrange(0, n2 - (pd + 4 + pd2)));
            lemma_wire_elems_unique(
                l1@,
                l2@,
                e1@,
                off2 + pd2,
                dd,
                n1 - (pd + 4 + pd2) as int,
                n2 - (pd + 4 + pd2) as int,
                fmt,
            );
        },
        _ => {
            assert(false);
        },
    }
}

#[verifier::rlimit(100)]
#[verifier::spinoff_prover]
proof fn lemma_wire_unique_structure(
    v1: Value,
    v2: Value,
    off: nat,
    d: Seq<u8>,
    n1: int,
    n2: int,
    fmt: EncodingFormat,
)
    requires
        wf(v1),
        wf(v2),
        v1 is Structure,
        v2 is Structure,
        sig_of(v1) == sig_of(v2),
        0 <= n1 <= d.len(),
        0 <= n2 <= d.len(),
        wire_of(v1, off, d.subrange(0, n1), fmt),
        wire_of(v2, off, d.subrange(0, n2), fmt),
    ensures
        n1 == n2,
        value_eq(v1, v2),
    decreases v1, 0int,
{
    let b1 = d.subrange(0, n1);
    let b2 = d.subrange(0, n2);
    match (v1, v2) {
        (Value::Structure(l1), Value::Structure(l2)) => {
            assert(sig_of_list(l1@) =~= sig_of(v1).subrange(1, sig_of(v1).len() - 1));
            assert(sig_of_list(l2@) =~= sig_of(v2).subrange(1, sig_of(v2).len() - 1));
            assert(sig_of_list(l1@) == sig_of_list(l2@));
            let pd = pad_amount(off, 8);
            let dd = d.skip(pd as int);
            assert(b1.skip(pd as int) =~= dd.subrange(0, n1 - pd));
            assert(b2.skip(pd as int) =~= dd.subrange(0, n2 - pd));
            lemma_wire_fields_unique(
                l1@,
                l2@,
                off + pd,
                dd,
                n1 - pd as int,
                n2 - pd as int,
                fmt,
            );
        },
        _ => {
            assert(false);
        },
    }
}

#[verifier::rlimit(100)]
#[verifier::spinoff_prover]
proof fn lemma_wire_unique_dict(
    v1: Value,
    v2: Value,
    off: nat,
    d: Seq<u8>,
    n1: int,
    n2: int,
    fmt: EncodingFormat,
)
    requires
        wf(v1),
        wf(v2),
        v1 is DictEntry,
        v2 is DictEntry,
        sig_of(v1) == sig_of(v2),
        0 <= n1 <= d.len(),
        0 <= n2 <= d.len(),
        wire_of(v1, off, d.subrange(0, n1), fmt),
        wire_of(v2, off, d.subrange(0, n2), fmt),
    ensures
        n1 == n2,
        value_eq(v1, v2),
    decreases v1, 0int,
{
    let b1 = d.subrange(0, n1);
    let b2 = d.subrange(0, n2);
    match (v1, v2) {
        (Value::DictEntry(k1, x1), Value::DictEntry(k2, x2)) => {
            assert(sig_of(*k1).len() == 1 && sig_of(*k2).len() == 1);
            assert(sig_of(*k1)[0] == sig_of(v1)[1] && sig_of(*k2)[0] == sig_of(v2)[1]);
            assert(sig_of(*k1) =~= sig_of(*k2));
            let pd = pad_amount(off, 8);
            let kl1 = enc_len(*k1, off + pd, fmt);
            let kl2 = enc_len(*k2, off + pd, fmt);
            let dk = d.skip(pd as int);
            assert(b1.subrange(pd as int, (pd + kl1) as int) =~= dk.subrange(0, kl1 as int));
            assert(b2.subrange(pd as int, (pd + kl2) as int) =~= dk.subrange(0, kl2 as int));
            lemma_wire_unique(*k1, *k2, off + pd, dk, kl1 as int, kl2 as int, fmt);
            assert(kl1 == kl2);
            let dv = d.skip((pd + kl1) as int);
            assert(b1.skip((pd + kl1) as int) =~= dv.subrange(0, n1 - (pd + kl1)));
            assert(b2.skip((pd + kl2) as int) =~= dv.subrange(0, n2 - (pd + kl2)));
            assert(sig_of(*x1) =~= sig_of(v1).subrange(2, sig_of(v1).len() - 1));
            assert(sig_of(*x2) =~= sig_of(v2).subrange(2, sig_of(v2).len() - 1));
            lemma_wire_unique(
                *x1,
                *x2,
                off + pd + kl1,
                dv,
                n1 - (pd + kl1) as int,
                n2 - (pd + kl2) as int,
                fmt,
            );
        },
        _ => {
            assert(false);
        },
    }
}

/// At one offset and signature, the bytes in front determine the value: any
/// two wire images leading the same data hold equivalent values and have
/// equal length.  Together with [`lemma_enc_is_wire`] and the codec's
/// contracts this is the round-trip law: decoding an encoded value gives
/// that value back.
#[verifier::rlimit(100)]
#[verifier::spinoff_prover]
pub proof fn lemma_wire_unique(
    v1: Value,
    v2: Value,
    off: nat,
    d: Seq<u8>,
    n1: int,
    n2: int,
    fmt: EncodingFormat,
)
    requires
        wf(v1),
        wf(v2),
        sig_of(v1) == sig_of(v2),
        0 <= n1 <= d.len(),
        0 <= n2 <= d.len(),
        wire_of(v1, off, d.subrange(0, n1), fmt),
        wire_of(v2, off, d.subrange(0, n2), fmt),
    ensures
        n1 == n2,
        value_eq(v1, v2),
    decreases v1, 1int,
{
    let b1 = d.subrange(0, n1);
    let b2 = d.subrange(0, n2);
    match (v1, v2) {
        (Value::U8(x), Value::U8(y)) => {
            lemma_fixed_unique(x as u64, y as u64, 1, off, d, n1, n2, fmt);
        },
        (Value::Bool(x), Value::Bool(y)) => {
            lemma_fixed_unique(scalar_bits(v1), scalar_bits(v2), 4, off, d, n1, n2, fmt);
        },
        (Value::I16(x), Value::I16(y)) => {
            lemma_fixed_unique(scalar_bits(v1), scalar_bits(v2), 2, off, d, n1, n2, fmt);
            assert(x == y) by (bit_vector)
                requires
                    (x as u16) == (y as u16),
            ;
        },
        (Value::U16(x), Value::U16(y)) => {
            lemma_fixed_unique(x as u64, y as u64, 2, off, d, n1, n2, fmt);
        },
        (Value::I32(x), Value::I32(y)) => {
            lemma_fixed_unique(scalar_bits(v1), scalar_bits(v2), 4, off, d, n1, n2, fmt);
            assert(x == y) by (bit_vector)
                requires
                    (x as u32) == (y as u32),
            ;
        },
        (Value::U32(x), Value::U32(y)) => {
            lemma_fixed_unique(x as u64, y as u64, 4, off, d, n1, n2, fmt);
        },
        (Value::I64(x), Value::I64(y)) => {
            lemma_fixed_unique(scalar_bits(v1), scalar_bits(v2), 8, off, d, n1, n2, fmt);
            assert(x == y) by (bit_vector)
                requires
                    (x as u64) == (y as u64),
            ;
        },
        (Value::U64(x), Value::U64(y)) => {
            lemma_fixed_unique(x, y, 8, off, d, n1, n2, fmt);
        },
        (Value::F64(x), Value::F64(y)) => {
            lemma_fixed_unique(x, y, 8, off, d, n1, n2, fmt);
        },
        (Value::Str(s1), Value::Str(s2)) => {
            lemma_string_image_unique(encode_utf8(s1@), encode_utf8(s2@), off, d, n1, n2, fmt);
            vstd::utf8::encode_utf8_decode_utf8(s1@);
            vstd::utf8::encode_utf8_decode_utf8(s2@);
        },
        (Value::ObjectPath(s1), Value::ObjectPath(s2)) => {
            lemma_string_image_unique(encode_utf8(s1@), encode_utf8(s2@), off, d, n1, n2, fmt);
            vstd::utf8::encode_utf8_decode_utf8(s1@);
            vstd::utf8::encode_utf8_decode_utf8(s2@);
        },
        (Value::Signature(g1), Value::Signature(g2)) => {
            assert(b1[0] == d[0] && b2[0] == d[0]);
            assert(g1@.len() == g2@.len());
            assert(b1.subrange(1, (1 + g1@.len()) as int) =~= d.subrange(
                1,
                (1 + g1@.len()) as int,
            ));
            assert(b2.subrange(1, (1 + g2@.len()) as int) =~= d.subrange(
                1,
                (1 + g2@.len()) as int,
            ));
        },
        (Value::Variant(i1), Value::Variant(i2)) => {
            lemma_wire_unique_variant(v1, v2, off, d, n1, n2, fmt);
        },
        (Value::Array(e1, l1), Value::Array(e2, l2)) => {
            lemma_wire_unique_array(v1, v2, off, d, n1, n2, fmt);
        },
        (Value::Structure(l1), Value::Structure(l2)) => {
            lemma_wire_unique_structure(v1, v2, off, d, n1, n2, fmt);
        },
        (Value::DictEntry(k1, x1), Value::DictEntry(k2, x2)) => {
            lemma_wire_unique_dict(v1, v2, off, d, n1, n2, fmt);
        },
        _ => {
            crate::value::lemma_sig_head(v1);
            crate::value::lemma_sig_head(v2);
            assert(sig_of(v1)[0] == sig_of(v2)[0]);
            assert(false);
        },
    }
}

/// Two string images leading the same data agree on payload and length.
proof fn lemma_string_image_unique(
    p1: Seq<u8>,
    p2: Seq<u8>,
    off: nat,
    d: Seq<u8>,
    n1: int,
    n2: int,
    fmt: EncodingFormat,
)
    requires
        0 <= n1 <= d.len(),
        0 <= n2 <= d.len(),
        image_string(p1, off, d.subrange(0, n1), fmt),
        image_string(p2, off, d.subrange(0, n2), fmt),
    ensures
        n1 == n2,
        p1 == p2,
{
    let b1 = d.subrange(0, n1);
    let b2 = d.subrange(0, n2);
    let pd = pad_amount(off, 4);
    assert(b1.subrange(pd as int, (pd + 4) as int) =~= d.subrange(pd as int, (pd + 4) as int));
    assert(b2.subrange(pd as int, (pd + 4) as int) =~= d.subrange(pd as int, (pd + 4) as int));
    lemma_fixed_roundtrip(p1.len() as u64, 4, fmt);
    lemma_fixed_roundtrip(p2.len() as u64, 4, fmt);
    assert(p1.len() == p2.len());
    assert(b1.subrange((pd + 4) as int, (pd + 4 + p1.len()) as int) =~= d.subrange(
        (pd + 4) as int,
        (pd + 4 + p1.len()) as int,
    ));
    assert(b2.subrange((pd + 4) as int, (pd + 4 + p2.len()) as int) =~= d.subrange(
        (pd + 4) as int,
        (pd + 4 + p2.len()) as int,
    ));
}

/// Two element runs of one element signature in front of the same data are
/// pointwise equivalent.
proof fn lemma_wire_elems_unique(
    l1: Seq<Value>,
    l2: Seq<Value>,
    esig: Seq<u8>,
    off: nat,
    d: Seq<u8>,
    m1: int,
    m2: int,
    fmt: EncodingFormat,
)
    requires
        wf_elems(l1, esig),
        wf_elems(l2, esig),
        0 <= m1 <= d.len(),
        0 <= m2 <= d.len(),
        m1 == m2,
        wire_list(l1, off, d.subrange(0, m1), fmt),
        wire_list(l2, off, d.subrange(0, m2), fmt),
    ensures
        value_list_eq(l1, l2),
    decreases l1, 0int,
{
    let b1 = d.subrange(0, m1);
    let b2 = d.subrange(0, m2);
    if l1.len() == 0 {
        if l2.len() > 0 {
            lemma_enc_len_pos(l2[0], off, fmt);
        }
    } else if l2.len() == 0 {
        lemma_enc_len_pos(l1[0], off, fmt);
    } else {
        let k1 = enc_len(l1[0], off, fmt);
        let k2 = enc_len(l2[0], off, fmt);
        assert(b1.subrange(0, k1 as int) =~= d.subrange(0, k1 as int));
        assert(b2.subrange(0, k2 as int) =~= d.subrange(0, k2 as int));
        lemma_wire_unique(l1[0], l2[0], off, d, k1 as int, k2 as int, fmt);
        let dd = d.skip(k1 as int);
        assert(b1.skip(k1 as int) =~= dd.subrange(0, m1 - k1));
        assert(b2.skip(k2 as int) =~= dd.subrange(0, m2 - k2));
        lemma_wire_elems_unique(
            l1.drop_first(),
            l2.drop_first(),
            esig,
            off + k1,
            dd,
            m1 - k1 as int,
            m2 - k2 as int,
            fmt,
        );
    }
}

/// Two field runs with the same packed signature in front of the same data
/// have the same extent and are pointwise equivalent.
proof fn lemma_wire_fields_unique(
    l1: Seq<Value>,
    l2: Seq<Value>,
    off: nat,
    d: Seq<u8>,
    m1: int,
    m2: int,
    fmt: EncodingFormat,
)
    requires
        wf_list(l1),
        wf_list(l2),
        sig_of_list(l1) == sig_of_list(l2),
        0 <= m1 <= d.len(),
        0 <= m2 <= d.len(),
        wire_list(l1, off, d.subrange(0, m1), fmt),
        wire_list(l2, off, d.subrange(0, m2), fmt),
    ensures
        m1 == m2,
        value_list_eq(l1, l2),
    decreases l1, 0int, 0int,
{
    let b1 = d.subrange(0, m1);
    let b2 = d.subrange(0, m2);
    if l1.len() == 0 {
        if l2.len() > 0 {
            crate::value::lemma_sig_head(l2[0]);
            assert(sig_of_list(l2).len() >= 1);
        }
    } else if l2.len() == 0 {
        crate::value::lemma_sig_head(l1[0]);
        assert(sig_of_list(l1).len() >= 1);
    } else {
        let s0a = sig_of(l1[0]);
        let s0b = sig_of(l2[0]);
        let ss = sig_of_list(l1);
        crate::value::lemma_sig_of_single(l1[0]);
        crate::value::lemma_sig_of_single(l2[0]);
        assert(ss.subrange(0, s0a.len() as int) =~= s0a);
        assert(ss.subrange(0, s0b.len() as int) =~= s0b);
        crate::signature::lemma_type_end_localize(ss, 0, s0a.len() as int, 0);
        crate::signature::lemma_type_end_localize(ss, 0, s0b.len() as int, 0);
        assert(crate::signature::type_end(ss, 0) == Some(s0a.len() as int));
        assert(crate::signature::type_end(ss, 0) == Some(s0b.len() as int));
        assert(s0a.len() == s0b.len());
        assert(s0a == s0b);
        let k1 = enc_len(l1[0], off, fmt);
        let k2 = enc_len(l2[0], off, fmt);
        assert(b1.subrange(0, k1 as int) =~= d.subrange(0, k1 as int));
        assert(b2.subrange(0, k2 as int) =~= d.subrange(0, k2 as int));
        lemma_wire_unique(l1[0], l2[0], off, d, k1 as int, k2 as int, fmt);
        let dd = d.skip(k1 as int);
        assert(b1.skip(k1 as int) =~= dd.subrange(0, m1 - k1));
        assert(b2.skip(k2 as int) =~= dd.subrange(0, m2 - k2));
        assert forall|j: int| 0 <= j < sig_of_list(l1.drop_first()).len() implies #[trigger] sig_of_list(
            l1.drop_first(),
        )[j] == sig_of_list(l2.drop_first())[j] by {
            assert(sig_of_list(l1.drop_first())[j] == ss[s0a.len() + j]);
            assert(sig_of_list(l2.drop_first())[j] == sig_of_list(l2)[s0b.len() + j]);
        }
        assert(sig_of_list(l1.drop_first()) =~= sig_of_list(l2.drop_first()));
        lemma_wire_fields_unique(
            l1.drop_first(),
            l2.drop_first(),
            off + k1,
            dd,
            m1 - k1 as int,
            m2 - k2 as int,
            fmt,
        );
    }
}

/// Round trip: any wire image sitting where the encoder put a well-formed
/// value's bytes holds that value back.  With the encoder's and decoder's
/// contracts, this says decoding an encoded value returns an equivalent
/// value and consumes exactly its bytes.
pub proof fn lemma_round_trip(
    x: Value,
    v: Value,
    off: nat,
    d: Seq<u8>,
    n: int,
    fmt: EncodingFormat,
)
    requires
        wf(x),
        enc_ok(x, off, fmt),
        enc_len(x, off, fmt) <= d.len(),
        d.subrange(0, enc_len(x, off, fmt) as int) == enc_value(x, off, fmt),
        wf(v),
        sig_of(v) == sig_of(x),
        0 <= n <= d.len(),
        wire_of(v, off, d.subrange(0, n), fmt),
    ensures
        n == enc_len(x, off, fmt),
        value_eq(v, x),
{
    lemma_enc_is_wire(x, off, fmt);
    lemma_wire_unique(v, x, off, d, n, enc_len(x, off, fmt) as int, fmt);
}

/// An encoded array's length field holds exactly the byte count of its
/// encoded elements, excluding the length field itself and the padding
/// that precedes the first element.
pub proof fn lemma_array_length_field(v: Value, off: nat, fmt: EncodingFormat)
    requires
        v is Array,
        enc_ok(v, off, fmt),
    ensures
        ({
            let pd = pad_amount(off, 4);
            let ea = align_of_code(
                if v->Array_0@.len() > 0 {
                    v->Array_0@[0]
                } else {
                    0u8
                },
            );
            let pd2 = pad_amount(off + pd + 4, ea);
            let body = enc_list(v->Array_1@, off + pd + 4 + pd2, fmt);
            &&& body.len() < 0x100000000
            &&& enc_value(v, off, fmt) == zeros(pd) + fixed_bytes(body.len() as u64, 4, fmt)
                + zeros(pd2) + body
            &&& enc_value(v, off, fmt).subrange(pd as int, (pd + 4) as int) == fixed_bytes(
                body.len() as u64,
                4,
                fmt,
            )
        }),
{
    match v {
        Value::Array(esig, elems) => {
            let pd = pad_amount(off, 4);
            let off2 = off + pd + 4;
            let ea = align_of_code(
                if esig@.len() > 0 {
                    esig@[0]
                } else {
                    0u8
                },
            );
            let pd2 = pad_amount(off2, ea);
            let body = enc_list(elems@, off2 + pd2, fmt);
            lemma_fixed_bytes_len(body.len() as u64, 4, fmt);
            assert(enc_value(v, off, fmt).subrange(pd as int, (pd + 4) as int) =~= fixed_bytes(
                body.len() as u64,
                4,
                fmt,
            ));
        },
        _ => {
        },
    }
}

/// The two byte orders write the same value as mirror images: the
/// big-endian field is the little-endian field reversed.
pub proof fn lemma_endianness_reverse(bits: u64, width: nat)
    requires
        width == 1 || width == 2 || width == 4 || width == 8,
    ensures
        fixed_bytes(bits, width, EncodingFormat::DBusBigEndian) == fixed_bytes(
            bits,
            width,
            EncodingFormat::DBusLittleEndian,
        ).reverse(),
{
}

/// Some well-formed value of signature `sigspan` has a wire image leading
/// `d` at absolute offset `pos`: the condition under which decoding is owed
/// success.
pub open spec fn image_exists(sigspan: Seq<u8>, pos: nat, d: Seq<u8>, fmt: EncodingFormat) -> bool {
    exists|v: Value, n: int|
        {
            &&& wf(v)
            &&& sig_of(v) == sigspan
            &&& 0 <= n <= d.len()
            &&& #[trigger] wire_of(v, pos, d.subrange(0, n), fmt)
        }
}

/// A value's constructor is determined by the first byte of its signature.
pub proof fn lemma_shape_from_sig(v: Value)
    ensures
        sig_of(v).len() >= 1,
        sig_of(v)[0] == 'y' as u8 ==> v is U8,
        sig_of(v)[0] == 'b' as u8 ==> v is Bool,
        sig_of(v)[0] == 'n' as u8 ==> v is I16,
        sig_of(v)[0] == 'q' as u8 ==> v is U16,
        sig_of(v)[0] == 'i' as u8 ==> v is I32,
        sig_of(v)[0] == 'u' as u8 ==> v is U32,
        sig_of(v)[0] == 'x' as u8 ==> v is I64,
        sig_of(v)[0] == 't' as u8 ==> v is U64,
        sig_of(v)[0] == 'd' as u8 ==> v is F64,
        sig_of(v)[0] == 's' as u8 ==> v is Str,
        sig_of(v)[0] == 'o' as u8 ==> v is ObjectPath,
        sig_of(v)[0] == 'g' as u8 ==> v is Signature,
        sig_of(v)[0] == 'a' as u8 ==> v is Array,
        sig_of(v)[0] == '(' as u8 ==> v is Structure,
        sig_of(v)[0] == '{' as u8 ==> v is DictEntry,
        sig_of(v)[0] == 'v' as u8 ==> v is Variant,
{
    match v {
        Value::Array(esig, _) => {
        },
        _ => {
        },
    }
}

/// Splitting a run of element images after a decoded prefix: the remaining
/// elements form an image of the remaining bytes.
#[verifier::rlimit(100)]
#[verifier::spinoff_prover]
pub proof fn lemma_wire_elems_split(
    l: Seq<Value>,
    done: Seq<Value>,
    esig: Seq<u8>,
    off: nat,
    d: Seq<u8>,
    m: int,
    c: int,
    fmt: EncodingFormat,
)
    requires
        wf_elems(l, esig),
        wf_elems(done, esig),
        0 <= c <= m <= d.len(),
        wire_list(l, off, d.subrange(0, m), fmt),
        wire_list(done, off, d.subrange(0, c), fmt),
    ensures
        done.len() <= l.len(),
        wire_list(l.skip(done.len() as int), (off + c) as nat, d.subrange(c, m), fmt),
    decreases done,
{
    if done.len() == 0 {
        assert(c == 0);
        assert(l.skip(0) =~= l);
        assert(d.subrange(0, m) =~= d.subrange(c, m));
    } else {
        if l.len() == 0 {
            assert(m == 0);
            lemma_enc_len_pos(done[0], off, fmt);
            assert(false);
        }
        let kd = enc_len(done[0], off, fmt);
        let kl = enc_len(l[0], off, fmt);
        assert(d.subrange(0, c).subrange(0, kd as int) =~= d.subrange(0, kd as int));
        assert(d.subrange(0, m).subrange(0, kl as int) =~= d.subrange(0, kl as int));
        lemma_wire_unique(done[0], l[0], off, d, kd as int, kl as int, fmt);
        assert(d.subrange(0, c).skip(kd as int) =~= d.skip(kd as int).subrange(0, c - kd));
        assert(d.subrange(0, m).skip(kl as int) =~= d.skip(kd as int).subrange(0, m - kd));
        lemma_wire_elems_split(
            l.drop_first(),
            done.drop_first(),
            esig,
            off + kd,
            d.skip(kd as int),
            m - kd as int,
            c - kd as int,
            fmt,
        );
        assert(l.drop_first().skip((done.len() - 1) as int) =~= l.skip(done.len() as int));
        assert(d.skip(kd as int).subrange(c - kd, m - kd) =~= d.subrange(c, m));
    }
}

/// Splitting a run of field images after a decoded prefix whose signatures
/// lead the run's packed signature.
#[verifier::rlimit(100)]
#[verifier::spinoff_prover]
pub proof fn lemma_wire_fields_split(
    l: Seq<Value>,
    done: Seq<Value>,
    off: nat,
    d: Seq<u8>,
    m: int,
    c: int,
    fmt: EncodingFormat,
)
    requires
        wf_list(l),
        wf_list(done),
        sig_of_list(done).len() <= sig_of_list(l).len(),
        sig_of_list(done) == sig_of_list(l).subrange(0, sig_of_list(done).len() as int),
        0 <= c <= d.len(),
        0 <= m <= d.len(),
        wire_list(l, off, d.subrange(0, m), fmt),
        wire_list(done, off, d.subrange(0, c), fmt),
    ensures
        done.len() <= l.len(),
        c <= m,
        wire_list(l.skip(done.len() as int), (off + c) as nat, d.subrange(c, m), fmt),
        sig_of_list(l.skip(done.len() as int)) == sig_of_list(l).skip(
            sig_of_list(done).len() as int,
        ),
    decreases done,
{
    if done.len() == 0 {
        assert(c == 0);
        assert(l.skip(0) =~= l);
        assert(d.subrange(0, m) =~= d.subrange(c, m));
        assert(sig_of_list(l).skip(0) =~= sig_of_list(l));
    } else {
        crate::value::lemma_sig_head(done[0]);
        assert(sig_of_list(done) == sig_of(done[0]) + sig_of_list(done.drop_first()));
        if l.len() == 0 {
            assert(sig_of_list(l).len() == 0);
            assert(sig_of_list(done).len() == 0);
            assert(false);
        }
        // the first field signatures coincide: both are single complete
        // types leading the same packed signature
        let s0a = sig_of(done[0]);
        let s0b = sig_of(l[0]);
        let ss = sig_of_list(l);
        crate::value::lemma_sig_of_single(done[0]);
        crate::value::lemma_sig_of_single(l[0]);
        let ds = sig_of_list(done);
        assert(s0a.len() <= ds.len());
        assert(ss == s0b + sig_of_list(l.drop_first()));
        assert forall|j: int| 0 <= j < s0a.len() implies #[trigger] ss.subrange(
            0,
            s0a.len() as int,
        )[j] == s0a[j] by {
            assert(ds[j] == ss.subrange(0, ds.len() as int)[j]);
            assert(ds[j] == (s0a + sig_of_list(done.drop_first()))[j]);
        }
        assert(ss.subrange(0, s0a.len() as int) =~= s0a);
        assert(ss.subrange(0, s0b.len() as int) =~= s0b);
        crate::signature::lemma_type_end_localize(ss, 0, s0a.len() as int, 0);
        crate::signature::lemma_type_end_localize(ss, 0, s0b.len() as int, 0);
        assert(crate::signature::type_end(ss, 0) == Some(s0a.len() as int));
        assert(crate::signature::type_end(ss, 0) == Some(s0b.len() as int));
        assert(s0a == s0b);
        let kd = enc_len(done[0], off, fmt);
        let kl = enc_len(l[0], off, fmt);
        assert(d.subrange(0, c).subrange(0, kd as int) =~= d.subrange(0, kd as int));
        assert(d.subrange(0, m).subrange(0, kl as int) =~= d.subrange(0, kl as int));
        lemma_wire_unique(done[0], l[0], off, d, kd as int, kl as int, fmt);
        assert(d.subrange(0, c).skip(kd as int) =~= d.skip(kd as int).subrange(0, c - kd));
        assert(d.subrange(0, m).skip(kl as int) =~= d.skip(kd as int).subrange(0, m - kd));
        let resta = sig_of_list(done.drop_first());
        let restb = sig_of_list(l.drop_first());
        assert(resta.len() <= restb.len());
        assert forall|j: int| 0 <= j < resta.len() implies #[trigger] resta[j] == restb.subrange(
            0,
            resta.len() as int,
        )[j] by {
            assert(resta[j] == ds[s0a.len() + j]);
            assert(ds[s0a.len() + j] == ss.subrange(0, ds.len() as int)[s0a.len() + j]);
            assert(restb[j] == ss[s0b.len() + j]);
        }
        assert(resta =~= restb.subrange(0, resta.len() as int));
        lemma_wire_fields_split(
            l.drop_first(),
            done.drop_first(),
            off + kd,
            d.skip(kd as int),
            m - kd as int,
            c - kd as int,
            fmt,
        );
        assert(l.drop_first().skip((done.len() - 1) as int) =~= l.skip(done.len() as int));
        assert(d.skip(kd as int).subrange(c - kd, m - kd) =~= d.subrange(c, m));
        assert(sig_of_list(l.skip(done.len() as int)) =~= sig_of_list(l).skip(
            sig_of_list(done).len() as int,
        ));
    }
}

} // verus!
