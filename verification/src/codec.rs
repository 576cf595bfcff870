use vstd::prelude::*;

verus! {

use vstd::string::StringSliceAdditionalSpecFns;
use vstd::utf8::{is_ascii_chars, is_ascii_chars_encode_utf8};
use crate::{EncodingFormat, VariantError, pad_amount, padding_for_n_bytes};
use crate::buffer::SharedData;
use crate::signature::Signature;
use crate::value::Value;
use crate::wire::{
    enc_len,
    enc_ok,
    enc_value,
    fixed_val,
    lemma_fixed_bytes_len,
    lemma_fixed_roundtrip,
    scalar_bits,
    scalar_width,
    write_zeros,
    write_u8_bytes,
    write_u16_bytes,
    write_u32_bytes,
    write_u64_bytes,
    read_u8_bytes,
    read_u16_bytes,
    read_u32_bytes,
    read_u64_bytes,
    zeros,
};

/// Checks that at least `size` bytes are available.
pub fn ensure_sufficient_bytes(bytes: &[u8], size: usize) -> (r: Result<(), VariantError>)
    ensures
        match r {
            Ok(_) => bytes@.len() >= size,
            Err(e) => bytes@.len() < size && e == VariantError::InsufficientData,
        },
{
    if bytes.len() < size {
        Err(VariantError::InsufficientData)
    } else {
        Ok(())
    }
}

/// What decoding a fixed-size field of `width` bytes at absolute position
/// `pos` yields: the padded field's value, or `InsufficientData` when the
/// buffer is shorter than padding plus width.
pub open spec fn spec_decode_fixed(data: Seq<u8>, pos: nat, width: nat, fmt: EncodingFormat) -> Result<
    u64,
    VariantError,
> {
    let pd = pad_amount(pos, width);
    if data.len() < pd + width {
        Err(VariantError::InsufficientData)
    } else {
        Ok(fixed_val(data.subrange(pd as int, (pd + width) as int), fmt))
    }
}

/// A one-character ASCII string's bytes are that character's code.
pub proof fn lemma_single_ascii_bytes(s: &str, c: char)
    requires
        s@ =~= seq![c],
        c <= '\u{7f}',
    ensures
        s.spec_bytes() == seq![c as u8],
{
    assert(is_ascii_chars(s@));
    is_ascii_chars_encode_utf8(s@);
    assert(s.spec_bytes() =~= seq![c as u8]);
}

/// A typed value that can be marshalled into wire bytes.
pub trait Encode: Sized {
    /// The type's one-character signature code.
    spec fn spec_sig_char() -> char;

    /// The type's signature, as bytes.
    spec fn spec_sig_bytes() -> Seq<u8>;

    /// The type's wire alignment.
    spec fn spec_align() -> nat;

    /// The dynamic value this typed value turns into.
    spec fn spec_to_variant(self) -> Value;

    fn signature_char() -> (c: char)
        ensures
            c == Self::spec_sig_char(),
    ;

    fn signature_str() -> (s: &'static str)
        ensures
            s.spec_bytes() == Self::spec_sig_bytes(),
    ;

    fn alignment() -> (a: usize)
        ensures
            a == Self::spec_align(),
    ;

    /// Encodes this value as the first data in a message.
    fn encode(&self, format: EncodingFormat) -> (r: Vec<u8>)
        requires
            enc_ok((*self).spec_to_variant(), 0, format),
            enc_len((*self).spec_to_variant(), 0, format) <= usize::MAX,
        ensures
            r@ == enc_value((*self).spec_to_variant(), 0, format),
    {
        let mut bytes: Vec<u8> = Vec::new();
        self.encode_into(&mut bytes, format);
        bytes
    }

    /// Appends this value's padding and bytes to `bytes`.
    fn encode_into(&self, bytes: &mut Vec<u8>, format: EncodingFormat)
        requires
            enc_ok((*self).spec_to_variant(), old(bytes)@.len() as nat, format),
            old(bytes)@.len() + enc_len((*self).spec_to_variant(), old(bytes)@.len() as nat, format)
                <= usize::MAX,
        ensures
            final(bytes)@ == old(bytes)@ + enc_value(
                (*self).spec_to_variant(),
                old(bytes)@.len() as nat,
                format,
            ),
    ;

    fn signature(&self) -> (s: Signature)
        ensures
            s@ == Self::spec_sig_bytes(),
    {
        Signature::new(Self::signature_str())
    }

    /// Appends the zero bytes that bring `bytes` up to this type's alignment.
    fn add_padding(bytes: &mut Vec<u8>, format: EncodingFormat)
        requires
            1 <= Self::spec_align() <= 8,
            old(bytes)@.len() + 8 <= usize::MAX,
        ensures
            final(bytes)@ == old(bytes)@ + zeros(
                pad_amount(old(bytes)@.len() as nat, Self::spec_align()),
            ),
    {
        let padding = Self::padding(bytes.len(), format);
        write_zeros(bytes, padding);
    }

    /// The number of padding bytes this type needs after `n_bytes_before`.
    fn padding(n_bytes_before: usize, format: EncodingFormat) -> (p: usize)
        requires
            1 <= Self::spec_align() <= 8,
        ensures
            p == pad_amount(n_bytes_before as nat, Self::spec_align()),
            p < Self::spec_align(),
    {
        padding_for_n_bytes(n_bytes_before, Self::alignment())
    }

    /// Wraps this value in the dynamic [`Value`] union.
    fn to_variant(self) -> (v: Value)
        ensures
            v == self.spec_to_variant(),
    ;
}

/// A typed value that can be reconstructed from wire bytes.
pub trait Decode: Encode {
    /// The typed value held by a dynamic value, when the tag matches.
    spec fn spec_of_value(v: Value) -> Option<Self>;

    /// What decoding this type at the buffer's position yields.
    spec fn spec_decoded(data: Seq<u8>, pos: nat, fmt: EncodingFormat) -> Result<
        Self,
        VariantError,
    >;

    /// Decodes one value of this type from the front of `data`.
    fn decode(data: &SharedData, signature: &Signature, format: EncodingFormat) -> (r: Result<
        Self,
        VariantError,
    >)
        ensures
            r == if signature@ == Self::spec_sig_bytes() {
                Self::spec_decoded(data@, data.spec_position(), format)
            } else {
                Err::<Self, VariantError>(VariantError::IncorrectType)
            },
    ;

    /// The byte range (padding included) this type occupies at the front of
    /// `data`.
    fn slice_data(data: &SharedData, signature: &Signature, format: EncodingFormat) -> (r: Result<
        SharedData,
        VariantError,
    >)
        requires
            1 <= Self::spec_align() <= 8,
        ensures
            match r {
                Ok(sub) => {
                    let pd = pad_amount(data.spec_position(), Self::spec_align());
                    &&& signature@ == Self::spec_sig_bytes()
                    &&& data@.len() >= pd + Self::spec_align()
                    &&& sub@ == data@.subrange(0, (pd + Self::spec_align()) as int)
                    &&& sub.spec_position() == data.spec_position()
                },
                Err(e) => {
                    ||| (signature@ != Self::spec_sig_bytes() && e == VariantError::IncorrectType)
                    ||| (signature@ == Self::spec_sig_bytes() && data@.len() < pad_amount(
                        data.spec_position(),
                        Self::spec_align(),
                    ) + Self::spec_align() && e == VariantError::InsufficientData)
                },
            },
    {
        match Self::ensure_correct_signature(signature) {
            Ok(_) => (),
            Err(e) => {
                return Err(e);
            },
        };
        let padding = Self::padding(data.position(), format);
        let len = Self::alignment() + padding;
        match ensure_sufficient_bytes(data.bytes(), len) {
            Ok(_) => (),
            Err(e) => {
                return Err(e);
            },
        };
        Ok(data.subset(0, len))
    }

    /// Checks that `signature` is exactly this type's signature.
    fn ensure_correct_signature(signature: &Signature) -> (r: Result<Signature, VariantError>)
        ensures
            match r {
                Ok(s) => s@ == signature@ && signature@ == Self::spec_sig_bytes(),
                Err(e) => signature@ != Self::spec_sig_bytes() && e == VariantError::IncorrectType,
            },
    {
        let expected = Signature::new(Self::signature_str());
        if signature.eq_bytes(&expected) {
            Ok(signature.clone())
        } else {
            Err(VariantError::IncorrectType)
        }
    }

    /// Slices this type's signature off the front of `signature`.
    fn slice_signature(signature: &Signature) -> (r: Result<Signature, VariantError>)
        ensures
            match r {
                Ok(s) => s@ == Self::spec_sig_bytes() && signature@.len() >= 1
                    && signature@.subrange(0, 1) == Self::spec_sig_bytes(),
                Err(e) => e == VariantError::IncorrectType && (signature@.len() == 0
                    || signature@.subrange(0, 1) != Self::spec_sig_bytes()),
            },
    {
        if signature.len() < 1 {
            return Err(VariantError::IncorrectType);
        }
        let slice = signature.slice(0, 1);
        Self::ensure_correct_signature(&slice)
    }

    /// The bytes of this value with its leading padding removed: what the
    /// value proper is decoded from.
    fn slice_for_decoding(data: &SharedData, signature: &Signature, format: EncodingFormat) -> (r:
        Result<SharedData, VariantError>)
        requires
            1 <= Self::spec_align() <= 8,
        ensures
            match r {
                Ok(sub) => {
                    let pd = pad_amount(data.spec_position(), Self::spec_align());
                    &&& signature@ == Self::spec_sig_bytes()
                    &&& data@.len() >= pd + Self::spec_align()
                    &&& sub@ == data@.subrange(pd as int, data@.len() as int)
                    &&& sub.spec_position() == data.spec_position() + pd
                },
                Err(e) => {
                    ||| (signature@ != Self::spec_sig_bytes() && e == VariantError::IncorrectType)
                    ||| (signature@ == Self::spec_sig_bytes() && data@.len() < pad_amount(
                        data.spec_position(),
                        Self::spec_align(),
                    ) + Self::spec_align() && e == VariantError::InsufficientData)
                },
            },
    {
        match Self::ensure_correct_signature(signature) {
            Ok(_) => (),
            Err(e) => {
                return Err(e);
            },
        };
        let padding = Self::padding(data.position(), format);
        let len = Self::alignment() + padding;
        match ensure_sufficient_bytes(data.bytes(), len) {
            Ok(_) => (),
            Err(e) => {
                return Err(e);
            },
        };
        Ok(data.tail(padding))
    }

    /// Checks whether the dynamic value holds this type.
    fn is(variant: &Value) -> (b: bool)
        ensures
            b == (Self::spec_of_value(*variant) is Some),
    ;

    /// Takes this type's value out of the dynamic value.
    fn take_from_variant(variant: Value) -> (r: Result<Self, VariantError>)
        ensures
            r == match Self::spec_of_value(variant) {
                Some(v) => Ok::<Self, VariantError>(v),
                None => Err::<Self, VariantError>(VariantError::IncorrectType),
            },
    ;

    /// Borrows this type's value out of the dynamic value.
    fn from_variant(variant: &Value) -> (r: Result<&Self, VariantError>)
        ensures
            match r {
                Ok(v) => Self::spec_of_value(*variant) == Some(*v),
                Err(e) => Self::spec_of_value(*variant) is None && e
                    == VariantError::IncorrectType,
            },
    ;
}

/// Decoding without an explicit signature, for types whose signature is
/// fixed.
pub trait SimpleDecode: Decode {
    fn slice_data_simple(data: &SharedData, format: EncodingFormat) -> (r: Result<
        SharedData,
        VariantError,
    >)
        requires
            1 <= Self::spec_align() <= 8,
        ensures
            match r {
                Ok(sub) => {
                    let pd = pad_amount(data.spec_position(), Self::spec_align());
                    &&& data@.len() >= pd + Self::spec_align()
                    &&& sub@ == data@.subrange(0, (pd + Self::spec_align()) as int)
                    &&& sub.spec_position() == data.spec_position()
                },
                Err(e) => data@.len() < pad_amount(data.spec_position(), Self::spec_align())
                    + Self::spec_align() && e == VariantError::InsufficientData,
            },
    {
        let sig = Signature::new(Self::signature_str());
        Self::slice_data(data, &sig, format)
    }

    fn decode_simple(data: &SharedData, format: EncodingFormat) -> (r: Result<Self, VariantError>)
        ensures
            r == Self::spec_decoded(data@, data.spec_position(), format),
    {
        let sig = Signature::new(Self::signature_str());
        Self::decode(data, &sig, format)
    }
}

impl Encode for u8 {
    open spec fn spec_sig_char() -> char {
        'y'
    }

    open spec fn spec_sig_bytes() -> Seq<u8> {
        seq!['y' as u8]
    }

    open spec fn spec_align() -> nat {
        1
    }

    open spec fn spec_to_variant(self) -> Value {
        Value::U8(self)
    }

    fn signature_char() -> (c: char) {
        'y'
    }

    fn signature_str() -> (s: &'static str) {
        proof {
            reveal_strlit("y");
            lemma_single_ascii_bytes("y", 'y');
        }
        "y"
    }

    fn alignment() -> (a: usize) {
        1
    }

    fn encode_into(&self, bytes: &mut Vec<u8>, format: EncodingFormat) {
        proof {
            lemma_fixed_bytes_len(scalar_bits(Value::U8(*self)), 1, format);
        }
        let p = padding_for_n_bytes(bytes.len(), 1);
        write_zeros(bytes, p);
        write_u8_bytes(bytes, *self, format);
        proof {
            assert(bytes@ =~= old(bytes)@ + enc_value(
                Value::U8(*self),
                old(bytes)@.len() as nat,
                format,
            ));
        }
    }

    fn to_variant(self) -> (v: Value) {
        Value::U8(self)
    }
}

impl Decode for u8 {
    open spec fn spec_of_value(v: Value) -> Option<u8> {
        match v {
            Value::U8(x) => Some(x),
            _ => None,
        }
    }

    open spec fn spec_decoded(data: Seq<u8>, pos: nat, fmt: EncodingFormat) -> Result<
        u8,
        VariantError,
    > {
        match spec_decode_fixed(data, pos, 1, fmt) {
            Ok(n) => Ok(n as u8),
            Err(e) => Err(e),
        }
    }

    fn decode(data: &SharedData, signature: &Signature, format: EncodingFormat) -> (r: Result<
        u8,
        VariantError,
    >) {
        let slice = match Self::slice_for_decoding(data, signature, format) {
            Ok(s) => s,
            Err(e) => {
                return Err(e);
            },
        };
        let x = read_u8_bytes(&slice, 0, format);
        proof {
            let pos = data.spec_position();
            let pd = pad_amount(pos, 1);
            assert(data@.subrange(pd as int, (pd + 1) as int) =~= slice@.subrange(0, 1));
            lemma_fixed_roundtrip(x as u64, 1, format);
        }
        Ok(x)
    }

    fn is(variant: &Value) -> (b: bool) {
        match variant {
            Value::U8(_) => true,
            _ => false,
        }
    }

    fn take_from_variant(variant: Value) -> (r: Result<u8, VariantError>) {
        match variant {
            Value::U8(x) => Ok(x),
            _ => Err(VariantError::IncorrectType),
        }
    }

    fn from_variant(variant: &Value) -> (r: Result<&u8, VariantError>) {
        match variant {
            Value::U8(x) => Ok(x),
            _ => Err(VariantError::IncorrectType),
        }
    }
}

impl SimpleDecode for u8 {

}


impl Encode for bool {
    open spec fn spec_sig_char() -> char {
        'b'
    }

    open spec fn spec_sig_bytes() -> Seq<u8> {
        seq!['b' as u8]
    }

    open spec fn spec_align() -> nat {
        4
    }

    open spec fn spec_to_variant(self) -> Value {
        Value::Bool(self)
    }

    fn signature_char() -> (c: char) {
        'b'
    }

    fn signature_str() -> (s: &'static str) {
        proof {
            reveal_strlit("b");
            lemma_single_ascii_bytes("b", 'b');
        }
        "b"
    }

    fn alignment() -> (a: usize) {
        4
    }

    fn encode_into(&self, bytes: &mut Vec<u8>, format: EncodingFormat) {
        proof {
            lemma_fixed_bytes_len(scalar_bits(Value::Bool(*self)), 4, format);
        }
        let p = padding_for_n_bytes(bytes.len(), 4);
        write_zeros(bytes, p);
        let bits: u32 = if *self { 1 } else { 0 };
        write_u32_bytes(bytes, bits, format);
        proof {
            assert(bytes@ =~= old(bytes)@ + enc_value(
                Value::Bool(*self),
                old(bytes)@.len() as nat,
                format,
            ));
        }
    }

    fn to_variant(self) -> (v: Value) {
        Value::Bool(self)
    }
}

impl Decode for bool {
    open spec fn spec_of_value(v: Value) -> Option<bool> {
        match v {
            Value::Bool(x) => Some(x),
            _ => None,
        }
    }

    open spec fn spec_decoded(data: Seq<u8>, pos: nat, fmt: EncodingFormat) -> Result<
        bool,
        VariantError,
    > {
        match spec_decode_fixed(data, pos, 4, fmt) {
            Ok(n) => if n == 0 {
                Ok(false)
            } else if n == 1 {
                Ok(true)
            } else {
                Err(VariantError::IncorrectValue)
            },
            Err(e) => Err(e),
        }
    }

    fn decode(data: &SharedData, signature: &Signature, format: EncodingFormat) -> (r: Result<
        bool,
        VariantError,
    >) {
        let slice = match Self::slice_for_decoding(data, signature, format) {
            Ok(s) => s,
            Err(e) => {
                return Err(e);
            },
        };
        let x = read_u32_bytes(&slice, 0, format);
        proof {
            let pos = data.spec_position();
            let pd = pad_amount(pos, 4);
            assert(data@.subrange(pd as int, (pd + 4) as int) =~= slice@.subrange(0, 4));
            lemma_fixed_roundtrip(x as u64, 4, format);
        }
        if x == 0 {
            Ok(false)
        } else if x == 1 {
            Ok(true)
        } else {
            Err(VariantError::IncorrectValue)
        }
    }

    fn is(variant: &Value) -> (b: bool) {
        match variant {
            Value::Bool(_) => true,
            _ => false,
        }
    }

    fn take_from_variant(variant: Value) -> (r: Result<bool, VariantError>) {
        match variant {
            Value::Bool(x) => Ok(x),
            _ => Err(VariantError::IncorrectType),
        }
    }

    fn from_variant(variant: &Value) -> (r: Result<&bool, VariantError>) {
        match variant {
            Value::Bool(x) => Ok(x),
            _ => Err(VariantError::IncorrectType),
        }
    }
}

impl SimpleDecode for bool {

}

impl Encode for i16 {
    open spec fn spec_sig_char() -> char {
        'n'
    }

    open spec fn spec_sig_bytes() -> Seq<u8> {
        seq!['n' as u8]
    }

    open spec fn spec_align() -> nat {
        2
    }

    open spec fn spec_to_variant(self) -> Value {
        Value::I16(self)
    }

    fn signature_char() -> (c: char) {
        'n'
    }

    fn signature_str() -> (s: &'static str) {
        proof {
            reveal_strlit("n");
            lemma_single_ascii_bytes("n", 'n');
        }
        "n"
    }

    fn alignment() -> (a: usize) {
        2
    }

    fn encode_into(&self, bytes: &mut Vec<u8>, format: EncodingFormat) {
        proof {
            lemma_fixed_bytes_len(scalar_bits(Value::I16(*self)), 2, format);
        }
        let p = padding_for_n_bytes(bytes.len(), 2);
        write_zeros(bytes, p);
        let bits: u16 = #[verifier::truncate] (*self as u16);
        write_u16_bytes(bytes, bits, format);
        proof {
            assert(bytes@ =~= old(bytes)@ + enc_value(
                Value::I16(*self),
                old(bytes)@.len() as nat,
                format,
            ));
        }
    }

    fn to_variant(self) -> (v: Value) {
        Value::I16(self)
    }
}

impl Decode for i16 {
    open spec fn spec_of_value(v: Value) -> Option<i16> {
        match v {
            Value::I16(x) => Some(x),
            _ => None,
        }
    }

    open spec fn spec_decoded(data: Seq<u8>, pos: nat, fmt: EncodingFormat) -> Result<
        i16,
        VariantError,
    > {
        match spec_decode_fixed(data, pos, 2, fmt) {
            Ok(n) => Ok((n as u16) as i16),
            Err(e) => Err(e),
        }
    }

    fn decode(data: &SharedData, signature: &Signature, format: EncodingFormat) -> (r: Result<
        i16,
        VariantError,
    >) {
        let slice = match Self::slice_for_decoding(data, signature, format) {
            Ok(s) => s,
            Err(e) => {
                return Err(e);
            },
        };
        let x = read_u16_bytes(&slice, 0, format);
        proof {
            let pos = data.spec_position();
            let pd = pad_amount(pos, 2);
            assert(data@.subrange(pd as int, (pd + 2) as int) =~= slice@.subrange(0, 2));
            lemma_fixed_roundtrip(x as u64, 2, format);
        }
        let v: i16 = #[verifier::truncate] (x as i16);
        Ok(v)
    }

    fn is(variant: &Value) -> (b: bool) {
        match variant {
            Value::I16(_) => true,
            _ => false,
        }
    }

    fn take_from_variant(variant: Value) -> (r: Result<i16, VariantError>) {
        match variant {
            Value::I16(x) => Ok(x),
            _ => Err(VariantError::IncorrectType),
        }
    }

    fn from_variant(variant: &Value) -> (r: Result<&i16, VariantError>) {
        match variant {
            Value::I16(x) => Ok(x),
            _ => Err(VariantError::IncorrectType),
        }
    }
}

impl SimpleDecode for i16 {

}

impl Encode for u16 {
    open spec fn spec_sig_char() -> char {
        'q'
    }

    open spec fn spec_sig_bytes() -> Seq<u8> {
        seq!['q' as u8]
    }

    open spec fn spec_align() -> nat {
        2
    }

    open spec fn spec_to_variant(self) -> Value {
        Value::U16(self)
    }

    fn signature_char() -> (c: char) {
        'q'
    }

    fn signature_str() -> (s: &'static str) {
        proof {
            reveal_strlit("q");
            lemma_single_ascii_bytes("q", 'q');
        }
        "q"
    }

    fn alignment() -> (a: usize) {
        2
    }

    fn encode_into(&self, bytes: &mut Vec<u8>, format: EncodingFormat) {
        proof {
            lemma_fixed_bytes_len(scalar_bits(Value::U16(*self)), 2, format);
        }
        let p = padding_for_n_bytes(bytes.len(), 2);
        write_zeros(bytes, p);
        let bits: u16 = *self;
        write_u16_bytes(bytes, bits, format);
        proof {
            assert(bytes@ =~= old(bytes)@ + enc_value(
                Value::U16(*self),
                old(bytes)@.len() as nat,
                format,
            ));
        }
    }

    fn to_variant(self) -> (v: Value) {
        Value::U16(self)
    }
}

impl Decode for u16 {
    open spec fn spec_of_value(v: Value) -> Option<u16> {
        match v {
            Value::U16(x) => Some(x),
            _ => None,
        }
    }

    open spec fn spec_decoded(data: Seq<u8>, pos: nat, fmt: EncodingFormat) -> Result<
        u16,
        VariantError,
    > {
        match spec_decode_fixed(data, pos, 2, fmt) {
            Ok(n) => Ok(n as u16),
            Err(e) => Err(e),
        }
    }

    fn decode(data: &SharedData, signature: &Signature, format: EncodingFormat) -> (r: Result<
        u16,
        VariantError,
    >) {
        let slice = match Self::slice_for_decoding(data, signature, format) {
            Ok(s) => s,
            Err(e) => {
                return Err(e);
            },
        };
        let x = read_u16_bytes(&slice, 0, format);
        proof {
            let pos = data.spec_position();
            let pd = pad_amount(pos, 2);
            assert(data@.subrange(pd as int, (pd + 2) as int) =~= slice@.subrange(0, 2));
            lemma_fixed_roundtrip(x as u64, 2, format);
        }
        Ok(x)
    }

    fn is(variant: &Value) -> (b: bool) {
        match variant {
            Value::U16(_) => true,
            _ => false,
        }
    }

    fn take_from_variant(variant: Value) -> (r: Result<u16, VariantError>) {
        match variant {
            Value::U16(x) => Ok(x),
            _ => Err(VariantError::IncorrectType),
        }
    }

    fn from_variant(variant: &Value) -> (r: Result<&u16, VariantError>) {
        match variant {
            Value::U16(x) => Ok(x),
            _ => Err(VariantError::IncorrectType),
        }
    }
}

impl SimpleDecode for u16 {

}

impl Encode for i32 {
    open spec fn spec_sig_char() -> char {
        'i'
    }

    open spec fn spec_sig_bytes() -> Seq<u8> {
        seq!['i' as u8]
    }

    open spec fn spec_align() -> nat {
        4
    }

    open spec fn spec_to_variant(self) -> Value {
        Value::I32(self)
    }

    fn signature_char() -> (c: char) {
        'i'
    }

    fn signature_str() -> (s: &'static str) {
        proof {
            reveal_strlit("i");
            lemma_single_ascii_bytes("i", 'i');
        }
        "i"
    }

    fn alignment() -> (a: usize) {
        4
    }

    fn encode_into(&self, bytes: &mut Vec<u8>, format: EncodingFormat) {
        proof {
            lemma_fixed_bytes_len(scalar_bits(Value::I32(*self)), 4, format);
        }
        let p = padding_for_n_bytes(bytes.len(), 4);
        write_zeros(bytes, p);
        let bits: u32 = #[verifier::truncate] (*self as u32);
        write_u32_bytes(bytes, bits, format);
        proof {
            assert(bytes@ =~= old(bytes)@ + enc_value(
                Value::I32(*self),
                old(bytes)@.len() as nat,
                format,
            ));
        }
    }

    fn to_variant(self) -> (v: Value) {
        Value::I32(self)
    }
}

impl Decode for i32 {
    open spec fn spec_of_value(v: Value) -> Option<i32> {
        match v {
            Value::I32(x) => Some(x),
            _ => None,
        }
    }

    open spec fn spec_decoded(data: Seq<u8>, pos: nat, fmt: EncodingFormat) -> Result<
        i32,
        VariantError,
    > {
        match spec_decode_fixed(data, pos, 4, fmt) {
            Ok(n) => Ok((n as u32) as i32),
            Err(e) => Err(e),
        }
    }

    fn decode(data: &SharedData, signature: &Signature, format: EncodingFormat) -> (r: Result<
        i32,
        VariantError,
    >) {
        let slice = match Self::slice_for_decoding(data, signature, format) {
            Ok(s) => s,
            Err(e) => {
                return Err(e);
            },
        };
        let x = read_u32_bytes(&slice, 0, format);
        proof {
            let pos = data.spec_position();
            let pd = pad_amount(pos, 4);
            assert(data@.subrange(pd as int, (pd + 4) as int) =~= slice@.subrange(0, 4));
            lemma_fixed_roundtrip(x as u64, 4, format);
        }
        let v: i32 = #[verifier::truncate] (x as i32);
        Ok(v)
    }

    fn is(variant: &Value) -> (b: bool) {
        match variant {
            Value::I32(_) => true,
            _ => false,
        }
    }

    fn take_from_variant(variant: Value) -> (r: Result<i32, VariantError>) {
        match variant {
            Value::I32(x) => Ok(x),
            _ => Err(VariantError::IncorrectType),
        }
    }

    fn from_variant(variant: &Value) -> (r: Result<&i32, VariantError>) {
        match variant {
            Value::I32(x) => Ok(x),
            _ => Err(VariantError::IncorrectType),
        }
    }
}

impl SimpleDecode for i32 {

}

impl Encode for u32 {
    open spec fn spec_sig_char() -> char {
        'u'
    }

    open spec fn spec_sig_bytes() -> Seq<u8> {
        seq!['u' as u8]
    }

    open spec fn spec_align() -> nat {
        4
    }

    open spec fn spec_to_variant(self) -> Value {
        Value::U32(self)
    }

    fn signature_char() -> (c: char) {
        'u'
    }

    fn signature_str() -> (s: &'static str) {
        proof {
            reveal_strlit("u");
            lemma_single_ascii_bytes("u", 'u');
        }
        "u"
    }

    fn alignment() -> (a: usize) {
        4
    }

    fn encode_into(&self, bytes: &mut Vec<u8>, format: EncodingFormat) {
        proof {
            lemma_fixed_bytes_len(scalar_bits(Value::U32(*self)), 4, format);
        }
        let p = padding_for_n_bytes(bytes.len(), 4);
        write_zeros(bytes, p);
        let bits: u32 = *self;
        write_u32_bytes(bytes, bits, format);
        proof {
            assert(bytes@ =~= old(bytes)@ + enc_value(
                Value::U32(*self),
                old(bytes)@.len() as nat,
                format,
            ));
        }
    }

    fn to_variant(self) -> (v: Value) {
        Value::U32(self)
    }
}

impl Decode for u32 {
    open spec fn spec_of_value(v: Value) -> Option<u32> {
        match v {
            Value::U32(x) => Some(x),
            _ => None,
        }
    }

    open spec fn spec_decoded(data: Seq<u8>, pos: nat, fmt: EncodingFormat) -> Result<
        u32,
        VariantError,
    > {
        match spec_decode_fixed(data, pos, 4, fmt) {
            Ok(n) => Ok(n as u32),
            Err(e) => Err(e),
        }
    }

    fn decode(data: &SharedData, signature: &Signature, format: EncodingFormat) -> (r: Result<
        u32,
        VariantError,
    >) {
        let slice = match Self::slice_for_decoding(data, signature, format) {
            Ok(s) => s,
            Err(e) => {
                return Err(e);
            },
        };
        let x = read_u32_bytes(&slice, 0, format);
        proof {
            let pos = data.spec_position();
            let pd = pad_amount(pos, 4);
            assert(data@.subrange(pd as int, (pd + 4) as int) =~= slice@.subrange(0, 4));
            lemma_fixed_roundtrip(x as u64, 4, format);
        }
        Ok(x)
    }

    fn is(variant: &Value) -> (b: bool) {
        match variant {
            Value::U32(_) => true,
            _ => false,
        }
    }

    fn take_from_variant(variant: Value) -> (r: Result<u32, VariantError>) {
        match variant {
            Value::U32(x) => Ok(x),
            _ => Err(VariantError::IncorrectType),
        }
    }

    fn from_variant(variant: &Value) -> (r: Result<&u32, VariantError>) {
        match variant {
            Value::U32(x) => Ok(x),
            _ => Err(VariantError::IncorrectType),
        }
    }
}

impl SimpleDecode for u32 {

}

impl Encode for i64 {
    open spec fn spec_sig_char() -> char {
        'x'
    }

    open spec fn spec_sig_bytes() -> Seq<u8> {
        seq!['x' as u8]
    }

    open spec fn spec_align() -> nat {
        8
    }

    open spec fn spec_to_variant(self) -> Value {
        Value::I64(self)
    }

    fn signature_char() -> (c: char) {
        'x'
    }

    fn signature_str() -> (s: &'static str) {
        proof {
            reveal_strlit("x");
            lemma_single_ascii_bytes("x", 'x');
        }
        "x"
    }

    fn alignment() -> (a: usize) {
        8
    }

    fn encode_into(&self, bytes: &mut Vec<u8>, format: EncodingFormat) {
        proof {
            lemma_fixed_bytes_len(scalar_bits(Value::I64(*self)), 8, format);
        }
        let p = padding_for_n_bytes(bytes.len(), 8);
        write_zeros(bytes, p);
        let bits: u64 = #[verifier::truncate] (*self as u64);
        write_u64_bytes(bytes, bits, format);
        proof {
            assert(bytes@ =~= old(bytes)@ + enc_value(
                Value::I64(*self),
                old(bytes)@.len() as nat,
                format,
            ));
        }
    }

    fn to_variant(self) -> (v: Value) {
        Value::I64(self)
    }
}

impl Decode for i64 {
    open spec fn spec_of_value(v: Value) -> Option<i64> {
        match v {
            Value::I64(x) => Some(x),
            _ => None,
        }
    }

    open spec fn spec_decoded(data: Seq<u8>, pos: nat, fmt: EncodingFormat) -> Result<
        i64,
        VariantError,
    > {
        match spec_decode_fixed(data, pos, 8, fmt) {
            Ok(n) => Ok(n as i64),
            Err(e) => Err(e),
        }
    }

    fn decode(data: &SharedData, signature: &Signature, format: EncodingFormat) -> (r: Result<
        i64,
        VariantError,
    >) {
        let slice = match Self::slice_for_decoding(data, signature, format) {
            Ok(s) => s,
            Err(e) => {
                return Err(e);
            },
        };
        let x = read_u64_bytes(&slice, 0, format);
        proof {
            let pos = data.spec_position();
            let pd = pad_amount(pos, 8);
            assert(data@.subrange(pd as int, (pd + 8) as int) =~= slice@.subrange(0, 8));
            lemma_fixed_roundtrip(x as u64, 8, format);
        }
        let v: i64 = #[verifier::truncate] (x as i64);
        Ok(v)
    }

    fn is(variant: &Value) -> (b: bool) {
        match variant {
            Value::I64(_) => true,
            _ => false,
        }
    }

    fn take_from_variant(variant: Value) -> (r: Result<i64, VariantError>) {
        match variant {
            Value::I64(x) => Ok(x),
            _ => Err(VariantError::IncorrectType),
        }
    }

    fn from_variant(variant: &Value) -> (r: Result<&i64, VariantError>) {
        match variant {
            Value::I64(x) => Ok(x),
            _ => Err(VariantError::IncorrectType),
        }
    }
}

impl SimpleDecode for i64 {

}

impl Encode for u64 {
    open spec fn spec_sig_char() -> char {
        't'
    }

    open spec fn spec_sig_bytes() -> Seq<u8> {
        seq!['t' as u8]
    }

    open spec fn spec_align() -> nat {
        8
    }

    open spec fn spec_to_variant(self) -> Value {
        Value::U64(self)
    }

    fn signature_char() -> (c: char) {
        't'
    }

    fn signature_str() -> (s: &'static str) {
        proof {
            reveal_strlit("t");
            lemma_single_ascii_bytes("t", 't');
        }
        "t"
    }

    fn alignment() -> (a: usize) {
        8
    }

    fn encode_into(&self, bytes: &mut Vec<u8>, format: EncodingFormat) {
        proof {
            lemma_fixed_bytes_len(scalar_bits(Value::U64(*self)), 8, format);
        }
        let p = padding_for_n_bytes(bytes.len(), 8);
        write_zeros(bytes, p);
        let bits: u64 = *self;
        write_u64_bytes(bytes, bits, format);
        proof {
            assert(bytes@ =~= old(bytes)@ + enc_value(
                Value::U64(*self),
                old(bytes)@.len() as nat,
                format,
            ));
        }
    }

    fn to_variant(self) -> (v: Value) {
        Value::U64(self)
    }
}

impl Decode for u64 {
    open spec fn spec_of_value(v: Value) -> Option<u64> {
        match v {
            Value::U64(x) => Some(x),
            _ => None,
        }
    }

    open spec fn spec_decoded(data: Seq<u8>, pos: nat, fmt: EncodingFormat) -> Result<
        u64,
        VariantError,
    > {
        match spec_decode_fixed(data, pos, 8, fmt) {
            Ok(n) => Ok(n),
            Err(e) => Err(e),
        }
    }

    fn decode(data: &SharedData, signature: &Signature, format: EncodingFormat) -> (r: Result<
        u64,
        VariantError,
    >) {
        let slice = match Self::slice_for_decoding(data, signature, format) {
            Ok(s) => s,
            Err(e) => {
                return Err(e);
            },
        };
        let x = read_u64_bytes(&slice, 0, format);
        proof {
            let pos = data.spec_position();
            let pd = pad_amount(pos, 8);
            assert(data@.subrange(pd as int, (pd + 8) as int) =~= slice@.subrange(0, 8));
            lemma_fixed_roundtrip(x as u64, 8, format);
        }
        Ok(x)
    }

    fn is(variant: &Value) -> (b: bool) {
        match variant {
            Value::U64(_) => true,
            _ => false,
        }
    }

    fn take_from_variant(variant: Value) -> (r: Result<u64, VariantError>) {
        match variant {
            Value::U64(x) => Ok(x),
            _ => Err(VariantError::IncorrectType),
        }
    }

    fn from_variant(variant: &Value) -> (r: Result<&u64, VariantError>) {
        match variant {
            Value::U64(x) => Ok(x),
            _ => Err(VariantError::IncorrectType),
        }
    }
}

impl SimpleDecode for u64 {

}

} // verus!
