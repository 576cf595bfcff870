use vstd::prelude::*;

verus! {

use vstd::utf8::{encode_utf8, valid_utf8};
use crate::{EncodingFormat, VariantError, pad_amount, padding_for_n_bytes};
use crate::buffer::SharedData;
use crate::signature::{
    Signature,
    align_of_code,
    align_of_code_exec,
    fields_end,
    is_basic_code,
    is_basic_code_exec,
    is_single_type,
    lemma_fields_end_bounds,
    lemma_type_end_bounds,
    lemma_type_end_localize,
    type_end,
    type_end_exec,
};
use crate::value::{
    Value,
    sig_of,
    wf,
    wf_elems,
    wf_list,
    lemma_wf_elems_snoc,
    lemma_wf_elems_skip,
    lemma_wf_list_snoc,
    lemma_wf_list_skip,
    lemma_sig_of_list_snoc,
    lemma_sig_of_single,
    sig_of_list,
};
use crate::codec::Encode;
use crate::wire::{
    enc_len,
    enc_list,
    enc_list_ok,
    enc_ok,
    enc_signature,
    enc_string,
    fixed_val,
    lemma_enc_list_snoc,
    write_zeros,
    enc_value,
    fixed_bytes,
    image_exists,
    image_signature,
    lemma_enc_len_pos,
    lemma_fixed_bytes_len,
    lemma_fixed_roundtrip,
    lemma_shape_from_sig,
    lemma_wire_elems_split,
    lemma_wire_fields_split,
    lemma_wire_len,
    lemma_wire_list_snoc,
    lemma_wire_unique,
    read_u8_bytes,
    read_u16_bytes,
    read_u32_bytes,
    read_u64_bytes,
    scalar_bits,
    scalar_width,
    wire_list,
    wire_of,
    zeros,
};

/// Relies on `String::from_utf8`: returns the string of exactly these bytes
/// when they are valid UTF-8, and nothing otherwise.
#[verifier::external_body]
fn bytes_to_string(bytes: &Vec<u8>) -> (r: Option<String>)
    ensures
        match r {
            Some(s) => encode_utf8(s@) == bytes@,
            None => !valid_utf8(bytes@),
        },
{
    String::from_utf8(bytes.clone()).ok()
}

pub proof fn lemma_i16_bits(x: u16)
    ensures
        ((x as i16) as u16) == x,
{
    assert(((x as i16) as u16) == x) by (bit_vector);
}

pub proof fn lemma_i32_bits(x: u32)
    ensures
        ((x as i32) as u32) == x,
{
    assert(((x as i32) as u32) == x) by (bit_vector);
}

pub proof fn lemma_i64_bits(x: u64)
    ensures
        ((x as i64) as u64) == x,
{
    assert(((x as i64) as u64) == x) by (bit_vector);
}



/// When some array image leads `d`, the buffer reaches past the length
/// field and padding, and covers the element bytes the field announces.
#[verifier::rlimit(100)]
#[verifier::spinoff_prover]
proof fn lemma_array_header_bounds(
    sig: Seq<u8>,
    lo: int,
    hi: int,
    pos: nat,
    d: Seq<u8>,
    fmt: EncodingFormat,
)
    requires
        0 <= lo,
        lo + 1 < hi <= sig.len(),
        sig[lo] == 'a' as u8,
        image_exists(sig.subrange(lo, hi), pos, d, fmt),
    ensures
        ({
            let p = pad_amount(pos, 4);
            let p2 = pad_amount((pos + p + 4) as nat, align_of_code(sig[lo + 1]));
            &&& d.len() >= p + 4 + p2
            &&& d.len() >= p + 4 + p2 + fixed_val(d.subrange(p as int, (p + 4) as int), fmt)
        }),
{
    let (v, n): (Value, int) = choose|v: Value, n: int|
        {
            &&& wf(v)
            &&& sig_of(v) == sig.subrange(lo, hi)
            &&& 0 <= n <= d.len()
            &&& #[trigger] wire_of(v, pos, d.subrange(0, n), fmt)
        };
    lemma_shape_from_sig(v);
    match v {
        Value::Array(e2, l2) => {
            let span = sig.subrange(lo, hi);
            assert(sig_of(v) == seq!['a' as u8] + e2@);
            assert forall|j: int| 0 <= j < e2@.len() implies e2@[j] == span[j + 1] by {
                assert((seq!['a' as u8] + e2@)[j + 1] == e2@[j]);
            }
            assert(e2@.len() == span.len() - 1);
            assert(e2@ =~= sig.subrange(lo + 1, hi));
            let p = pad_amount(pos, 4);
            let p2 = pad_amount((pos + p + 4) as nat, align_of_code(sig[lo + 1]));
            let b = d.subrange(0, n);
            assert(b.subrange(p as int, (p + 4) as int) =~= d.subrange(p as int, (p + 4) as int));
            lemma_fixed_roundtrip(b.skip((p + 4 + p2) as int).len() as u64, 4, fmt);
            assert(n == p + 4 + p2 + b.skip((p + 4 + p2) as int).len());
        },
        _ => {
        },
    }
}

/// When some array image leads `d`, the bytes remaining after a decoded
/// element prefix still hold an element image: decoding the next element is
/// owed success.
#[verifier::rlimit(100)]
#[verifier::spinoff_prover]
proof fn lemma_array_rest_has_image(
    sig: Seq<u8>,
    lo: int,
    hi: int,
    pos: nat,
    d: Seq<u8>,
    esig: Seq<u8>,
    bodyb: Seq<u8>,
    elems: Seq<Value>,
    p: int,
    p2: int,
    lw: u32,
    cur: int,
    edb: Seq<u8>,
    edpos: nat,
    fmt: EncodingFormat,
)
    requires
        0 <= lo,
        lo + 1 < hi <= sig.len(),
        sig[lo] == 'a' as u8,
        esig == sig.subrange(lo + 1, hi),
        p == pad_amount(pos, 4),
        p2 == pad_amount((pos + p + 4) as nat, align_of_code(sig[lo + 1])),
        p + 4 + p2 + lw <= d.len(),
        d.subrange(p, p + 4) == fixed_bytes(lw as u64, 4, fmt),
        bodyb == d.subrange(p + 4 + p2, p + 4 + p2 + lw),
        wf_elems(elems, esig),
        wire_list(elems, (pos + p + 4 + p2) as nat, bodyb.subrange(0, cur), fmt),
        0 <= cur < lw,
        edb == bodyb.skip(cur),
        edpos == pos + p + 4 + p2 + cur,
        image_exists(sig.subrange(lo, hi), pos, d, fmt),
    ensures
        image_exists(esig, edpos, edb, fmt),
{
    let (v, n): (Value, int) = choose|v: Value, n: int|
        {
            &&& wf(v)
            &&& sig_of(v) == sig.subrange(lo, hi)
            &&& 0 <= n <= d.len()
            &&& #[trigger] wire_of(v, pos, d.subrange(0, n), fmt)
        };
    lemma_shape_from_sig(v);
    match v {
        Value::Array(e2, l2) => {
            let span = sig.subrange(lo, hi);
            assert(sig_of(v) == seq!['a' as u8] + e2@);
            assert forall|j: int| 0 <= j < e2@.len() implies e2@[j] == span[j + 1] by {
                assert((seq!['a' as u8] + e2@)[j + 1] == e2@[j]);
            }
            assert(e2@.len() == span.len() - 1);
            assert(e2@ =~= sig.subrange(lo + 1, hi));
            assert(e2@ =~= esig);
            let b = d.subrange(0, n);
            assert(b.subrange(p, p + 4) =~= d.subrange(p, p + 4));
            lemma_fixed_roundtrip(b.skip(p + 4 + p2).len() as u64, 4, fmt);
            lemma_fixed_roundtrip(lw as u64, 4, fmt);
            assert(b.skip(p + 4 + p2).len() == lw);
            assert(n == p + 4 + p2 + lw);
            assert(b.skip(p + 4 + p2) =~= bodyb);
            assert(bodyb.subrange(0, lw as int) =~= bodyb);
            assert(wire_list(l2@, (pos + p + 4 + p2) as nat, bodyb.subrange(0, lw as int), fmt));
            lemma_wire_elems_split(
                l2@,
                elems,
                esig,
                (pos + p + 4 + p2) as nat,
                bodyb,
                lw as int,
                cur,
                fmt,
            );
            let rest = l2@.skip(elems.len() as int);
            assert(bodyb.subrange(cur, lw as int).len() == lw - cur);
            assert(bodyb.subrange(cur, lw as int) =~= edb);
            assert(rest.len() > 0);
            let e0 = rest[0];
            let k = enc_len(e0, edpos, fmt);
            lemma_wf_elems_skip(l2@, esig, elems.len() as int);
            assert(wf(e0) && sig_of(e0) == esig);
            assert(wire_of(e0, edpos, edb.subrange(0, k as int), fmt));
            assert(0 <= k <= edb.len());
        },
        _ => {
        },
    }
}

/// When some structure image leads `d`, the bytes remaining after a decoded
/// field prefix still hold an image of the next field: decoding it is owed
/// success.
#[verifier::rlimit(100)]
#[verifier::spinoff_prover]
proof fn lemma_struct_rest_has_image(
    sig: Seq<u8>,
    lo: int,
    hi: int,
    pos: nat,
    d: Seq<u8>,
    fields: Seq<Value>,
    p8: int,
    cur: int,
    sigpos: int,
    ce: int,
    edb: Seq<u8>,
    edpos: nat,
    fmt: EncodingFormat,
)
    requires
        0 <= lo,
        lo + 1 <= sigpos,
        sigpos + 1 < hi <= sig.len(),
        sig[lo] == '(' as u8,
        p8 == pad_amount(pos, 8),
        p8 <= cur <= d.len(),
        wf_list(fields),
        sig_of_list(fields) == sig.subrange(lo + 1, sigpos),
        wire_list(fields, (pos + p8) as nat, d.subrange(p8, cur), fmt),
        fields_end(sig, sigpos) == Some(hi),
        type_end(sig, sigpos) == Some(ce),
        edb == d.skip(cur),
        edpos == pos + cur,
        image_exists(sig.subrange(lo, hi), pos, d, fmt),
    ensures
        image_exists(sig.subrange(sigpos, ce), edpos, edb, fmt),
{
    let (v, n): (Value, int) = choose|v: Value, n: int|
        {
            &&& wf(v)
            &&& sig_of(v) == sig.subrange(lo, hi)
            &&& 0 <= n <= d.len()
            &&& #[trigger] wire_of(v, pos, d.subrange(0, n), fmt)
        };
    lemma_shape_from_sig(v);
    match v {
        Value::Structure(l2) => {
            let span = sig.subrange(lo, hi);
            assert(sig_of(v) == seq!['(' as u8] + sig_of_list(l2@) + seq![')' as u8]);
            assert forall|j: int| 0 <= j < sig_of_list(l2@).len() implies sig_of_list(l2@)[j]
                == span[j + 1] by {
                assert((seq!['(' as u8] + sig_of_list(l2@) + seq![')' as u8])[j + 1]
                    == sig_of_list(l2@)[j]);
            }
            assert(sig_of_list(l2@).len() == span.len() - 2);
            assert(sig_of_list(l2@) =~= sig.subrange(lo + 1, hi - 1));
            let dd = d.skip(p8);
            let b = d.subrange(0, n);
            assert(b.skip(p8) =~= dd.subrange(0, n - p8));
            assert(d.subrange(p8, cur) =~= dd.subrange(0, cur - p8));
            assert(sig_of_list(fields).len() <= sig_of_list(l2@).len());
            assert(sig_of_list(fields) =~= sig_of_list(l2@).subrange(
                0,
                sig_of_list(fields).len() as int,
            ));
            lemma_wire_fields_split(
                l2@,
                fields,
                (pos + p8) as nat,
                dd,
                n - p8,
                cur - p8,
                fmt,
            );
            let rest = l2@.skip(fields.len() as int);
            assert(sig_of_list(rest) =~= sig.subrange(sigpos, hi - 1));
            assert(sig[sigpos] != ')' as u8);
            assert(sigpos < hi - 1);
            assert(rest.len() > 0);
            let e0 = rest[0];
            lemma_wf_list_skip(l2@, fields.len() as int);
            assert(wf(e0));
            crate::value::lemma_sig_head(e0);
            assert(sig_of_list(rest) == sig_of(e0) + sig_of_list(rest.drop_first()));
            let sp = sig.subrange(sigpos, hi - 1);
            assert(sp.subrange(0, sig_of(e0).len() as int) =~= sig_of(e0));
            lemma_sig_of_single(e0);
            lemma_type_end_localize(sp, 0, sig_of(e0).len() as int, 0);
            lemma_type_end_localize(sig, sigpos, hi - 1, sigpos);
            assert(type_end(sig, sigpos) == Some(sigpos + sig_of(e0).len()));
            assert(sig_of(e0).len() == ce - sigpos);
            assert(sig_of(e0) =~= sig.subrange(sigpos, ce));
            let k = enc_len(e0, edpos, fmt);
            assert(wire_of(e0, edpos, dd.subrange(cur - p8, n - p8).subrange(0, k as int), fmt));
            assert(dd.subrange(cur - p8, n - p8).subrange(0, k as int) =~= edb.subrange(
                0,
                k as int,
            ));
            assert(wire_of(e0, edpos, edb.subrange(0, k as int), fmt));
            assert(0 <= k <= edb.len());
        },
        _ => {
        },
    }
}


/// When some dictionary-entry image leads `d`, the bytes after the
/// alignment padding hold an image of the key.
#[verifier::rlimit(100)]
#[verifier::spinoff_prover]
proof fn lemma_dict_key_has_image(
    sig: Seq<u8>,
    lo: int,
    hi: int,
    pos: nat,
    d: Seq<u8>,
    p8: int,
    kdb: Seq<u8>,
    kdpos: nat,
    fmt: EncodingFormat,
)
    requires
        0 <= lo,
        lo + 1 < hi <= sig.len(),
        sig[lo] == '{' as u8,
        p8 == pad_amount(pos, 8),
        p8 <= d.len(),
        kdb == d.skip(p8),
        kdpos == pos + p8,
        image_exists(sig.subrange(lo, hi), pos, d, fmt),
    ensures
        image_exists(sig.subrange(lo + 1, lo + 2), kdpos, kdb, fmt),
{
    let (v, n): (Value, int) = choose|v: Value, n: int|
        {
            &&& wf(v)
            &&& sig_of(v) == sig.subrange(lo, hi)
            &&& 0 <= n <= d.len()
            &&& #[trigger] wire_of(v, pos, d.subrange(0, n), fmt)
        };
    lemma_shape_from_sig(v);
    match v {
        Value::DictEntry(k2, x2) => {
            let span = sig.subrange(lo, hi);
            assert(sig_of(v) == seq!['{' as u8] + sig_of(*k2) + sig_of(*x2) + seq!['}' as u8]);
            assert(sig_of(*k2).len() == 1);
            assert(sig_of(*k2)[0] == (seq!['{' as u8] + sig_of(*k2) + sig_of(*x2) + seq![
                '}' as u8,
            ])[1]);
            assert(sig_of(*k2) =~= sig.subrange(lo + 1, lo + 2));
            let b = d.subrange(0, n);
            let kl2 = enc_len(*k2, (pos + p8) as nat, fmt);
            assert(b.subrange(p8, p8 + kl2) =~= kdb.subrange(0, kl2 as int));
            assert(wire_of(*k2, kdpos, kdb.subrange(0, kl2 as int), fmt));
            assert(0 <= kl2 <= kdb.len());
        },
        _ => {
        },
    }
}

/// When some dictionary-entry image leads `d` and the key has been decoded,
/// the remaining bytes hold an image of the value.
#[verifier::rlimit(100)]
#[verifier::spinoff_prover]
proof fn lemma_dict_value_has_image(
    sig: Seq<u8>,
    lo: int,
    hi: int,
    pos: nat,
    d: Seq<u8>,
    p8: int,
    kv: Value,
    kn: int,
    ve: int,
    vdb: Seq<u8>,
    vdpos: nat,
    fmt: EncodingFormat,
)
    requires
        0 <= lo,
        lo + 1 < hi <= sig.len(),
        sig[lo] == '{' as u8,
        type_end(sig, lo) == Some(hi),
        type_end(sig, lo + 2) == Some(ve),
        p8 == pad_amount(pos, 8),
        wf(kv),
        sig_of(kv) == sig.subrange(lo + 1, lo + 2),
        0 <= kn,
        p8 + kn <= d.len(),
        wire_of(kv, (pos + p8) as nat, d.subrange(p8, p8 + kn), fmt),
        vdb == d.skip(p8 + kn),
        vdpos == pos + p8 + kn,
        image_exists(sig.subrange(lo, hi), pos, d, fmt),
    ensures
        image_exists(sig.subrange(lo + 2, ve), vdpos, vdb, fmt),
{
    let (v, n): (Value, int) = choose|v: Value, n: int|
        {
            &&& wf(v)
            &&& sig_of(v) == sig.subrange(lo, hi)
            &&& 0 <= n <= d.len()
            &&& #[trigger] wire_of(v, pos, d.subrange(0, n), fmt)
        };
    lemma_shape_from_sig(v);
    match v {
        Value::DictEntry(k2, x2) => {
            let span = sig.subrange(lo, hi);
            let whole = seq!['{' as u8] + sig_of(*k2) + sig_of(*x2) + seq!['}' as u8];
            assert(sig_of(v) == whole);
            assert(sig_of(*k2).len() == 1);
            assert(sig_of(*k2)[0] == whole[1]);
            assert(sig_of(*k2) =~= sig.subrange(lo + 1, lo + 2));
            let b = d.subrange(0, n);
            let dd = d.skip(p8);
            let kl2 = enc_len(*k2, (pos + p8) as nat, fmt);
            assert(b.subrange(p8, p8 + kl2) =~= dd.subrange(0, kl2 as int));
            assert(d.subrange(p8, p8 + kn) =~= dd.subrange(0, kn));
            lemma_wire_unique(kv, *k2, (pos + p8) as nat, dd, kn, kl2 as int, fmt);
            assert(kn == kl2);
            assert(b.skip(p8 + kl2) =~= vdb.subrange(0, n - p8 - kn));
            assert(wire_of(*x2, vdpos, vdb.subrange(0, n - p8 - kn), fmt));
            assert forall|j: int| 0 <= j < sig_of(*x2).len() implies sig_of(*x2)[j] == span[2
                + j] by {
                assert(whole[2 + j] == sig_of(*x2)[j]);
            }
            assert(sig_of(*x2).len() == span.len() - 3);
            assert(ve == hi - 1);
            assert(sig_of(*x2) =~= sig.subrange(lo + 2, ve));
            assert(0 <= n - p8 - kn <= vdb.len());
        },
        _ => {
        },
    }
}

/// Decodes one fixed-size scalar whose type code is `c` from the front of
/// `data`.  On success the consumed bytes are a wire image of the value.
#[verifier::rlimit(100)]
#[verifier::spinoff_prover]
fn decode_fixed_value(data: &SharedData, c: u8, format: EncodingFormat) -> (r: Result<
    (Value, usize),
    VariantError,
>)
    requires
        is_basic_code(c),
        c != 's' as u8,
        c != 'o' as u8,
        c != 'g' as u8,
    ensures
        match r {
            Ok((v, n)) => {
                &&& wf(v)
                &&& sig_of(v) == seq![c]
                &&& 1 <= n <= data@.len()
                &&& n == enc_len(v, data.spec_position(), format)
                &&& wire_of(v, data.spec_position(), data@.subrange(0, n as int), format)
            },
            Err(_) => true,
        },
        image_exists(seq![c], data.spec_position(), data@, format) ==> r is Ok,
{
    let navail = data.len();
    let w = align_of_code_exec(c);
    let p = padding_for_n_bytes(data.position(), w);
    if navail < p + w {
        proof {
            if image_exists(seq![c], data.spec_position(), data@, format) {
                let (v, n): (Value, int) = choose|v: Value, n: int|
                    {
                        &&& wf(v)
                        &&& sig_of(v) == seq![c]
                        &&& 0 <= n <= data@.len()
                        &&& #[trigger] wire_of(
                            v,
                            data.spec_position(),
                            data@.subrange(0, n),
                            format,
                        )
                    };
                lemma_shape_from_sig(v);
                assert(scalar_width(v) == w as nat);
                assert(n == pad_amount(data.spec_position(), w as nat) + w);
                assert(false);
            }
        }
        return Err(VariantError::InsufficientData);
    }
    let ghost pos = data.spec_position();
    if c == 'y' as u8 {
        let x = read_u8_bytes(data, p, format);
        let v = Value::U8(x);
        proof {
            lemma_fixed_bytes_len(scalar_bits(v), 1, format);
            assert(data@.subrange(0, (p + 1) as int).skip(p as int) =~= data@.subrange(
                p as int,
                p as int + 1,
            ));
        }
        Ok((v, p + 1))
    } else if c == 'b' as u8 {
        let x = read_u32_bytes(data, p, format);
        if x == 0 || x == 1 {
            let v = Value::Bool(x == 1);
            proof {
                lemma_fixed_bytes_len(scalar_bits(v), 4, format);
                assert(data@.subrange(0, (p + 4) as int).skip(p as int) =~= data@.subrange(
                    p as int,
                    p as int + 4,
                ));
            }
            Ok((v, p + 4))
        } else {
            proof {
                if image_exists(seq![c], pos, data@, format) {
                    let (v, n): (Value, int) = choose|v: Value, n: int|
                        {
                            &&& wf(v)
                            &&& sig_of(v) == seq![c]
                            &&& 0 <= n <= data@.len()
                            &&& #[trigger] wire_of(v, pos, data@.subrange(0, n), format)
                        };
                    lemma_shape_from_sig(v);
                    assert(n == pad_amount(pos, 4) + 4);
                    assert(data@.subrange(0, n).skip(p as int) =~= data@.subrange(
                        p as int,
                        p as int + 4,
                    ));
                    lemma_fixed_roundtrip(scalar_bits(v), 4, format);
                    lemma_fixed_roundtrip(x as u64, 4, format);
                    assert(false);
                }
            }
            Err(VariantError::IncorrectValue)
        }
    } else if c == 'n' as u8 {
        let x = read_u16_bytes(data, p, format);
        let y: i16 = #[verifier::truncate] (x as i16);
        let v = Value::I16(y);
        proof {
            lemma_i16_bits(x);
            lemma_fixed_bytes_len(scalar_bits(v), 2, format);
            assert(data@.subrange(0, (p + 2) as int).skip(p as int) =~= data@.subrange(
                p as int,
                p as int + 2,
            ));
        }
        Ok((v, p + 2))
    } else if c == 'q' as u8 {
        let x = read_u16_bytes(data, p, format);
        let v = Value::U16(x);
        proof {
            lemma_fixed_bytes_len(scalar_bits(v), 2, format);
            assert(data@.subrange(0, (p + 2) as int).skip(p as int) =~= data@.subrange(
                p as int,
                p as int + 2,
            ));
        }
        Ok((v, p + 2))
    } else if c == 'i' as u8 {
        let x = read_u32_bytes(data, p, format);
        let y: i32 = #[verifier::truncate] (x as i32);
        let v = Value::I32(y);
        proof {
            lemma_i32_bits(x);
            lemma_fixed_bytes_len(scalar_bits(v), 4, format);
            assert(data@.subrange(0, (p + 4) as int).skip(p as int) =~= data@.subrange(
                p as int,
                p as int + 4,
            ));
        }
        Ok((v, p + 4))
    } else if c == 'u' as u8 {
        let x = read_u32_bytes(data, p, format);
        let v = Value::U32(x);
        proof {
            lemma_fixed_bytes_len(scalar_bits(v), 4, format);
            assert(data@.subrange(0, (p + 4) as int).skip(p as int) =~= data@.subrange(
                p as int,
                p as int + 4,
            ));
        }
        Ok((v, p + 4))
    } else if c == 'x' as u8 {
        let x = read_u64_bytes(data, p, format);
        let y: i64 = #[verifier::truncate] (x as i64);
        let v = Value::I64(y);
        proof {
            lemma_i64_bits(x);
            lemma_fixed_bytes_len(scalar_bits(v), 8, format);
            assert(data@.subrange(0, (p + 8) as int).skip(p as int) =~= data@.subrange(
                p as int,
                p as int + 8,
            ));
        }
        Ok((v, p + 8))
    } else if c == 't' as u8 {
        let x = read_u64_bytes(data, p, format);
        let v = Value::U64(x);
        proof {
            lemma_fixed_bytes_len(scalar_bits(v), 8, format);
            assert(data@.subrange(0, (p + 8) as int).skip(p as int) =~= data@.subrange(
                p as int,
                p as int + 8,
            ));
        }
        Ok((v, p + 8))
    } else {
        let x = read_u64_bytes(data, p, format);
        let v = Value::F64(x);
        proof {
            lemma_fixed_bytes_len(scalar_bits(v), 8, format);
            assert(data@.subrange(0, (p + 8) as int).skip(p as int) =~= data@.subrange(
                p as int,
                p as int + 8,
            ));
        }
        Ok((v, p + 8))
    }
}

/// Decodes a length-prefixed string value (`s` or `o`) from the front of
/// `data`: 4-byte length, UTF-8 payload, trailing NUL.
fn decode_string_value(data: &SharedData, c: u8, format: EncodingFormat) -> (r: Result<
    (Value, usize),
    VariantError,
>)
    requires
        c == 's' as u8 || c == 'o' as u8,
    ensures
        match r {
            Ok((v, n)) => {
                &&& wf(v)
                &&& sig_of(v) == seq![c]
                &&& 1 <= n <= data@.len()
                &&& n == enc_len(v, data.spec_position(), format)
                &&& wire_of(v, data.spec_position(), data@.subrange(0, n as int), format)
            },
            Err(_) => true,
        },
        image_exists(seq![c], data.spec_position(), data@, format) ==> r is Ok,
{
    let navail = data.len();
    let p = padding_for_n_bytes(data.position(), 4);
    if navail < p + 4 {
        proof {
            if image_exists(seq![c], data.spec_position(), data@, format) {
                let (v, n): (Value, int) = choose|v: Value, n: int|
                    {
                        &&& wf(v)
                        &&& sig_of(v) == seq![c]
                        &&& 0 <= n <= data@.len()
                        &&& #[trigger] wire_of(
                            v,
                            data.spec_position(),
                            data@.subrange(0, n),
                            format,
                        )
                    };
                lemma_shape_from_sig(v);
                match v {
                    Value::Str(t) => {
                        assert(n >= p + 5);
                    },
                    Value::ObjectPath(t) => {
                        assert(n >= p + 5);
                    },
                    _ => {
                    },
                }
                assert(false);
            }
        }
        return Err(VariantError::InsufficientData);
    }
    let lw = read_u32_bytes(data, p, format);
    let start = p + 4;
    let rem = navail - start;
    if rem < 1 || lw as usize > rem - 1 {
        proof {
            if image_exists(seq![c], data.spec_position(), data@, format) {
                let (v, n): (Value, int) = choose|v: Value, n: int|
                    {
                        &&& wf(v)
                        &&& sig_of(v) == seq![c]
                        &&& 0 <= n <= data@.len()
                        &&& #[trigger] wire_of(
                            v,
                            data.spec_position(),
                            data@.subrange(0, n),
                            format,
                        )
                    };
                lemma_shape_from_sig(v);
                match v {
                    Value::Str(t) => {
                        let pl = encode_utf8(t@);
                        assert(data@.subrange(0, n).subrange(p as int, p as int + 4)
                            =~= data@.subrange(p as int, p as int + 4));
                        lemma_fixed_roundtrip(pl.len() as u64, 4, format);
                        lemma_fixed_roundtrip(lw as u64, 4, format);
                        assert(pl.len() == lw);
                    },
                    Value::ObjectPath(t) => {
                        let pl = encode_utf8(t@);
                        assert(data@.subrange(0, n).subrange(p as int, p as int + 4)
                            =~= data@.subrange(p as int, p as int + 4));
                        lemma_fixed_roundtrip(pl.len() as u64, 4, format);
                        lemma_fixed_roundtrip(lw as u64, 4, format);
                        assert(pl.len() == lw);
                    },
                    _ => {
                    },
                }
                assert(false);
            }
        }
        return Err(VariantError::InsufficientData);
    }
    let l = lw as usize;
    if data.get(start + l) != 0 {
        proof {
            if image_exists(seq![c], data.spec_position(), data@, format) {
                let (v, n): (Value, int) = choose|v: Value, n: int|
                    {
                        &&& wf(v)
                        &&& sig_of(v) == seq![c]
                        &&& 0 <= n <= data@.len()
                        &&& #[trigger] wire_of(
                            v,
                            data.spec_position(),
                            data@.subrange(0, n),
                            format,
                        )
                    };
                lemma_shape_from_sig(v);
                match v {
                    Value::Str(t) => {
                        let pl = encode_utf8(t@);
                        assert(data@.subrange(0, n).subrange(p as int, p as int + 4)
                            =~= data@.subrange(p as int, p as int + 4));
                        lemma_fixed_roundtrip(pl.len() as u64, 4, format);
                        lemma_fixed_roundtrip(lw as u64, 4, format);
                        assert(pl.len() == lw);
                        assert(data@.subrange(0, n)[n - 1] == data@[(start + l) as int]);
                    },
                    Value::ObjectPath(t) => {
                        let pl = encode_utf8(t@);
                        assert(data@.subrange(0, n).subrange(p as int, p as int + 4)
                            =~= data@.subrange(p as int, p as int + 4));
                        lemma_fixed_roundtrip(pl.len() as u64, 4, format);
                        lemma_fixed_roundtrip(lw as u64, 4, format);
                        assert(pl.len() == lw);
                        assert(data@.subrange(0, n)[n - 1] == data@[(start + l) as int]);
                    },
                    _ => {
                    },
                }
                assert(false);
            }
        }
        return Err(VariantError::IncorrectValue);
    }
    let payload = vstd::slice::slice_to_vec(vstd::slice::slice_subrange(
        data.bytes(),
        start,
        start + l,
    ));
    let s = match bytes_to_string(&payload) {
        Some(s) => s,
        None => {
            proof {
                if image_exists(seq![c], data.spec_position(), data@, format) {
                    let (v, n): (Value, int) = choose|v: Value, n: int|
                    {
                        &&& wf(v)
                        &&& sig_of(v) == seq![c]
                        &&& 0 <= n <= data@.len()
                        &&& #[trigger] wire_of(
                            v,
                            data.spec_position(),
                            data@.subrange(0, n),
                            format,
                        )
                    };
                lemma_shape_from_sig(v);
                    match v {
                        Value::Str(t) => {
                            let pl = encode_utf8(t@);
                            assert(data@.subrange(0, n).subrange(p as int, p as int + 4)
                                =~= data@.subrange(p as int, p as int + 4));
                            lemma_fixed_roundtrip(pl.len() as u64, 4, format);
                            lemma_fixed_roundtrip(lw as u64, 4, format);
                            assert(pl.len() == lw);
                            assert(data@.subrange(0, n).subrange(
                                p as int + 4,
                                (p + 4 + l) as int,
                            ) =~= data@.subrange(start as int, (start + l) as int));
                            vstd::utf8::encode_utf8_valid_utf8(t@);
                            assert(valid_utf8(payload@));
                        },
                        Value::ObjectPath(t) => {
                            let pl = encode_utf8(t@);
                            assert(data@.subrange(0, n).subrange(p as int, p as int + 4)
                                =~= data@.subrange(p as int, p as int + 4));
                            lemma_fixed_roundtrip(pl.len() as u64, 4, format);
                            lemma_fixed_roundtrip(lw as u64, 4, format);
                            assert(pl.len() == lw);
                            assert(data@.subrange(0, n).subrange(
                                p as int + 4,
                                (p + 4 + l) as int,
                            ) =~= data@.subrange(start as int, (start + l) as int));
                            vstd::utf8::encode_utf8_valid_utf8(t@);
                            assert(valid_utf8(payload@));
                        },
                        _ => {
                        },
                    }
                    assert(false);
                }
            }
            return Err(VariantError::InvalidUtf8);
        },
    };
    let n = start + l + 1;
    let ghost pos = data.spec_position();
    let ghost pd = pad_amount(pos, 4);
    let ghost sv = s@;
    let v = if c == 's' as u8 {
        Value::Str(s)
    } else {
        Value::ObjectPath(s)
    };
    proof {
        let b = data@.subrange(0, n as int);
        lemma_fixed_bytes_len(l as u64, 4, format);
        assert(b.subrange(pd as int, (pd + 4) as int) =~= data@.subrange(
            p as int,
            p as int + 4,
        ));
        assert(b.subrange((pd + 4) as int, (pd + 4 + l) as int) =~= data@.subrange(
            start as int,
            (start + l) as int,
        ));
        assert(payload@ =~= data@.subrange(start as int, (start + l) as int));
        assert(b[b.len() - 1] == data@[(start + l) as int]);
        assert(encode_utf8(sv) == payload@);
    }
    Ok((v, n))
}

/// Decodes a signature value (`g`) from the front of `data`: 1-byte length,
/// type codes, trailing NUL.
fn decode_signature_value(data: &SharedData, format: EncodingFormat) -> (r: Result<
    (Value, usize),
    VariantError,
>)
    ensures
        match r {
            Ok((v, n)) => {
                &&& wf(v)
                &&& sig_of(v) == seq!['g' as u8]
                &&& 1 <= n <= data@.len()
                &&& n == enc_len(v, data.spec_position(), format)
                &&& wire_of(v, data.spec_position(), data@.subrange(0, n as int), format)
            },
            Err(_) => true,
        },
        image_exists(seq!['g' as u8], data.spec_position(), data@, format) ==> r is Ok,
{
    let navail = data.len();
    if navail < 2 {
        proof {
            if image_exists(seq!['g' as u8], data.spec_position(), data@, format) {
                let (v, n): (Value, int) = choose|v: Value, n: int|
                    {
                        &&& wf(v)
                        &&& sig_of(v) == seq!['g' as u8]
                        &&& 0 <= n <= data@.len()
                        &&& #[trigger] wire_of(
                            v,
                            data.spec_position(),
                            data@.subrange(0, n),
                            format,
                        )
                    };
                lemma_shape_from_sig(v);
                match v {
                    Value::Signature(g2) => {
                        assert(n == g2@.len() + 2);
                    },
                    _ => {
                    },
                }
                assert(false);
            }
        }
        return Err(VariantError::InsufficientData);
    }
    let l = data.get(0) as usize;
    if navail - 2 < l {
        proof {
            if image_exists(seq!['g' as u8], data.spec_position(), data@, format) {
                let (v, n): (Value, int) = choose|v: Value, n: int|
                    {
                        &&& wf(v)
                        &&& sig_of(v) == seq!['g' as u8]
                        &&& 0 <= n <= data@.len()
                        &&& #[trigger] wire_of(
                            v,
                            data.spec_position(),
                            data@.subrange(0, n),
                            format,
                        )
                    };
                lemma_shape_from_sig(v);
                match v {
                    Value::Signature(g2) => {
                        assert(data@.subrange(0, n)[0] == data@[0]);
                        assert(g2@.len() == l);
                        assert(n == l + 2);
                    },
                    _ => {
                    },
                }
                assert(false);
            }
        }
        return Err(VariantError::InsufficientData);
    }
    if data.get(1 + l) != 0 {
        proof {
            if image_exists(seq!['g' as u8], data.spec_position(), data@, format) {
                let (v, n): (Value, int) = choose|v: Value, n: int|
                    {
                        &&& wf(v)
                        &&& sig_of(v) == seq!['g' as u8]
                        &&& 0 <= n <= data@.len()
                        &&& #[trigger] wire_of(
                            v,
                            data.spec_position(),
                            data@.subrange(0, n),
                            format,
                        )
                    };
                lemma_shape_from_sig(v);
                match v {
                    Value::Signature(g2) => {
                        assert(data@.subrange(0, n)[0] == data@[0]);
                        assert(g2@.len() == l);
                        assert(data@.subrange(0, n)[n - 1] == data@[(1 + l) as int]);
                    },
                    _ => {
                    },
                }
                assert(false);
            }
        }
        return Err(VariantError::IncorrectValue);
    }
    let sig_bytes = vstd::slice::slice_to_vec(vstd::slice::slice_subrange(
        data.bytes(),
        1,
        1 + l,
    ));
    let g = Signature::from_bytes(sig_bytes);
    let n = l + 2;
    let v = Value::Signature(g);
    proof {
        let b = data@.subrange(0, n as int);
        assert(b.subrange(1, (1 + l) as int) =~= data@.subrange(1, (1 + l) as int));
        assert(b[0] == data@[0]);
        assert(b[b.len() - 1] == data@[(1 + l) as int]);
    }
    Ok((v, n))
}

/// Decodes the single complete type spanning `sig[lo..hi)` from the front of
/// `data`.  On success, the consumed bytes are a wire image of the returned
/// value at the buffer's position.
#[verifier::rlimit(100)]
fn decode_variant_at(
    data: &SharedData,
    sig: &Signature,
    lo: usize,
    hi: usize,
    format: EncodingFormat,
) -> (r: Result<(Value, usize), VariantError>)
    requires
        lo < hi <= sig@.len(),
        type_end(sig@, lo as int) == Some(hi as int),
        sig@[lo as int] == 'v' as u8,
    ensures
        match r {
            Ok((v, n)) => {
                &&& wf(v)
                &&& sig_of(v) == sig@.subrange(lo as int, hi as int)
                &&& 1 <= n <= data@.len()
                &&& n == enc_len(v, data.spec_position(), format)
                &&& wire_of(v, data.spec_position(), data@.subrange(0, n as int), format)
            },
            Err(_) => true,
        },
        image_exists(sig@.subrange(lo as int, hi as int), data.spec_position(), data@, format)
            ==> r is Ok,
    decreases data@.len(), hi - lo, 0int,
{
    let ghost pos = data.spec_position();
        let navail = data.len();
        if navail < 2 {
            proof {
                if image_exists(sig@.subrange(lo as int, hi as int), data.spec_position(), data@, format) {
                    let (v, n): (Value, int) = choose|v: Value, n: int|
                    {
                        &&& wf(v)
                        &&& sig_of(v) == sig@.subrange(lo as int, hi as int)
                        &&& 0 <= n <= data@.len()
                        &&& #[trigger] wire_of(
                            v,
                            data.spec_position(),
                            data@.subrange(0, n),
                            format,
                        )
                    };
                lemma_shape_from_sig(v);
                    match v {
                        Value::Variant(i2) => {
                            assert(n >= sig_of(*i2).len() + 2);
                        },
                        _ => {
                        },
                    }
                    assert(false);
                }
            }
            return Err(VariantError::InsufficientData);
        }
        let l = data.get(0) as usize;
        if navail - 2 < l {
            proof {
                if image_exists(sig@.subrange(lo as int, hi as int), data.spec_position(), data@, format) {
                    let (v, n): (Value, int) = choose|v: Value, n: int|
                    {
                        &&& wf(v)
                        &&& sig_of(v) == sig@.subrange(lo as int, hi as int)
                        &&& 0 <= n <= data@.len()
                        &&& #[trigger] wire_of(
                            v,
                            data.spec_position(),
                            data@.subrange(0, n),
                            format,
                        )
                    };
                lemma_shape_from_sig(v);
                    match v {
                        Value::Variant(i2) => {
                            let sl2 = sig_of(*i2);
                            let b = data@.subrange(0, n);
                            let hdr = b.subrange(0, (sl2.len() + 2) as int);
                            assert(hdr[0] == data@[0]);
                            assert(sl2.len() == l);
                            lemma_wire_len(
                                *i2,
                                (pos + sl2.len() + 2) as nat,
                                b.skip((sl2.len() + 2) as int),
                                format,
                            );
                            lemma_enc_len_pos(*i2, (pos + sl2.len() + 2) as nat, format);
                            assert(n >= l + 3);
                        },
                        _ => {
                        },
                    }
                    assert(false);
                }
            }
            return Err(VariantError::InsufficientData);
        }
        if data.get(1 + l) != 0 {
            proof {
                if image_exists(sig@.subrange(lo as int, hi as int), data.spec_position(), data@, format) {
                    let (v, n): (Value, int) = choose|v: Value, n: int|
                    {
                        &&& wf(v)
                        &&& sig_of(v) == sig@.subrange(lo as int, hi as int)
                        &&& 0 <= n <= data@.len()
                        &&& #[trigger] wire_of(
                            v,
                            data.spec_position(),
                            data@.subrange(0, n),
                            format,
                        )
                    };
                lemma_shape_from_sig(v);
                    match v {
                        Value::Variant(i2) => {
                            let sl2 = sig_of(*i2);
                            let b = data@.subrange(0, n);
                            let hdr = b.subrange(0, (sl2.len() + 2) as int);
                            assert(hdr[0] == data@[0]);
                            assert(sl2.len() == l);
                            assert(hdr[hdr.len() - 1] == data@[(1 + l) as int]);
                        },
                        _ => {
                        },
                    }
                    assert(false);
                }
            }
            return Err(VariantError::IncorrectValue);
        }
        let esig = Signature::from_bytes(vstd::slice::slice_to_vec(vstd::slice::slice_subrange(
            data.bytes(),
            1,
            1 + l,
        )));
        let et_ok = match type_end_exec(&esig, 0) {
            Some(e) => e == l,
            None => false,
        };
        if !et_ok {
            proof {
                if image_exists(sig@.subrange(lo as int, hi as int), data.spec_position(), data@, format) {
                    let (v, n): (Value, int) = choose|v: Value, n: int|
                    {
                        &&& wf(v)
                        &&& sig_of(v) == sig@.subrange(lo as int, hi as int)
                        &&& 0 <= n <= data@.len()
                        &&& #[trigger] wire_of(
                            v,
                            data.spec_position(),
                            data@.subrange(0, n),
                            format,
                        )
                    };
                lemma_shape_from_sig(v);
                    match v {
                        Value::Variant(i2) => {
                            let sl2 = sig_of(*i2);
                            let b = data@.subrange(0, n);
                            let hdr = b.subrange(0, (sl2.len() + 2) as int);
                            assert(hdr[0] == data@[0]);
                            assert(sl2.len() == l);
                            assert(hdr.subrange(1, (1 + l) as int) =~= data@.subrange(
                                1,
                                (1 + l) as int,
                            ));
                            assert(esig@ == sl2);
                            lemma_sig_of_single(*i2);
                        },
                        _ => {
                        },
                    }
                    assert(false);
                }
            }
            return Err(VariantError::UnsupportedType(esig));
        }
        proof {
            lemma_type_end_bounds(esig@, 0);
        }
        let inner_data = data.tail(2 + l);
        let (iv, inn) = match decode_at(&inner_data, &esig, 0, l, format) {
            Ok(x) => x,
            Err(e) => {
                proof {
                    if image_exists(sig@.subrange(lo as int, hi as int), data.spec_position(), data@, format) {
                        let (v, n): (Value, int) = choose|v: Value, n: int|
                    {
                        &&& wf(v)
                        &&& sig_of(v) == sig@.subrange(lo as int, hi as int)
                        &&& 0 <= n <= data@.len()
                        &&& #[trigger] wire_of(
                            v,
                            data.spec_position(),
                            data@.subrange(0, n),
                            format,
                        )
                    };
                lemma_shape_from_sig(v);
                        match v {
                            Value::Variant(i2) => {
                                let sl2 = sig_of(*i2);
                                let b = data@.subrange(0, n);
                                let hdr = b.subrange(0, (sl2.len() + 2) as int);
                                assert(hdr[0] == data@[0]);
                                assert(sl2.len() == l);
                                assert(hdr.subrange(1, (1 + l) as int) =~= data@.subrange(
                                    1,
                                    (1 + l) as int,
                                ));
                                assert(esig@ == sl2);
                                assert(b.skip((l + 2) as int) =~= inner_data@.subrange(
                                    0,
                                    n - (l + 2),
                                ));
                                assert(esig@.subrange(0, l as int) =~= esig@);
                                assert(wire_of(
                                    *i2,
                                    inner_data.spec_position(),
                                    inner_data@.subrange(0, n - (l + 2)),
                                    format,
                                ));
                                assert(image_exists(
                                    esig@.subrange(0, l as int),
                                    inner_data.spec_position(),
                                    inner_data@,
                                    format,
                                ));
                            },
                            _ => {
                            },
                        }
                        assert(false);
                    }
                }
                return Err(e);
            },
        };
        let n = 2 + l + inn;
        let v = Value::Variant(Box::new(iv));
        proof {
            let b = data@.subrange(0, n as int);
            let sl = sig_of(iv);
            assert(esig@.subrange(0, l as int) =~= esig@);
            assert(sl == esig@);
            let hdr = b.subrange(0, (sl.len() + 2) as int);
            assert(hdr.subrange(1, (1 + l) as int) =~= data@.subrange(1, (1 + l) as int));
            assert(hdr[0] == data@[0]);
            assert(hdr[hdr.len() - 1] == data@[(1 + l) as int]);
            assert(image_signature(sl, hdr));
            assert(b.skip((sl.len() + 2) as int) =~= inner_data@.subrange(0, inn as int));
            assert(sig@.subrange(lo as int, hi as int) =~= seq!['v' as u8]);
        }
        Ok((v, n))
}

#[verifier::rlimit(100)]
fn decode_array_at(
    data: &SharedData,
    sig: &Signature,
    lo: usize,
    hi: usize,
    format: EncodingFormat,
) -> (r: Result<(Value, usize), VariantError>)
    requires
        lo < hi <= sig@.len(),
        type_end(sig@, lo as int) == Some(hi as int),
        sig@[lo as int] == 'a' as u8,
    ensures
        match r {
            Ok((v, n)) => {
                &&& wf(v)
                &&& sig_of(v) == sig@.subrange(lo as int, hi as int)
                &&& 1 <= n <= data@.len()
                &&& n == enc_len(v, data.spec_position(), format)
                &&& wire_of(v, data.spec_position(), data@.subrange(0, n as int), format)
            },
            Err(_) => true,
        },
        image_exists(sig@.subrange(lo as int, hi as int), data.spec_position(), data@, format)
            ==> r is Ok,
    decreases data@.len(), hi - lo, 0int,
{
    let ghost pos = data.spec_position();
        let navail = data.len();
        let p = padding_for_n_bytes(data.position(), 4);
        if navail < p + 4 {
            proof {
                if image_exists(
                    sig@.subrange(lo as int, hi as int),
                    data.spec_position(),
                    data@,
                    format,
                ) {
                    lemma_type_end_bounds(sig@, (lo + 1) as int);
                    lemma_array_header_bounds(sig@, lo as int, hi as int, pos, data@, format);
                    assert(false);
                }
            }
            return Err(VariantError::InsufficientData);
        }
        let lw = read_u32_bytes(data, p, format);
        let ea = align_of_code_exec(sig.get(lo + 1));
        let off2 = data.position() + p + 4;
        let p2 = padding_for_n_bytes(off2, ea);
        let start2 = p + 4 + p2;
        if navail < start2 {
            proof {
                if image_exists(
                    sig@.subrange(lo as int, hi as int),
                    data.spec_position(),
                    data@,
                    format,
                ) {
                    lemma_type_end_bounds(sig@, (lo + 1) as int);
                    lemma_array_header_bounds(sig@, lo as int, hi as int, pos, data@, format);
                    assert(false);
                }
            }
            return Err(VariantError::InsufficientData);
        }
        let l = lw as usize;
        if navail - start2 < l {
            proof {
                if image_exists(
                    sig@.subrange(lo as int, hi as int),
                    data.spec_position(),
                    data@,
                    format,
                ) {
                    lemma_type_end_bounds(sig@, (lo + 1) as int);
                    lemma_array_header_bounds(sig@, lo as int, hi as int, pos, data@, format);
                    lemma_fixed_roundtrip(lw as u64, 4, format);
                    assert(false);
                }
            }
            return Err(VariantError::InsufficientData);
        }
        let body = data.subset(start2, start2 + l);
        let esig = sig.slice(lo + 1, hi);
        proof {
            lemma_type_end_localize(sig@, lo as int + 1, hi as int, lo as int + 1);
            lemma_type_end_bounds(sig@, lo as int + 1);
            assert(is_single_type(esig@));
        }
        let mut elems: Vec<Value> = Vec::new();
        let mut cur: usize = 0;
        proof {
            assert(body@.subrange(0, 0) =~= Seq::<u8>::empty());
            assert(wire_list(elems@, (pos + start2) as nat, body@.subrange(0, 0), format));
        }
        while cur < l
            invariant
                cur <= l,
                start2 + l <= data@.len(),
                data@.len() <= usize::MAX,
                4 <= start2,
                body@ == data@.subrange(start2 as int, (start2 + l) as int),
                body.spec_position() == pos + start2,
                pos == data.spec_position(),
                lo + 1 < hi <= sig@.len(),
                sig@[lo as int] == 'a' as u8,
                type_end(sig@, (lo + 1) as int) == Some(hi as int),
                esig@ == sig@.subrange((lo + 1) as int, hi as int),
                p == pad_amount(pos, 4),
                ea == align_of_code(sig@[(lo + 1) as int]),
                p2 == pad_amount((pos + p + 4) as nat, ea as nat),
                start2 == p + 4 + p2,
                l == lw,
                data@.subrange(p as int, p as int + 4) == fixed_bytes(lw as u64, 4, format),
                wf_elems(elems@, esig@),
                wire_list(elems@, (pos + start2) as nat, body@.subrange(0, cur as int), format),
            decreases l - cur,
        {
            let ed = body.tail(cur);
            let (ev, en) = match decode_at(&ed, sig, lo + 1, hi, format) {
                Ok(x) => x,
                Err(e) => {
                    proof {
                        if image_exists(
                            sig@.subrange(lo as int, hi as int),
                            data.spec_position(),
                            data@,
                            format,
                        ) {
                            assert(ed@ =~= body@.skip(cur as int));
                            lemma_array_rest_has_image(
                                sig@,
                                lo as int,
                                hi as int,
                                pos,
                                data@,
                                esig@,
                                body@,
                                elems@,
                                p as int,
                                p2 as int,
                                lw,
                                cur as int,
                                ed@,
                                ed.spec_position(),
                                format,
                            );
                            assert(false);
                        }
                    }
                    return Err(e);
                },
            };
            let ghost pre = elems@;
            elems.push(ev);
            proof {
                lemma_wf_elems_snoc(pre, esig@, ev);
                lemma_wire_list_snoc(
                    pre,
                    (pos + start2) as nat,
                    body@.subrange(0, cur as int),
                    ev,
                    ed@.subrange(0, en as int),
                    format,
                );
                assert(body@.subrange(0, cur as int) + ed@.subrange(0, en as int) =~= body@.subrange(
                    0,
                    (cur + en) as int,
                ));
            }
            cur = cur + en;
        }
        let v = Value::Array(esig, elems);
        let n = start2 + l;
        proof {
            let b = data@.subrange(0, n as int);
            lemma_fixed_bytes_len(lw as u64, 4, format);
            assert(b.subrange(p as int, (p + 4) as int) =~= data@.subrange(
                p as int,
                p as int + 4,
            ));
            assert(b.skip(start2 as int) =~= body@);
            assert(body@.subrange(0, l as int) =~= body@);
            crate::wire::lemma_wire_list_len(elems@, (pos + start2) as nat, body@, format);
            assert(sig@.subrange(lo as int, hi as int) =~= seq!['a' as u8] + esig@);
        }
        Ok((v, n))
}

#[verifier::rlimit(100)]
fn decode_struct_at(
    data: &SharedData,
    sig: &Signature,
    lo: usize,
    hi: usize,
    format: EncodingFormat,
) -> (r: Result<(Value, usize), VariantError>)
    requires
        lo < hi <= sig@.len(),
        type_end(sig@, lo as int) == Some(hi as int),
        sig@[lo as int] == '(' as u8,
    ensures
        match r {
            Ok((v, n)) => {
                &&& wf(v)
                &&& sig_of(v) == sig@.subrange(lo as int, hi as int)
                &&& 1 <= n <= data@.len()
                &&& n == enc_len(v, data.spec_position(), format)
                &&& wire_of(v, data.spec_position(), data@.subrange(0, n as int), format)
            },
            Err(_) => true,
        },
        image_exists(sig@.subrange(lo as int, hi as int), data.spec_position(), data@, format)
            ==> r is Ok,
    decreases data@.len(), hi - lo, 0int,
{
    let ghost pos = data.spec_position();
        let navail = data.len();
        let p8 = padding_for_n_bytes(data.position(), 8);
        if navail < p8 {
            proof {
                if image_exists(sig@.subrange(lo as int, hi as int), data.spec_position(), data@, format) {
                    let (v, n): (Value, int) = choose|v: Value, n: int|
                    {
                        &&& wf(v)
                        &&& sig_of(v) == sig@.subrange(lo as int, hi as int)
                        &&& 0 <= n <= data@.len()
                        &&& #[trigger] wire_of(
                            v,
                            data.spec_position(),
                            data@.subrange(0, n),
                            format,
                        )
                    };
                lemma_shape_from_sig(v);
                    match v {
                        Value::Structure(l2) => {
                            assert(n >= p8);
                        },
                        _ => {
                        },
                    }
                    assert(false);
                }
            }
            return Err(VariantError::InsufficientData);
        }
        let mut fields: Vec<Value> = Vec::new();
        let mut cur: usize = p8;
        let mut sigpos = lo + 1;
        proof {
            lemma_fields_end_bounds(sig@, (lo + 1) as int);
            assert(data@.subrange(p8 as int, p8 as int) =~= Seq::<u8>::empty());
            assert(wire_list(fields@, (pos + p8) as nat, data@.subrange(p8 as int, cur as int), format));
            assert(sig_of_list(fields@) =~= sig@.subrange((lo + 1) as int, sigpos as int));
        }
        while sigpos + 1 < hi || fields.len() == 0
            invariant
                lo + 1 <= sigpos < hi <= sig@.len(),
                sig@[lo as int] == '(' as u8,
                p8 == pad_amount(pos, 8),
                fields_end(sig@, sigpos as int) == Some(hi as int),
                p8 <= cur <= data@.len(),
                fields@.len() + p8 <= cur,
                data@.len() <= usize::MAX,
                pos == data.spec_position(),
                type_end(sig@, lo as int) == Some(hi as int),
                wf_list(fields@),
                sig_of_list(fields@) == sig@.subrange((lo + 1) as int, sigpos as int),
                wire_list(fields@, (pos + p8) as nat, data@.subrange(p8 as int, cur as int), format),
                fields@.len() == 0 ==> sigpos == lo + 1,
            decreases hi - sigpos,
        {
            proof {
                lemma_fields_end_bounds(sig@, sigpos as int);
                lemma_type_end_bounds(sig@, sigpos as int);
            }
            if sigpos + 1 >= hi {
                proof {
                    if sig@[sigpos as int] != ')' as u8 {
                        match type_end(sig@, sigpos as int) {
                            Some(j) => {
                                lemma_fields_end_bounds(sig@, j);
                            },
                            None => {
                            },
                        }
                    }
                    assert(sig@[sigpos as int] == ')' as u8);
                    assert(false);
                }
                return Err(VariantError::IncorrectType);
            }
            let ce = match type_end_exec(sig, sigpos) {
                Some(e) => e,
                None => {
                    proof {
                        assert(sig@[sigpos as int] != ')' as u8);
                        assert(type_end(sig@, sigpos as int) is Some);
                        assert(false);
                    }
                    return Err(VariantError::UnsupportedType(sig.clone()));
                },
            };
            proof {
                lemma_fields_end_bounds(sig@, ce as int);
            }
            let ed = data.tail(cur);
            let (cv, cn) = match decode_at(&ed, sig, sigpos, ce, format) {
                Ok(x) => x,
                Err(e) => {
                    proof {
                        if image_exists(
                            sig@.subrange(lo as int, hi as int),
                            data.spec_position(),
                            data@,
                            format,
                        ) {
                            assert(ed@ =~= data@.skip(cur as int));
                            lemma_struct_rest_has_image(
                                sig@,
                                lo as int,
                                hi as int,
                                pos,
                                data@,
                                fields@,
                                p8 as int,
                                cur as int,
                                sigpos as int,
                                ce as int,
                                ed@,
                                ed.spec_position(),
                                format,
                            );
                            assert(false);
                        }
                    }
                    return Err(e);
                },
            };
            let ghost pre = fields@;
            fields.push(cv);
            proof {
                lemma_wf_list_snoc(pre, cv);
                lemma_sig_of_list_snoc(pre, cv);
                assert(sig_of_list(fields@) =~= sig@.subrange((lo + 1) as int, ce as int));
                lemma_wire_list_snoc(
                    pre,
                    (pos + p8) as nat,
                    data@.subrange(p8 as int, cur as int),
                    cv,
                    ed@.subrange(0, cn as int),
                    format,
                );
                assert(data@.subrange(p8 as int, cur as int) + ed@.subrange(0, cn as int)
                    =~= data@.subrange(p8 as int, (cur + cn) as int));
            }
            cur = cur + cn;
            sigpos = ce;
        }
        let v = Value::Structure(fields);
        let n = cur;
        proof {
            lemma_fields_end_bounds(sig@, sigpos as int);
            lemma_type_end_bounds(sig@, sigpos as int);
            if sig@[sigpos as int] != ')' as u8 {
                match type_end(sig@, sigpos as int) {
                    Some(j) => {
                        lemma_fields_end_bounds(sig@, j);
                    },
                    None => {
                    },
                }
            }
            assert(sig@[sigpos as int] == ')' as u8);
            let b = data@.subrange(0, n as int);
            assert(b.skip(p8 as int) =~= data@.subrange(p8 as int, cur as int));
            crate::wire::lemma_wire_list_len(
                fields@,
                (pos + p8) as nat,
                data@.subrange(p8 as int, cur as int),
                format,
            );
            assert(sig@.subrange(lo as int, hi as int) =~= seq!['(' as u8] + sig_of_list(fields@)
                + seq![')' as u8]);
        }
        Ok((v, n))
}

#[verifier::rlimit(100)]
fn decode_dict_at(
    data: &SharedData,
    sig: &Signature,
    lo: usize,
    hi: usize,
    format: EncodingFormat,
) -> (r: Result<(Value, usize), VariantError>)
    requires
        lo < hi <= sig@.len(),
        type_end(sig@, lo as int) == Some(hi as int),
        sig@[lo as int] == '{' as u8,
    ensures
        match r {
            Ok((v, n)) => {
                &&& wf(v)
                &&& sig_of(v) == sig@.subrange(lo as int, hi as int)
                &&& 1 <= n <= data@.len()
                &&& n == enc_len(v, data.spec_position(), format)
                &&& wire_of(v, data.spec_position(), data@.subrange(0, n as int), format)
            },
            Err(_) => true,
        },
        image_exists(sig@.subrange(lo as int, hi as int), data.spec_position(), data@, format)
            ==> r is Ok,
    decreases data@.len(), hi - lo, 0int,
{
    let ghost pos = data.spec_position();
        let navail = data.len();
        let p8 = padding_for_n_bytes(data.position(), 8);
        if navail < p8 {
            proof {
                if image_exists(
                    sig@.subrange(lo as int, hi as int),
                    data.spec_position(),
                    data@,
                    format,
                ) {
                    let (v, n): (Value, int) = choose|v: Value, n: int|
                        {
                            &&& wf(v)
                            &&& sig_of(v) == sig@.subrange(lo as int, hi as int)
                            &&& 0 <= n <= data@.len()
                            &&& #[trigger] wire_of(
                                v,
                                data.spec_position(),
                                data@.subrange(0, n),
                                format,
                            )
                        };
                    lemma_shape_from_sig(v);
                    match v {
                        Value::DictEntry(k2, x2) => {
                            assert(n >= p8);
                        },
                        _ => {
                        },
                    }
                    assert(false);
                }
            }
            return Err(VariantError::InsufficientData);
        }
        let ve = match type_end_exec(sig, lo + 2) {
            Some(e) => e,
            None => {
                proof {
                    assert(type_end(sig@, (lo + 2) as int) is Some);
                    assert(false);
                }
                return Err(VariantError::UnsupportedType(sig.clone()));
            },
        };
        proof {
            lemma_type_end_bounds(sig@, (lo + 2) as int);
        }
        let kd = data.tail(p8);
        let (kv, kn) = match decode_at(&kd, sig, lo + 1, lo + 2, format) {
            Ok(x) => x,
            Err(e) => {
                proof {
                    if image_exists(
                        sig@.subrange(lo as int, hi as int),
                        data.spec_position(),
                        data@,
                        format,
                    ) {
                        assert(kd@ =~= data@.skip(p8 as int));
                        lemma_dict_key_has_image(
                            sig@,
                            lo as int,
                            hi as int,
                            pos,
                            data@,
                            p8 as int,
                            kd@,
                            kd.spec_position(),
                            format,
                        );
                        assert(false);
                    }
                }
                return Err(e);
            },
        };
        let vd = data.tail(p8 + kn);
        let (vv, vn) = match decode_at(&vd, sig, lo + 2, ve, format) {
            Ok(x) => x,
            Err(e) => {
                proof {
                    if image_exists(
                        sig@.subrange(lo as int, hi as int),
                        data.spec_position(),
                        data@,
                        format,
                    ) {
                        assert(vd@ =~= data@.skip((p8 + kn) as int));
                        assert(kd@.subrange(0, kn as int) =~= data@.subrange(
                            p8 as int,
                            (p8 + kn) as int,
                        ));
                        lemma_dict_value_has_image(
                            sig@,
                            lo as int,
                            hi as int,
                            pos,
                            data@,
                            p8 as int,
                            kv,
                            kn as int,
                            ve as int,
                            vd@,
                            vd.spec_position(),
                            format,
                        );
                        assert(false);
                    }
                }
                return Err(e);
            },
        };
        let n = p8 + kn + vn;
        let v = Value::DictEntry(Box::new(kv), Box::new(vv));
        proof {
            let b = data@.subrange(0, n as int);
            assert(b.subrange(p8 as int, (p8 + kn) as int) =~= kd@.subrange(0, kn as int));
            assert(b.skip((p8 + kn) as int) =~= vd@.subrange(0, vn as int));
            assert(sig_of(kv) == sig@.subrange((lo + 1) as int, (lo + 2) as int));
            assert(sig_of(kv).len() == 1 && sig_of(kv)[0] == sig@[(lo + 1) as int]);
            assert(sig@.subrange(lo as int, hi as int) =~= seq!['{' as u8] + sig_of(kv) + sig_of(
                vv,
            ) + seq!['}' as u8]);
        }
        Ok((v, n))
}

fn decode_at(
    data: &SharedData,
    sig: &Signature,
    lo: usize,
    hi: usize,
    format: EncodingFormat,
) -> (r: Result<(Value, usize), VariantError>)
    requires
        lo < hi <= sig@.len(),
        type_end(sig@, lo as int) == Some(hi as int),
    ensures
        match r {
            Ok((v, n)) => {
                &&& wf(v)
                &&& sig_of(v) == sig@.subrange(lo as int, hi as int)
                &&& 1 <= n <= data@.len()
                &&& n == enc_len(v, data.spec_position(), format)
                &&& wire_of(v, data.spec_position(), data@.subrange(0, n as int), format)
            },
            Err(_) => true,
        },
        image_exists(sig@.subrange(lo as int, hi as int), data.spec_position(), data@, format)
            ==> r is Ok,
    decreases data@.len(), hi - lo, 1int,
{
    let c = sig.get(lo);
    if c == 's' as u8 || c == 'o' as u8 {
        let r = decode_string_value(data, c, format);
        proof {
            assert(sig@.subrange(lo as int, hi as int) =~= seq![c]);
        }
        r
    } else if c == 'g' as u8 {
        let r = decode_signature_value(data, format);
        proof {
            assert(sig@.subrange(lo as int, hi as int) =~= seq![c]);
        }
        r
    } else if is_basic_code_exec(c) {
        let r = decode_fixed_value(data, c, format);
        proof {
            assert(sig@.subrange(lo as int, hi as int) =~= seq![c]);
        }
        r
    } else if c == 'v' as u8 {
        decode_variant_at(data, sig, lo, hi, format)
    } else if c == 'a' as u8 {
        decode_array_at(data, sig, lo, hi, format)
    } else if c == '(' as u8 {
        decode_struct_at(data, sig, lo, hi, format)
    } else if c == '{' as u8 {
        decode_dict_at(data, sig, lo, hi, format)
    } else {
        proof {
            assert(false);
        }
        Err(VariantError::UnsupportedType(sig.clone()))
    }
}

impl Value {

    /// Decodes one value of `signature` that must occupy the whole buffer;
    /// a buffer longer than the signature demands is `ExcessData`.
    pub fn decode_all(data: &SharedData, signature: &Signature, format: EncodingFormat) -> (r:
        Result<Value, VariantError>)
        ensures
            match r {
                Ok(v) => {
                    &&& wf(v)
                    &&& sig_of(v) == signature@
                    &&& wire_of(v, data.spec_position(), data@, format)
                },
                Err(_) => true,
            },
            forall|v: Value, n: int|
                wf(v) && sig_of(v) == signature@ && 0 <= n <= data@.len() && #[trigger] wire_of(
                    v,
                    data.spec_position(),
                    data@.subrange(0, n),
                    format,
                ) ==> if n == data@.len() {
                    r is Ok
                } else {
                    r == Err::<Value, VariantError>(VariantError::ExcessData)
                },
    {
        match Value::decode(data, signature, format) {
            Ok((v0, n0)) => {
                if n0 == data.len() {
                    proof {
                        assert(data@.subrange(0, n0 as int) =~= data@);
                        assert forall|v: Value, n: int|
                            wf(v) && sig_of(v) == signature@ && 0 <= n <= data@.len()
                                && #[trigger] wire_of(
                                v,
                                data.spec_position(),
                                data@.subrange(0, n),
                                format,
                            ) implies n == data@.len() by {
                            crate::wire::lemma_wire_unique(
                                v,
                                v0,
                                data.spec_position(),
                                data@,
                                n,
                                n0 as int,
                                format,
                            );
                        }
                    }
                    Ok(v0)
                } else {
                    proof {
                        assert forall|v: Value, n: int|
                            wf(v) && sig_of(v) == signature@ && 0 <= n <= data@.len()
                                && #[trigger] wire_of(
                                v,
                                data.spec_position(),
                                data@.subrange(0, n),
                                format,
                            ) implies n != data@.len() && n == n0 by {
                            crate::wire::lemma_wire_unique(
                                v,
                                v0,
                                data.spec_position(),
                                data@,
                                n,
                                n0 as int,
                                format,
                            );
                        }
                    }
                    Err(VariantError::ExcessData)
                }
            },
            Err(e) => {
                proof {
                    assert forall|v: Value, n: int|
                        wf(v) && sig_of(v) == signature@ && 0 <= n <= data@.len()
                            && #[trigger] wire_of(
                            v,
                            data.spec_position(),
                            data@.subrange(0, n),
                            format,
                        ) implies false by {
                        assert(image_exists(signature@, data.spec_position(), data@, format));
                    }
                }
                Err(e)
            },
        }
    }

    /// Decodes one value of the single complete type `signature` from the
    /// front of `data`, returning it with the number of bytes consumed.
    /// On success the consumed bytes are exactly a wire image of the value
    /// at the buffer's position.
    pub fn decode(data: &SharedData, signature: &Signature, format: EncodingFormat) -> (r: Result<
        (Value, usize),
        VariantError,
    >)
        ensures
            match r {
                Ok((v, n)) => {
                    &&& wf(v)
                    &&& sig_of(v) == signature@
                    &&& 1 <= n <= data@.len()
                    &&& n == enc_len(v, data.spec_position(), format)
                    &&& wire_of(v, data.spec_position(), data@.subrange(0, n as int), format)
                },
                Err(_) => true,
            },
            image_exists(signature@, data.spec_position(), data@, format) ==> r is Ok,
            signature@.len() == 0 ==> r == Err::<(Value, usize), VariantError>(
                VariantError::InsufficientData,
            ),
            signature@.len() >= 1 && type_end(signature@, 0) is None ==> match r {
                Err(VariantError::UnsupportedType(t)) => t@ == signature@,
                _ => false,
            },
            type_end(signature@, 0) matches Some(e) ==> (e != signature@.len() ==> r == Err::<
                (Value, usize),
                VariantError,
            >(VariantError::IncorrectType)),
    {
        let nsig = signature.len();
        match type_end_exec(signature, 0) {
            None => {
                proof {
                    if image_exists(signature@, data.spec_position(), data@, format) {
                        let (v, n): (Value, int) = choose|v: Value, n: int|
                            {
                                &&& wf(v)
                                &&& sig_of(v) == signature@
                                &&& 0 <= n <= data@.len()
                                &&& #[trigger] wire_of(
                                    v,
                                    data.spec_position(),
                                    data@.subrange(0, n),
                                    format,
                                )
                            };
                        lemma_sig_of_single(v);
                        assert(false);
                    }
                }
                if nsig == 0 {
                    Err(VariantError::InsufficientData)
                } else {
                    Err(VariantError::UnsupportedType(signature.clone()))
                }
            },
            Some(e) => {
                if e != nsig {
                    proof {
                        if image_exists(signature@, data.spec_position(), data@, format) {
                            let (v, n): (Value, int) = choose|v: Value, n: int|
                                {
                                    &&& wf(v)
                                    &&& sig_of(v) == signature@
                                    &&& 0 <= n <= data@.len()
                                    &&& #[trigger] wire_of(
                                        v,
                                        data.spec_position(),
                                        data@.subrange(0, n),
                                        format,
                                    )
                                };
                            lemma_sig_of_single(v);
                            assert(false);
                        }
                    }
                    Err(VariantError::IncorrectType)
                } else {
                    proof {
                        lemma_type_end_bounds(signature@, 0);
                    }
                    let r = decode_at(data, signature, 0, e, format);
                    proof {
                        assert(signature@.subrange(0, e as int) =~= signature@);
                    }
                    r
                }
            },
        }
    }
}

/// Locates the byte range at the front of `data` that one value of
/// `signature` occupies, by decoding it.  The returned view shares the same
/// storage and position; unlike a pure size scan, this validates the value
/// as it measures it.
pub fn slice_data(data: &SharedData, signature: &Signature, format: EncodingFormat) -> (r: Result<
    SharedData,
    VariantError,
>)
    ensures
        match r {
            Ok(sub) => {
                &&& sub.spec_position() == data.spec_position()
                &&& exists|v: Value, n: int|
                    {
                        &&& 0 <= n <= data@.len()
                        &&& sub@ == data@.subrange(0, n)
                        &&& wf(v)
                        &&& sig_of(v) == signature@
                        &&& #[trigger] wire_of(v, data.spec_position(), data@.subrange(0, n), format)
                    }
                &&& forall|v: Value, n: int|
                    wf(v) && sig_of(v) == signature@ && 0 <= n <= data@.len() && #[trigger] wire_of(
                        v,
                        data.spec_position(),
                        data@.subrange(0, n),
                        format,
                    ) ==> sub@ == data@.subrange(0, n)
            },
            Err(_) => true,
        },
        image_exists(signature@, data.spec_position(), data@, format) ==> r is Ok,
        signature@.len() == 0 ==> match r {
            Err(VariantError::InsufficientData) => true,
            _ => false,
        },
        signature@.len() >= 1 && type_end(signature@, 0) is None ==> match r {
            Err(VariantError::UnsupportedType(t)) => t@ == signature@,
            _ => false,
        },
        type_end(signature@, 0) matches Some(e) ==> (e != signature@.len() ==> match r {
            Err(VariantError::IncorrectType) => true,
            _ => false,
        }),
{
    match Value::decode(data, signature, format) {
        Ok((v0, n0)) => {
            let sub = data.subset(0, n0);
            proof {
                assert(wire_of(v0, data.spec_position(), data@.subrange(0, n0 as int), format));
                assert forall|v: Value, n: int|
                    wf(v) && sig_of(v) == signature@ && 0 <= n <= data@.len() && #[trigger] wire_of(
                        v,
                        data.spec_position(),
                        data@.subrange(0, n),
                        format,
                    ) implies sub@ == data@.subrange(0, n) by {
                    crate::wire::lemma_wire_unique(
                        v,
                        v0,
                        data.spec_position(),
                        data@,
                        n,
                        n0 as int,
                        format,
                    );
                }
            }
            Ok(sub)
        },
        Err(e) => Err(e),
    }
}

/// The padding one value of `signature` needs when it starts after
/// `n_bytes_before` bytes.  An empty or unrecognized signature asks for no
/// padding: this lookup is deliberately permissive, unlike full decoding.
pub fn padding_for_signature(
    n_bytes_before: usize,
    signature: &Signature,
    format: EncodingFormat,
) -> (p: usize)
    ensures
        signature@.len() == 0 ==> p == 0,
        signature@.len() >= 1 ==> p == pad_amount(
            n_bytes_before as nat,
            align_of_code(signature@[0]),
        ),
        p < 8,
{
    if signature.len() == 0 {
        0
    } else {
        padding_for_n_bytes(n_bytes_before, align_of_code_exec(signature.get(0)))
    }
}

/// Slices the first complete type off the front of `signature`.
pub fn slice_signature(signature: &Signature) -> (r: Result<Signature, VariantError>)
    ensures
        match r {
            Ok(s) => {
                &&& signature@.len() >= 1
                &&& type_end(signature@, 0) == Some(s@.len() as int)
                &&& s@ == signature@.subrange(0, s@.len() as int)
                &&& is_single_type(s@)
            },
            Err(e) => match e {
                VariantError::InsufficientData => signature@.len() == 0,
                VariantError::UnsupportedType(t) => {
                    &&& t@ == signature@
                    &&& signature@.len() >= 1
                    &&& type_end(signature@, 0) is None
                },
                _ => false,
            },
        },
{
    if signature.len() == 0 {
        return Err(VariantError::InsufficientData);
    }
    match type_end_exec(signature, 0) {
        Some(e) => {
            proof {
                lemma_type_end_bounds(signature@, 0);
                lemma_type_end_localize(signature@, 0, e as int, 0);
            }
            Ok(signature.slice(0, e))
        },
        None => Err(VariantError::UnsupportedType(signature.clone())),
    }
}

/// Appends a string-like value: padding to 4, a 4-byte byte count, the
/// UTF-8 payload and a trailing NUL.
fn write_string_value(bytes: &mut Vec<u8>, s: &String, format: EncodingFormat)
    requires
        encode_utf8(s@).len() < 0x100000000,
        old(bytes)@.len() + enc_string(encode_utf8(s@), old(bytes)@.len() as nat, format).len()
            <= usize::MAX,
    ensures
        final(bytes)@ == old(bytes)@ + enc_string(
            encode_utf8(s@),
            old(bytes)@.len() as nat,
            format,
        ),
{
    proof {
        lemma_fixed_bytes_len(encode_utf8(s@).len() as u64, 4, format);
    }
    let p = padding_for_n_bytes(bytes.len(), 4);
    write_zeros(bytes, p);
    let sb = s.as_str().as_bytes();
    let l = sb.len();
    crate::wire::write_u32_bytes(bytes, l as u32, format);
    bytes.extend_from_slice(sb);
    bytes.push(0);
    proof {
        assert(bytes@ =~= old(bytes)@ + enc_string(
            encode_utf8(s@),
            old(bytes)@.len() as nat,
            format,
        ));
    }
}

/// Appends a signature value: a 1-byte length, the type codes and a
/// trailing NUL.
fn write_signature_value(bytes: &mut Vec<u8>, g: &Signature)
    requires
        g@.len() <= 255,
        old(bytes)@.len() + enc_signature(g@).len() <= usize::MAX,
    ensures
        final(bytes)@ == old(bytes)@ + enc_signature(g@),
{
    let gb = g.to_bytes();
    let l = gb.len();
    bytes.push(l as u8);
    bytes.extend_from_slice(gb.as_slice());
    bytes.push(0);
    proof {
        assert(bytes@ =~= old(bytes)@ + enc_signature(g@));
    }
}

/// Overwrites the 4-byte field at `at` with `x`, leaving everything else
/// unchanged; used to backpatch an array's length once it is known.
fn overwrite_u32_bytes(bytes: &mut Vec<u8>, at: usize, x: u32, format: EncodingFormat)
    requires
        at + 4 <= old(bytes)@.len(),
    ensures
        final(bytes)@ == old(bytes)@.subrange(0, at as int) + fixed_bytes(x as u64, 4, format)
            + old(bytes)@.subrange(at as int + 4, old(bytes)@.len() as int),
{
    let n0 = bytes.len();
    let v = vstd::bytes::u32_to_le_bytes(x);
    if crate::wire::is_big_exec(format) {
        bytes[at] = v[3];
        bytes[at + 1] = v[2];
        bytes[at + 2] = v[1];
        bytes[at + 3] = v[0];
    } else {
        bytes[at] = v[0];
        bytes[at + 1] = v[1];
        bytes[at + 2] = v[2];
        bytes[at + 3] = v[3];
    }
    proof {
        lemma_fixed_bytes_len(x as u64, 4, format);
        if crate::wire::is_big(format) {
            assert(fixed_bytes(x as u64, 4, format) =~= seq![v@[3], v@[2], v@[1], v@[0]]);
        }
        assert(bytes@ =~= old(bytes)@.subrange(0, at as int) + fixed_bytes(x as u64, 4, format)
            + old(bytes)@.subrange(at as int + 4, old(bytes)@.len() as int));
    }
}


#[verifier::rlimit(100)]
fn encode_structure_into(this: &Value, bytes: &mut Vec<u8>, format: EncodingFormat)
    requires
        this is Structure,
        enc_ok(*this, old(bytes)@.len() as nat, format),
        old(bytes)@.len() + enc_len(*this, old(bytes)@.len() as nat, format) <= usize::MAX,
    ensures
        final(bytes)@ == old(bytes)@ + enc_value(*this, old(bytes)@.len() as nat, format),
    decreases *this, 0int,
{
    let ghost off = bytes@.len() as nat;
    match this {
        Value::Structure(vs) => {
                let p = padding_for_n_bytes(bytes.len(), 8);
                write_zeros(bytes, p);
                let ghost base = bytes@.len() as nat;
                let mut i: usize = 0;
                proof {
                    assert(vs@.take(0) =~= Seq::<Value>::empty());
                    assert(vs@.skip(0) =~= vs@);
                    assert(bytes@ =~= old(bytes)@ + zeros(p as nat) + enc_list(
                        vs@.take(0),
                        base,
                        format,
                    ));
                }
                while i < vs.len()
                    invariant
                        i <= vs@.len(),
                        base == old(bytes)@.len() + p,
                        p == pad_amount(old(bytes)@.len() as nat, 8),
                        bytes@ == old(bytes)@ + zeros(p as nat) + enc_list(
                            vs@.take(i as int),
                            base,
                            format,
                        ),
                        enc_list_ok(vs@.skip(i as int), bytes@.len() as nat, format),
                        bytes@.len() + enc_list(vs@.skip(i as int), bytes@.len() as nat, format).len()
                            <= usize::MAX,
                        *this == Value::Structure(*vs),
                    decreases vs@.len() - i,
                {
                    proof {
                        assert(decreases_to!(*this => this->Structure_0@[i as int]));
                        assert(this->Structure_0@[i as int] == vs@[i as int]);
                        assert(vs@.skip(i as int)[0] == vs@[i as int]);
                        assert(vs@.skip(i as int).drop_first() =~= vs@.skip(i as int + 1));
                    }
                    let ghost pre = bytes@;
                    let child = &vs[i];
                    child.encode_into(bytes, format);
                    proof {
                        lemma_enc_list_snoc(vs@.take(i as int), vs@[i as int], base, format);
                        assert(vs@.take(i as int).push(vs@[i as int]) =~= vs@.take(i as int + 1));
                        assert(bytes@ =~= old(bytes)@ + zeros(p as nat) + enc_list(
                            vs@.take(i as int + 1),
                            base,
                            format,
                        ));
                    }
                    i += 1;
                }
                proof {
                    assert(vs@.take(vs@.len() as int) =~= vs@);
                    assert(bytes@ =~= old(bytes)@ + enc_value(*this, off, format));
                }
        },
        _ => {
            proof {
                assert(false);
            }
        },
    }
}

#[verifier::rlimit(100)]
fn encode_array_into(this: &Value, bytes: &mut Vec<u8>, format: EncodingFormat)
    requires
        this is Array,
        enc_ok(*this, old(bytes)@.len() as nat, format),
        old(bytes)@.len() + enc_len(*this, old(bytes)@.len() as nat, format) <= usize::MAX,
    ensures
        final(bytes)@ == old(bytes)@ + enc_value(*this, old(bytes)@.len() as nat, format),
    decreases *this, 0int,
{
    let ghost off = bytes@.len() as nat;
    match this {
        Value::Array(esig, elems) => {
                let p = padding_for_n_bytes(bytes.len(), 4);
                write_zeros(bytes, p);
                let len_at = bytes.len();
                crate::wire::write_u32_bytes(bytes, 0, format);
                let c0 = if esig.len() > 0 {
                    esig.get(0)
                } else {
                    0
                };
                let ea = align_of_code_exec(c0);
                let p2 = padding_for_n_bytes(bytes.len(), ea);
                proof {
                    lemma_fixed_bytes_len(0, 4, format);
                    lemma_fixed_bytes_len(
                        enc_list(elems@, (off + p + 4 + p2) as nat, format).len() as u64,
                        4,
                        format,
                    );
                    assert(enc_len(*this, off, format) == p + 4 + p2 + enc_list(
                        elems@,
                        (off + p + 4 + p2) as nat,
                        format,
                    ).len());
                }
                write_zeros(bytes, p2);
                let body_start = bytes.len();
                let ghost base = body_start as nat;
                let mut i: usize = 0;
                proof {
                    assert(elems@.take(0) =~= Seq::<Value>::empty());
                    assert(elems@.skip(0) =~= elems@);
                }
                while i < elems.len()
                    invariant
                        i <= elems@.len(),
                        base == body_start,
                        body_start == bytes@.len() - enc_list(elems@.take(i as int), base, format).len(),
                        bytes@.subrange(0, body_start as int) == old(bytes)@ + zeros(p as nat)
                            + fixed_bytes(0, 4, format) + zeros(p2 as nat),
                        bytes@.skip(body_start as int) == enc_list(elems@.take(i as int), base, format),
                        enc_list_ok(elems@.skip(i as int), bytes@.len() as nat, format),
                        bytes@.len() + enc_list(elems@.skip(i as int), bytes@.len() as nat, format).len()
                            <= usize::MAX,
                        enc_list(elems@, base, format).len() < 0x100000000,
                        body_start <= bytes@.len(),
                        *this == Value::Array(*esig, *elems),
                    decreases elems@.len() - i,
                {
                    proof {
                        assert(decreases_to!(*this => this->Array_1@[i as int]));
                        assert(this->Array_1@[i as int] == elems@[i as int]);
                        assert(elems@.skip(i as int)[0] == elems@[i as int]);
                        assert(elems@.skip(i as int).drop_first() =~= elems@.skip(i as int + 1));
                    }
                    let child = &elems[i];
                    child.encode_into(bytes, format);
                    proof {
                        lemma_enc_list_snoc(elems@.take(i as int), elems@[i as int], base, format);
                        assert(elems@.take(i as int).push(elems@[i as int]) =~= elems@.take(
                            i as int + 1,
                        ));
                        assert(bytes@.subrange(0, body_start as int) =~= old(bytes)@ + zeros(
                            p as nat,
                        ) + fixed_bytes(0, 4, format) + zeros(p2 as nat));
                        assert(bytes@.skip(body_start as int) =~= enc_list(
                            elems@.take(i as int + 1),
                            base,
                            format,
                        ));
                    }
                    i += 1;
                }
                let body_len = bytes.len() - body_start;
                let ghost pre = bytes@;
                proof {
                    assert(elems@.take(elems@.len() as int) =~= elems@);
                }
                overwrite_u32_bytes(bytes, len_at, body_len as u32, format);
                proof {
                    let body = enc_list(elems@, base as nat, format);
                    assert(pre.skip(body_start as int) == body);
                    assert(pre.subrange(0, len_at as int) =~= old(bytes)@ + zeros(p as nat));
                    let prefix = old(bytes)@ + zeros(p as nat) + fixed_bytes(0, 4, format) + zeros(
                        p2 as nat,
                    );
                    assert(pre.subrange(0, body_start as int) == prefix);
                    assert forall|j: int| len_at + 4 <= j < body_start implies pre[j] == 0u8 by {
                        assert(pre[j] == pre.subrange(0, body_start as int)[j]);
                        assert(prefix[j] == zeros(p2 as nat)[j - (len_at + 4)]);
                    }
                    assert forall|j: int| body_start <= j < pre.len() implies pre[j] == body[j
                        - body_start] by {
                        assert(pre.skip(body_start as int)[j - body_start] == pre[j]);
                    }
                    assert(pre.subrange(len_at as int + 4, pre.len() as int) =~= zeros(p2 as nat)
                        + body);
                    assert((body_len as u32) as u64 == body.len() as u64);
                    assert(bytes@ =~= old(bytes)@ + zeros(p as nat) + fixed_bytes(
                        body.len() as u64,
                        4,
                        format,
                    ) + zeros(p2 as nat) + body);
                    assert(bytes@ =~= old(bytes)@ + enc_value(*this, off, format));
                }
        },
        _ => {
            proof {
                assert(false);
            }
        },
    }
}

impl Value {
    /// Appends this value's padding and canonical wire bytes to `bytes`,
    /// whose current length is the absolute offset the value starts at.
    pub fn encode_into(&self, bytes: &mut Vec<u8>, format: EncodingFormat)
        requires
            enc_ok(*self, old(bytes)@.len() as nat, format),
            old(bytes)@.len() + enc_len(*self, old(bytes)@.len() as nat, format) <= usize::MAX,
        ensures
            final(bytes)@ == old(bytes)@ + enc_value(*self, old(bytes)@.len() as nat, format),
        decreases *self, 1int,
    {
        let ghost off = bytes@.len() as nat;
        match self {
            Value::U8(x) => {
                Encode::encode_into(x, bytes, format);
            },
            Value::Bool(x) => {
                Encode::encode_into(x, bytes, format);
            },
            Value::I16(x) => {
                Encode::encode_into(x, bytes, format);
            },
            Value::U16(x) => {
                Encode::encode_into(x, bytes, format);
            },
            Value::I32(x) => {
                Encode::encode_into(x, bytes, format);
            },
            Value::U32(x) => {
                Encode::encode_into(x, bytes, format);
            },
            Value::I64(x) => {
                Encode::encode_into(x, bytes, format);
            },
            Value::U64(x) => {
                Encode::encode_into(x, bytes, format);
            },
            Value::F64(n) => {
                proof {
                    lemma_fixed_bytes_len(scalar_bits(*self), 8, format);
                }
                let p = padding_for_n_bytes(bytes.len(), 8);
                write_zeros(bytes, p);
                crate::wire::write_u64_bytes(bytes, *n, format);
                proof {
                    assert(bytes@ =~= old(bytes)@ + enc_value(*self, off, format));
                }
            },
            Value::Str(s) => {
                write_string_value(bytes, s, format);
            },
            Value::ObjectPath(s) => {
                write_string_value(bytes, s, format);
            },
            Value::Signature(g) => {
                write_signature_value(bytes, g);
            },
            Value::Variant(b) => {
                let gsig = b.value_signature();
                write_signature_value(bytes, &gsig);
                b.encode_into(bytes, format);
                proof {
                    assert(bytes@ =~= old(bytes)@ + enc_value(*self, off, format));
                }
            },
            Value::DictEntry(k, val) => {
                let p = padding_for_n_bytes(bytes.len(), 8);
                write_zeros(bytes, p);
                k.encode_into(bytes, format);
                val.encode_into(bytes, format);
                proof {
                    assert(bytes@ =~= old(bytes)@ + enc_value(*self, off, format));
                }
            },
            Value::Structure(_) => {
                encode_structure_into(self, bytes, format);
            },
            Value::Array(_, _) => {
                encode_array_into(self, bytes, format);
            },
        }
    }

    /// Encodes this value as the first data in a message.
    pub fn encode(&self, format: EncodingFormat) -> (r: Vec<u8>)
        requires
            enc_ok(*self, 0, format),
            enc_len(*self, 0, format) <= usize::MAX,
        ensures
            r@ == enc_value(*self, 0, format),
    {
        let mut bytes: Vec<u8> = Vec::new();
        self.encode_into(&mut bytes, format);
        bytes
    }
}

} // verus!
