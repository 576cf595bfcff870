use vstd::prelude::*;

verus! {

use vstd::string::StringSliceAdditionalSpecFns;

/// A wire type descriptor: a string of single-character type codes, held as
/// its byte sequence.  Construction is permissive (any bytes are accepted);
/// strict validation happens when a codec dispatches on the signature.
#[derive(Debug, PartialEq)]
pub struct Signature {
    bytes: Vec<u8>,
}

impl View for Signature {
    type V = Seq<u8>;

    closed spec fn view(&self) -> Seq<u8> {
        self.bytes@
    }
}

impl Signature {
    /// Builds a signature from a textual descriptor such as `"a(iu)"`.
    pub fn new(s: &str) -> (r: Signature)
        ensures
            r@ == s.spec_bytes(),
    {
        Signature { bytes: vstd::slice::slice_to_vec(s.as_bytes()) }
    }

    /// Builds a signature directly from its byte form.
    pub fn from_bytes(bytes: Vec<u8>) -> (r: Signature)
        ensures
            r@ == bytes@,
    {
        Signature { bytes }
    }

    pub fn len(&self) -> (n: usize)
        ensures
            n == self@.len(),
    {
        self.bytes.len()
    }

    pub fn get(&self, i: usize) -> (c: u8)
        requires
            i < self@.len(),
        ensures
            c == self@[i as int],
    {
        self.bytes[i]
    }

    /// Sub-slices the signature by byte range.
    pub fn slice(&self, from: usize, to: usize) -> (r: Signature)
        requires
            from <= to <= self@.len(),
        ensures
            r@ == self@.subrange(from as int, to as int),
    {
        let s = vstd::slice::slice_subrange(self.bytes.as_slice(), from, to);
        Signature { bytes: vstd::slice::slice_to_vec(s) }
    }

    /// The signature's bytes, as an owned vector.
    pub fn to_bytes(&self) -> (r: Vec<u8>)
        ensures
            r@ == self@,
    {
        let mut out: Vec<u8> = Vec::new();
        out.extend_from_slice(self.bytes.as_slice());
        out
    }
}

impl Clone for Signature {
    fn clone(&self) -> (r: Self)
        ensures
            r@ == self@,
    {
        Signature { bytes: self.to_bytes() }
    }
}

impl Signature {
    /// Byte-for-byte comparison of two signatures.
    pub fn eq_bytes(&self, other: &Signature) -> (r: bool)
        ensures
            r == (self@ == other@),
    {
        let n = self.bytes.len();
        if n != other.bytes.len() {
            return false;
        }
        let mut i: usize = 0;
        while i < n
            invariant
                n == self.bytes@.len(),
                n == other.bytes@.len(),
                i <= n,
                forall|j: int| 0 <= j < i ==> self.bytes@[j] == other.bytes@[j],
            decreases n - i,
        {
            if self.bytes[i] != other.bytes[i] {
                return false;
            }
            i += 1;
        }
        proof {
            assert(self@ =~= other@);
        }
        true
    }
}


/// Type codes of the basic (scalar and string-like) wire types: the types
/// that may serve as a dictionary-entry key.
pub open spec fn is_basic_code(c: u8) -> bool {
    ||| c == 'y' as u8
    ||| c == 'b' as u8
    ||| c == 'n' as u8
    ||| c == 'q' as u8
    ||| c == 'i' as u8
    ||| c == 'u' as u8
    ||| c == 'x' as u8
    ||| c == 't' as u8
    ||| c == 'd' as u8
    ||| c == 's' as u8
    ||| c == 'o' as u8
    ||| c == 'g' as u8
}

/// The byte alignment of the wire type introduced by code `c`; 1 for
/// unrecognized codes (so an unrecognized code asks for no padding).
pub open spec fn align_of_code(c: u8) -> nat {
    if c == 'n' as u8 || c == 'q' as u8 {
        2
    } else if c == 'b' as u8 || c == 'i' as u8 || c == 'u' as u8 || c == 's' as u8 || c
        == 'o' as u8 || c == 'a' as u8 {
        4
    } else if c == 'x' as u8 || c == 't' as u8 || c == 'd' as u8 || c == '(' as u8 || c
        == '{' as u8 {
        8
    } else {
        1
    }
}

/// End position (exclusive) of the single complete type starting at `i`, or
/// `None` if no complete type starts there.  A complete type is a basic code,
/// `v`, `a` followed by a complete type, `(` followed by one or more complete
/// types and `)`, or `{` followed by a basic code, a complete type and `}`.
pub open spec fn type_end(s: Seq<u8>, i: int) -> Option<int>
    decreases s.len() - i, 0int,
{
    if i < 0 || i >= s.len() {
        None
    } else {
        let c = s[i];
        if is_basic_code(c) || c == 'v' as u8 {
            Some(i + 1)
        } else if c == 'a' as u8 {
            type_end(s, i + 1)
        } else if c == '(' as u8 {
            if i + 1 < s.len() && s[i + 1] == ')' as u8 {
                None
            } else {
                fields_end(s, i + 1)
            }
        } else if c == '{' as u8 {
            if i + 1 < s.len() && is_basic_code(s[i + 1]) {
                match type_end(s, i + 2) {
                    Some(e) => if e < s.len() && s[e] == '}' as u8 {
                        Some(e + 1)
                    } else {
                        None
                    },
                    None => None,
                }
            } else {
                None
            }
        } else {
            None
        }
    }
}

/// End position (exclusive, one past the closing `)`) of a run of complete
/// types terminated by `)`, starting at `i`.
pub open spec fn fields_end(s: Seq<u8>, i: int) -> Option<int>
    decreases s.len() - i, 1int,
{
    if i < 0 || i >= s.len() {
        None
    } else if s[i] == ')' as u8 {
        Some(i + 1)
    } else {
        match type_end(s, i) {
            Some(j) => if i < j && j <= s.len() {
                fields_end(s, j)
            } else {
                None
            },
            None => None,
        }
    }
}

/// A signature that consists of exactly one complete type.
pub open spec fn is_single_type(s: Seq<u8>) -> bool {
    type_end(s, 0) == Some(s.len() as int)
}

pub proof fn lemma_type_end_bounds(s: Seq<u8>, i: int)
    ensures
        type_end(s, i) matches Some(e) ==> i < e <= s.len(),
    decreases s.len() - i, 0int,
{
    if 0 <= i < s.len() {
        let c = s[i];
        if c == 'a' as u8 {
            lemma_type_end_bounds(s, i + 1);
        } else if c == '(' as u8 {
            lemma_fields_end_bounds(s, i + 1);
        } else if c == '{' as u8 {
            if i + 2 <= s.len() {
                lemma_type_end_bounds(s, i + 2);
            }
        }
    }
}

pub proof fn lemma_fields_end_bounds(s: Seq<u8>, i: int)
    ensures
        fields_end(s, i) matches Some(e) ==> i < e <= s.len(),
    decreases s.len() - i, 1int,
{
    if 0 <= i < s.len() && s[i] != ')' as u8 {
        lemma_type_end_bounds(s, i);
        match type_end(s, i) {
            Some(j) => {
                if i < j && j <= s.len() {
                    lemma_fields_end_bounds(s, j);
                }
            },
            None => {},
        }
    }
}

/// Scanning a sub-slice agrees with scanning in context: a complete type that
/// lies inside `[lo, hi)` scans the same standalone, and vice versa.
pub proof fn lemma_type_end_localize(s: Seq<u8>, lo: int, hi: int, i: int)
    requires
        0 <= lo <= i,
        lo <= hi <= s.len(),
    ensures
        type_end(s, i) matches Some(e) ==> (e <= hi ==> type_end(s.subrange(lo, hi), i - lo)
            == Some(e - lo)),
        type_end(s.subrange(lo, hi), i - lo) matches Some(f) ==> type_end(s, i) == Some(f + lo),
    decreases s.len() - i, 0int,
{
    let t = s.subrange(lo, hi);
    if i >= hi {
        lemma_type_end_bounds(s, i);
        lemma_type_end_bounds(t, i - lo);
    } else {
        let c = s[i];
        assert(t[i - lo] == c);
        if is_basic_code(c) || c == 'v' as u8 {
        } else if c == 'a' as u8 {
            lemma_type_end_localize(s, lo, hi, i + 1);
            lemma_type_end_bounds(s, i + 1);
            lemma_type_end_bounds(t, i + 1 - lo);
        } else if c == '(' as u8 {
            lemma_fields_end_localize(s, lo, hi, i + 1);
            lemma_fields_end_bounds(s, i + 1);
            lemma_fields_end_bounds(t, i + 1 - lo);
        } else if c == '{' as u8 {
            if i + 1 < s.len() && is_basic_code(s[i + 1]) {
                lemma_type_end_localize(s, lo, hi, i + 2);
                lemma_type_end_bounds(s, i + 2);
                lemma_type_end_bounds(t, i + 2 - lo);
            }
        }
    }
}

pub proof fn lemma_fields_end_localize(s: Seq<u8>, lo: int, hi: int, i: int)
    requires
        0 <= lo <= i,
        lo <= hi <= s.len(),
    ensures
        fields_end(s, i) matches Some(e) ==> (e <= hi ==> fields_end(s.subrange(lo, hi), i - lo)
            == Some(e - lo)),
        fields_end(s.subrange(lo, hi), i - lo) matches Some(f) ==> fields_end(s, i) == Some(
            f + lo,
        ),
    decreases s.len() - i, 1int,
{
    let t = s.subrange(lo, hi);
    if i >= hi {
        lemma_fields_end_bounds(s, i);
        lemma_fields_end_bounds(t, i - lo);
    } else {
        let c = s[i];
        assert(t[i - lo] == c);
        if c != ')' as u8 {
            lemma_type_end_localize(s, lo, hi, i);
            lemma_type_end_bounds(s, i);
            lemma_type_end_bounds(t, i - lo);
            match type_end(s, i) {
                Some(j) => {
                    if j <= hi {
                        lemma_fields_end_localize(s, lo, hi, j);
                    } else {
                        lemma_fields_end_bounds(s, j);
                    }
                },
                None => {
                    match type_end(t, i - lo) {
                        Some(f) => {
                            lemma_fields_end_localize(s, lo, hi, f + lo);
                        },
                        None => {},
                    }
                },
            }
        }
    }
}

/// Executable scanner for [`type_end`].
pub fn type_end_exec(sig: &Signature, i: usize) -> (r: Option<usize>)
    ensures
        match r {
            Some(e) => type_end(sig@, i as int) == Some(e as int),
            None => type_end(sig@, i as int) is None,
        },
    decreases sig@.len() - i, 0int,
{
    proof {
        lemma_type_end_bounds(sig@, i as int);
    }
    if i >= sig.len() {
        None
    } else {
        let c = sig.get(i);
        if c == 'v' as u8 || is_basic_code_exec(c) {
            Some(i + 1)
        } else if c == 'a' as u8 {
            type_end_exec(sig, i + 1)
        } else if c == '(' as u8 {
            if i + 1 < sig.len() && sig.get(i + 1) == ')' as u8 {
                None
            } else {
                fields_end_exec(sig, i + 1)
            }
        } else if c == '{' as u8 {
            if i + 1 < sig.len() && is_basic_code_exec(sig.get(i + 1)) {
                match type_end_exec(sig, i + 2) {
                    Some(e) => if e < sig.len() && sig.get(e) == '}' as u8 {
                        Some(e + 1)
                    } else {
                        None
                    },
                    None => None,
                }
            } else {
                None
            }
        } else {
            None
        }
    }
}

/// Executable scanner for [`fields_end`].
pub fn fields_end_exec(sig: &Signature, i: usize) -> (r: Option<usize>)
    ensures
        match r {
            Some(e) => fields_end(sig@, i as int) == Some(e as int),
            None => fields_end(sig@, i as int) is None,
        },
    decreases sig@.len() - i, 1int,
{
    proof {
        lemma_fields_end_bounds(sig@, i as int);
    }
    if i >= sig.len() {
        None
    } else if sig.get(i) == ')' as u8 {
        Some(i + 1)
    } else {
        proof {
            lemma_type_end_bounds(sig@, i as int);
        }
        match type_end_exec(sig, i) {
            Some(j) => fields_end_exec(sig, j),
            None => None,
        }
    }
}

/// Executable test for [`is_basic_code`].
pub fn is_basic_code_exec(c: u8) -> (r: bool)
    ensures
        r == is_basic_code(c),
{
    c == 'y' as u8 || c == 'b' as u8 || c == 'n' as u8 || c == 'q' as u8 || c == 'i' as u8 || c
        == 'u' as u8 || c == 'x' as u8 || c == 't' as u8 || c == 'd' as u8 || c == 's' as u8 || c
        == 'o' as u8 || c == 'g' as u8
}

/// Executable lookup for [`align_of_code`].
pub fn align_of_code_exec(c: u8) -> (r: usize)
    ensures
        r == align_of_code(c),
        1 <= r <= 8,
{
    if c == 'n' as u8 || c == 'q' as u8 {
        2
    } else if c == 'b' as u8 || c == 'i' as u8 || c == 'u' as u8 || c == 's' as u8 || c
        == 'o' as u8 || c == 'a' as u8 {
        4
    } else if c == 'x' as u8 || c == 't' as u8 || c == 'd' as u8 || c == '(' as u8 || c
        == '{' as u8 {
        8
    } else {
        1
    }
}

} // verus!
