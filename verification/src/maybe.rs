use vstd::prelude::*;

verus! {

use crate::VariantError;
use crate::codec::Decode;
use crate::signature::Signature;
use crate::value::{Value, sig_of, value_eq};

/// The signature of a `Maybe` wrapping a value of signature
/// `value_signature`: the marker `m` followed by that signature.
pub fn create_signature(value_signature: &Signature) -> (r: Signature)
    ensures
        r@ == seq!['m' as u8] + value_signature@,
{
    let mut b: Vec<u8> = Vec::new();
    b.push('m' as u8);
    let vb = value_signature.to_bytes();
    b.extend_from_slice(vb.as_slice());
    proof {
        assert(b@ =~= seq!['m' as u8] + value_signature@);
    }
    Signature::from_bytes(b)
}

/// A wrapper for an optional [`Value`] (the second wire format's Maybe
/// type).  It keeps the signature of the value it would contain, which is
/// needed even in the empty case, and a derived wrapper signature prefixed
/// with the marker `m`.
#[derive(Debug, PartialEq)]
pub struct Maybe {
    value: Box<Option<Value>>,
    value_signature: Signature,
    signature: Signature,
}

impl Maybe {
    /// The wrapped optional value.
    pub closed spec fn spec_inner(&self) -> Option<Value> {
        *self.value
    }

    /// The signature of the value this `Maybe` would contain.
    pub closed spec fn spec_value_signature(&self) -> Seq<u8> {
        self.value_signature@
    }

    /// The wrapper's own signature.
    pub closed spec fn spec_signature(&self) -> Seq<u8> {
        self.signature@
    }

    /// Get a reference to the underlying value.
    pub fn inner(&self) -> (r: &Option<Value>)
        ensures
            *r == self.spec_inner(),
    {
        &self.value
    }

    /// Create a new Just (Some) `Maybe`.
    pub fn just(value: Value) -> (r: Maybe)
        ensures
            r.spec_inner() == Some(value),
            r.spec_value_signature() == sig_of(value),
            r.spec_signature() == seq!['m' as u8] + sig_of(value),
    {
        let value_signature = value.value_signature();
        let signature = create_signature(&value_signature);
        Maybe { value_signature, signature, value: Box::new(Some(value)) }
    }

    /// Create a new Nothing (None) `Maybe`, given the signature of the type.
    pub fn nothing(value_signature: Signature) -> (r: Maybe)
        ensures
            r.spec_inner() is None,
            r.spec_value_signature() == value_signature@,
            r.spec_signature() == seq!['m' as u8] + value_signature@,
    {
        let signature = create_signature(&value_signature);
        Maybe { value_signature, signature, value: Box::new(None) }
    }

    /// Get the inner value as a concrete type.
    pub fn get<T: Decode>(self) -> (r: Result<Option<T>, VariantError>)
        ensures
            r == match self.spec_inner() {
                Some(v) => match T::spec_of_value(v) {
                    Some(t) => Ok::<Option<T>, VariantError>(Some(t)),
                    None => Err::<Option<T>, VariantError>(VariantError::IncorrectType),
                },
                None => Ok::<Option<T>, VariantError>(None),
            },
    {
        match *self.value {
            Some(v) => match T::take_from_variant(v) {
                Ok(t) => Ok(Some(t)),
                Err(e) => Err(e),
            },
            None => Ok(None),
        }
    }

    /// Get the signature of this `Maybe`.
    pub fn signature(&self) -> (r: Signature)
        ensures
            r@ == self.spec_signature(),
    {
        self.signature.clone()
    }

    /// Get the signature of the potential value in this `Maybe`.
    pub fn value_signature(&self) -> (r: &Signature)
        ensures
            r@ == self.spec_value_signature(),
    {
        &self.value_signature
    }

    /// A deep copy of this `Maybe`, equivalent to the original.
    pub fn to_owned(&self) -> (r: Maybe)
        ensures
            r.spec_value_signature() == self.spec_value_signature(),
            r.spec_signature() == self.spec_signature(),
            match (r.spec_inner(), self.spec_inner()) {
                (Some(a), Some(b)) => value_eq(a, b),
                (None, None) => true,
                _ => false,
            },
    {
        let inner: Option<Value> = match &*self.value {
            Some(v) => Some(v.deep_clone()),
            None => None,
        };
        Maybe {
            value_signature: self.value_signature.clone(),
            value: Box::new(inner),
            signature: self.signature.clone(),
        }
    }
}

} // verus!
