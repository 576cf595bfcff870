use zvariant::maybe::{create_signature, Maybe};
use zvariant::signature::Signature;
use zvariant::value::Value;
use zvariant::VariantError;

#[test]
fn maybe_just_holds_value() {
    let m = Maybe::just(Value::U8(42));
    assert_eq!(*m.inner(), Some(Value::U8(42)));
    assert_eq!(m.signature(), Signature::new("my"));
    assert_eq!(*m.value_signature(), Signature::new("y"));
}

#[test]
fn maybe_nothing_keeps_signature() {
    let m = Maybe::nothing(Signature::new("s"));
    assert_eq!(*m.inner(), None);
    assert_eq!(m.signature(), Signature::new("ms"));
    assert_eq!(*m.value_signature(), Signature::new("s"));
}

#[test]
fn maybe_get_concrete_type() {
    let m = Maybe::just(Value::U32(7));
    let got: Option<u32> = m.get().unwrap();
    assert_eq!(got, Some(7));

    let m = Maybe::nothing(Signature::new("u"));
    let got: Option<u32> = m.get().unwrap();
    assert_eq!(got, None);

    let m = Maybe::just(Value::U32(7));
    let got: Result<Option<u8>, VariantError> = m.get();
    assert_eq!(got.unwrap_err(), VariantError::IncorrectType);
}

#[test]
fn maybe_to_owned_copies() {
    let m = Maybe::just(Value::Str(String::from("hi")));
    let o = m.to_owned();
    assert_eq!(o, m);
}

#[test]
fn create_signature_prefixes_marker() {
    let s = create_signature(&Signature::new("a{sv}"));
    assert_eq!(s, Signature::new("ma{sv}"));
}
