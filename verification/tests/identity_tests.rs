use encrypted_notes_backend::identity::{resolve_caller, Identity, IdentityError, ANONYMOUS_TAG};

#[test]
fn resolve_caller_rejects_anonymous() {
    let r = resolve_caller(vec![ANONYMOUS_TAG]);
    assert_eq!(r.err(), Some(IdentityError::AnonymousCaller));
}

#[test]
fn resolve_caller_accepts_named_tokens() {
    let r = resolve_caller(vec![1, 2, 3]);
    assert!(r.is_ok());
    assert_eq!(r.ok().map(|i| i.bytes), Some(vec![1, 2, 3]));
    // a longer token starting with the anonymous tag byte is not anonymous
    assert!(resolve_caller(vec![ANONYMOUS_TAG, 0]).is_ok());
    assert!(resolve_caller(vec![]).is_ok());
}

#[test]
fn identity_comparison_is_by_bytes() {
    let a = Identity::from_bytes(vec![7, 8]);
    let b = Identity::from_bytes(vec![7, 8]);
    let c = Identity::from_bytes(vec![7, 9]);
    let d = Identity::from_bytes(vec![7]);
    assert!(a.same_as(&b));
    assert!(!a.same_as(&c));
    assert!(!a.same_as(&d));
    assert!(a.same_as(&a.clone()));
}
