use socketioxide::extensions::Extensions;
use std::sync::Arc;

#[derive(Debug, Clone, PartialEq)]
struct MyType(i32);

#[derive(Debug, PartialEq)]
struct ComplexSharedType(u64);

#[test]
fn test_extensions() {
    let shared = Arc::new(ComplexSharedType(20));

    let mut extensions = Extensions::new();

    extensions.insert(5i32);
    extensions.insert(MyType(10));
    extensions.insert(shared.clone());

    assert_eq!(extensions.get(), Some(5i32));
    assert_eq!(extensions.get::<Arc<ComplexSharedType>>(), Some(shared));

    assert_eq!(extensions.remove::<i32>(), Some(5i32));
    assert!(extensions.get::<i32>().is_none());

    assert!(extensions.get::<bool>().is_none());
    assert_eq!(extensions.get(), Some(MyType(10)));
}

#[test]
fn extensions_insert_returns_previous_value() {
    let mut ext = Extensions::new();
    assert!(ext.insert(5i32).is_none());
    assert!(ext.insert(4u8).is_none());
    assert_eq!(ext.insert(9i32), Some(5i32));
    assert_eq!(ext.len(), 2);
}

#[test]
fn extensions_get_after_insert() {
    let mut ext = Extensions::new();
    assert!(ext.get::<i32>().is_none());
    ext.insert(5i32);
    assert_eq!(ext.get::<i32>().unwrap(), 5i32);
}

#[test]
fn extensions_len_clear_and_is_empty() {
    let mut ext = Extensions::new();
    assert!(ext.is_empty());
    assert_eq!(ext.len(), 0);
    ext.insert(1u8);
    ext.insert(2u16);
    assert_eq!(ext.len(), 2);
    assert!(!ext.is_empty());
    assert_eq!(ext.remove::<u8>(), Some(1u8));
    assert_eq!(ext.remove::<u8>(), None);
    assert_eq!(ext.len(), 1);
    ext.clear();
    assert!(ext.is_empty());
    assert!(ext.get::<u16>().is_none());
}
