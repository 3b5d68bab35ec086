use gol2::tiny_str::TinyStr;

#[test]
fn test_tiny_str_macro() {
    let s = TinyStr::from_str("Hello").unwrap();
    assert_eq!(s.as_str(), "Hello");
}

#[test]
fn test_from_str() {
    let s = TinyStr::from_str("Hello").unwrap();
    assert_eq!(s.as_str(), "Hello");
    assert_eq!(s.len(), 5);
}

#[test]
fn test_serde() {
    let s = TinyStr::from_str("Hello").unwrap();
    let json = serde_json::to_string(s.as_str()).unwrap();
    let text: String = serde_json::from_str(&json).unwrap();
    let deserialized = TinyStr::from_str(&text).unwrap();
    println!("{:?} // {:?}", s, deserialized);
    assert_eq!(s, deserialized);
}

#[test]
fn tiny_str_rejects_long_and_non_ascii() {
    assert!(TinyStr::from_str("this text is longer than twenty").is_none());
    assert!(TinyStr::from_str("héllo").is_none());
    let full = TinyStr::from_str("abcdefghijklmnopqrst").unwrap();
    assert_eq!(full.len(), 20);
    assert_eq!(full.as_str(), "abcdefghijklmnopqrst");
}

#[test]
fn tiny_str_empty() {
    let e = TinyStr::new();
    assert!(e.is_empty());
    assert_eq!(e.len(), 0);
    assert_eq!(e.as_str(), "");
    assert!(!TinyStr::from_str("a").unwrap().is_empty());
}
