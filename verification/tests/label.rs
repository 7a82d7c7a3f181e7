use bracket_tree::error::ParseError;
use bracket_tree::label::{Label, StringLabel};

#[test]
fn it_works() {
    let lbl = StringLabel::new("haha".to_owned());
    assert_eq!(lbl.get_label(), "haha");
}

#[test]
fn lib_it_works() {
    let lbl = StringLabel::new("haha".to_owned());
    assert_eq!(lbl.get_label().len(), 4);
}

#[test]
fn corrent_display_impl() {
    let lbl = StringLabel::new("haha".to_owned());
    assert_eq!(lbl.to_string(), "haha");
}

#[test]
fn set_label_replaces_the_value() {
    let mut lbl = StringLabel::new("old".to_owned());
    lbl.set_label("new".to_owned());
    assert_eq!(lbl.get_label(), "new");
    assert_eq!(lbl.to_string(), "new");
}

#[test]
fn labels_compare_by_text() {
    let a = StringLabel::new("x".to_owned());
    let b = StringLabel::new("x".to_owned());
    let c = StringLabel::new("y".to_owned());
    assert!(a == b);
    assert!(a != c);
    assert_eq!(a.clone(), a);
}

#[test]
fn from_bytes_decodes_utf8() {
    let lbl = StringLabel::from_bytes("kořen".as_bytes()).unwrap();
    assert_eq!(lbl.get_label(), "kořen");
    let empty = StringLabel::from_bytes(&[]).unwrap();
    assert_eq!(empty.get_label(), "");
}

#[test]
fn from_bytes_rejects_invalid_utf8() {
    assert_eq!(StringLabel::from_bytes(&[0x61, 0xff]), Err(ParseError::InvalidEncoding));
    assert_eq!(StringLabel::from_bytes(&[0xc3]), Err(ParseError::InvalidEncoding));
    assert_eq!(StringLabel::from_bytes(&[0xed, 0xa0, 0x80]), Err(ParseError::InvalidEncoding));
}

#[test]
fn every_error_has_its_own_message() {
    let all = [
        ParseError::StructuralError,
        ParseError::UnterminatedLabel,
        ParseError::UnbalancedClosingToken,
        ParseError::InvalidEncoding,
        ParseError::MultipleRoots,
    ];
    for (i, a) in all.iter().enumerate() {
        assert!(!a.message().is_empty());
        for b in all.iter().skip(i + 1) {
            assert_ne!(a.message(), b.message());
        }
    }
    assert_eq!(
        ParseError::StructuralError.message(),
        "input has too few structural tokens to form a tree"
    );
}
