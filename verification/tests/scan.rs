use bracket_tree::scan::Tokens;

fn usual() -> Tokens {
    Tokens { start: b'{', end: b'}', escape: b'\\' }
}

#[test]
fn scan_finds_every_token_in_order() {
    assert_eq!(usual().scan(b"{a{b}{c}}"), vec![0, 2, 4, 5, 7, 8]);
    assert_eq!(usual().scan(b"}{"), vec![0, 1]);
}

#[test]
fn scan_of_text_without_tokens_is_empty() {
    assert_eq!(usual().scan(b""), Vec::<usize>::new());
    assert_eq!(usual().scan(b"plain text"), Vec::<usize>::new());
    assert_eq!(usual().scan(b"\\{\\}"), Vec::<usize>::new());
}

#[test]
fn scan_drops_escaped_tokens() {
    assert_eq!(usual().scan(b" \\{ {koren{levy}{pravy}}"), vec![4, 10, 15, 16, 22, 23]);
    assert_eq!(usual().scan(b"{a\\}b}"), vec![0, 5]);
}

#[test]
fn scan_looks_at_one_byte_before_the_token_only() {
    // the second backslash escapes, although the first escapes the second
    assert_eq!(usual().scan(b"\\\\{"), Vec::<usize>::new());
    assert_eq!(usual().scan(b"{\\\\}"), vec![0]);
}

#[test]
fn scan_takes_other_tokens() {
    let tokens = Tokens { start: b'(', end: b')', escape: b'!' };
    assert_eq!(tokens.scan(b"(a!(b)){}"), vec![0, 5, 6]);
    let same = Tokens { start: b'|', end: b'|', escape: b'|' };
    assert_eq!(same.scan(b"|a||b"), vec![0, 2]);
}
