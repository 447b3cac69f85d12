use gshare3::url::{encode_url_spaces, unencode_url_spaces};

#[test]
fn encode_replaces_every_space() {
    assert_eq!(encode_url_spaces("a b c"), "a%20b%20c");
    assert_eq!(encode_url_spaces("  "), "%20%20");
    assert_eq!(encode_url_spaces(" lead"), "%20lead");
}

#[test]
fn encode_leaves_other_text_alone() {
    assert_eq!(encode_url_spaces(""), "");
    assert_eq!(encode_url_spaces("plain/path.txt"), "plain/path.txt");
    assert_eq!(encode_url_spaces("100%"), "100%");
    assert_eq!(encode_url_spaces("é ü"), "é%20ü");
}

#[test]
fn unencode_replaces_every_escape() {
    assert_eq!(unencode_url_spaces("a%20b"), "a b");
    assert_eq!(unencode_url_spaces("%20%20"), "  ");
    assert_eq!(unencode_url_spaces("/my%20dir/a%20file.txt"), "/my dir/a file.txt");
    assert_eq!(unencode_url_spaces("%200"), " 0");
}

#[test]
fn unencode_keeps_broken_escapes() {
    assert_eq!(unencode_url_spaces(""), "");
    assert_eq!(unencode_url_spaces("%"), "%");
    assert_eq!(unencode_url_spaces("%2"), "%2");
    assert_eq!(unencode_url_spaces("100%"), "100%");
    assert_eq!(unencode_url_spaces("%21"), "%21");
    assert_eq!(unencode_url_spaces("%%20"), "% ");
    assert_eq!(unencode_url_spaces("%2%20"), "%2 ");
    assert_eq!(unencode_url_spaces("%2%2%20x"), "%2%2 x");
    assert_eq!(unencode_url_spaces("a%2b"), "a%2b");
}

#[test]
fn unencode_undoes_encode() {
    for text in ["a b", " ", "x  y ", "no spaces", "50% off now", "ü ber"] {
        assert_eq!(unencode_url_spaces(&encode_url_spaces(text)), text);
    }
}
