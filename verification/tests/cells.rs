use terrier::cells::fits_cell;

#[test]
fn plain_texts_fit() {
    for text in ["", "read", "ああ", "a\nb\tc\r", "\u{0}\u{7f}\u{85}\u{9b}31m", "[31m"] {
        assert!(fits_cell(text), "{text:?}");
    }
}

#[test]
fn styles_fit() {
    for text in [
        "\u{1b}[m",
        "\u{1b}[0m",
        "a\u{1b}[1;33mb\u{1b}[0mc",
        "\u{1b}[38;2;80;80;80mread\u{1b}[0m",
        "\u{1b}[31m\u{1b}[0m",
        "\u{1b}[1234567890123456789012345678901m",
    ] {
        assert!(fits_cell(text), "{text:?}");
    }
}

#[test]
fn other_sequences_do_not_fit() {
    for text in [
        "\u{1b}",
        "\u{1b}[",
        "\u{1b}[31",
        "\u{1b}[31n",
        "\u{1b}31m",
        "\u{1b}\u{1b}[31m",
        "\u{1b}[!!p\u{3042}\u{3042}\u{1b}[0m",
        "\u{1b}[31m\u{1b}]0;title\u{7}",
        "\u{1b}[38:2m",
        "\u{1b}[12345678901234567890123456789012m",
    ] {
        assert!(!fits_cell(text), "{text:?}");
    }
}
