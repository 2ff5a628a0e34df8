use compact_str::CompactString;
use terrier::chords::debruijn::{DeBruijner, TooFewKeys};

fn text(chars: &[char]) -> String {
    chars.iter().collect()
}

fn texts(chords: &[CompactString]) -> Vec<String> {
    chords.iter().map(|c| c.to_string()).collect()
}

fn over(letters: &str) -> DeBruijner {
    match DeBruijner::new(letters.to_string()) {
        Ok(d) => d,
        Err(e) => panic!("{}", e.message()),
    }
}

/// The length that the menu takes for `n` chords.
fn menu_length(n: usize) -> usize {
    ((n as f32).log(4.0).ceil() as usize).max(1)
}

#[test]
fn cycles_over_two_letters() {
    let d = over("ab");
    assert_eq!(text(&d.debruijn(1)), "ab");
    assert_eq!(text(&d.debruijn(2)), "aabb");
    assert_eq!(text(&d.debruijn(3)), "aaababbb");
    assert_eq!(text(&d.debruijn(4)), "aaaabaabbababbbb");
}

#[test]
fn cycle_over_three_letters() {
    assert_eq!(text(&over("xyz").debruijn(2)), "xxyxzyyzz");
}

#[test]
fn default_letters() {
    assert_eq!(text(&DeBruijner::default().debruijn(1)), "asdf");
    assert_eq!(text(&DeBruijner::default().debruijn(2)), "aasadafssdsfddff");
}

#[test]
fn too_few_letters() {
    assert!(matches!(DeBruijner::new(String::new()), Err(TooFewKeys)));
    assert!(matches!(DeBruijner::new("a".to_string()), Err(TooFewKeys)));
    assert!(matches!(DeBruijner::new("aaaa".to_string()), Err(TooFewKeys)));
    assert_eq!(TooFewKeys.message(), "at least two keys are required for keychords");
}

#[test]
fn runs_of_a_letter_count_once() {
    assert_eq!(text(&over("aabbb").debruijn(1)), "ab");
    assert_eq!(text(&over("abba").debruijn(1)), "aba");
}

#[test]
fn no_chords() {
    assert!(DeBruijner::default().generate_n(0, 0).is_empty());
    assert!(DeBruijner::default().generate_n(0, 3).is_empty());
}

#[test]
fn chords_of_one_letter() {
    assert_eq!(texts(&DeBruijner::default().generate_n(3, 1)), ["f", "d", "s"]);
    assert_eq!(texts(&DeBruijner::default().generate_n(4, 1)), ["f", "d", "s", "a"]);
}

#[test]
fn chords_of_two_letters() {
    let all = texts(&DeBruijner::default().generate_n(16, 2));
    assert_eq!(
        all,
        [
            "ff", "fd", "dd", "df", "fs", "sd", "ds", "ss", "sf", "fa", "ad", "da", "as", "sa",
            "aa", "af"
        ]
    );
}

#[test]
fn chords_end_with_the_cycle() {
    // Twice four letters leave less than a whole chord behind the seventh.
    assert_eq!(texts(&over("ab").generate_n(9, 2))[7..], ["a", ""]
        .iter()
        .map(|s| s.to_string())
        .collect::<Vec<_>>());
}

#[test]
fn menu_chords_differ() {
    for n in 1..=300 {
        let length = menu_length(n);
        let mut all = texts(&DeBruijner::default().generate_n(n, length));
        assert_eq!(all.len(), n);
        assert!(all.iter().all(|c| c.chars().count() == length));
        assert!(all.iter().all(|c| c.chars().all(|x| "asdf".contains(x))));
        all.sort();
        all.dedup();
        assert_eq!(all.len(), n);
    }
}

#[test]
fn menu_chords_are_long_enough() {
    for n in 1..=65536usize {
        assert!(4usize.pow(menu_length(n) as u32) >= n, "{n}");
    }
}

#[test]
fn chords_are_all_words() {
    let mut all = texts(&over("abc").generate_n(27, 3));
    all.sort();
    let mut words = Vec::new();
    for x in ["a", "b", "c"] {
        for y in ["a", "b", "c"] {
            for z in ["a", "b", "c"] {
                words.push(format!("{x}{y}{z}"));
            }
        }
    }
    assert_eq!(all, words);
}

#[test]
fn repeated_letters_repeat_chords() {
    assert_eq!(texts(&over("aba").generate_n(3, 1)), ["a", "b", "a"]);
}

#[test]
fn many_letters_start_over() {
    let letters: String = (0..300u32).map(|i| char::from_u32(0x4e00 + i).unwrap()).collect();
    let cycle = over(&letters).debruijn(1);
    assert_eq!(cycle.len(), 300);
    assert_eq!(cycle[255], '\u{4eff}');
    assert_eq!(cycle[256], '\u{4e00}');
    assert_eq!(cycle[299], '\u{4e2b}');
}
