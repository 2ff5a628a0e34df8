use compact_str::CompactString;
use terrier::chords::debruijn::DeBruijner;
use terrier::ui::prompt::{menu_prompt, unknown_chord, Entry, KeyMap, NoCandidate, Pressed};

fn entry(chord: &str, label: &str, payload: u8, show: bool) -> Entry<u8> {
    Entry {
        chord: CompactString::from(chord),
        label: CompactString::from(label),
        payload,
        show,
    }
}

fn entries() -> Vec<Entry<u8>> {
    vec![
        entry("aa", "first", 1, false),
        entry("as", "second", 2, false),
        entry("sd", "third", 3, true),
        entry("q", "quit", 4, true),
    ]
}

#[test]
fn characters_narrow_the_choice() {
    let mut keys = KeyMap::from_choices(&entries());
    assert_eq!(keys.read_char('a'), Ok(None));
    assert_eq!(keys.read_char('s'), Ok(Some(&2)));
}

#[test]
fn a_choice_falls_as_soon_as_it_can() {
    let mut keys = KeyMap::from_choices(&entries());
    assert_eq!(keys.read_char('s'), Ok(Some(&3)));
}

#[test]
fn unknown_characters_are_refused() {
    let mut keys = KeyMap::from_choices(&entries());
    assert_eq!(keys.read_char('x'), Err(NoCandidate));
    assert_eq!(keys.read_char('q'), Err(NoCandidate));
    keys.clear();
    assert_eq!(keys.read_char('q'), Ok(Some(&4)));
    assert_eq!(NoCandidate.message(), "no valid candidate found");
}

#[test]
fn keys_are_pressed() {
    let mut keys = KeyMap::from_choices(&entries());
    assert!(matches!(keys.press('a'), Pressed::More));
    match keys.press('x') {
        Pressed::Unknown(typed) => assert_eq!(typed.as_str(), "ax"),
        _ => panic!("no chord starts with these"),
    }
    assert!(matches!(keys.press('a'), Pressed::More));
    assert!(matches!(keys.press('a'), Pressed::Chosen(1)));
}

#[test]
fn every_chord_can_be_typed() {
    for e in entries() {
        let mut keys = KeyMap::from_choices(&entries());
        let mut chosen = None;
        for c in e.chord.as_str().chars() {
            match keys.press(c) {
                Pressed::Chosen(p) => {
                    chosen = Some(p);
                    break;
                }
                Pressed::More => {}
                Pressed::Unknown(_) => panic!("the chord is in the menu"),
            }
        }
        assert_eq!(chosen, Some(e.payload));
    }
}

#[test]
fn every_menu_chord_can_be_typed() {
    for n in [1, 4, 5, 16, 17, 70, 256, 257] {
        let length = ((n as f32).log(4.0).ceil() as usize).max(1);
        let chords = DeBruijner::default().generate_n(n, length);
        let entries: Vec<Entry<usize>> = chords
            .iter()
            .enumerate()
            .map(|(j, c)| Entry {
                chord: c.clone(),
                label: CompactString::from("x"),
                payload: j,
                show: false,
            })
            .collect();
        let mut keys = KeyMap::from_choices(&entries);
        for (i, chord) in chords.iter().enumerate() {
            keys.clear();
            let answer = chord.as_str().chars().find_map(|c| match keys.read_char(c) {
                Ok(None) => None,
                Ok(Some(p)) => Some(*p),
                Err(e) => panic!("{}", e.message()),
            });
            assert_eq!(answer, Some(i));
        }
    }
}

#[test]
fn prompts_list_what_is_shown() {
    colored::control::set_override(false);
    assert_eq!(menu_prompt("Go: ", &entries()), "Go: [sd] third - [q] quit");
    assert_eq!(menu_prompt("", &entries()[..2].to_vec()), "");
}

#[test]
fn unknown_chords_are_named() {
    colored::control::set_override(false);
    assert_eq!(unknown_chord("ax"), "Unknown key chord `ax`");
}

#[test]
fn entries_are_cloned() {
    let e = entry("sd", "third", 3, true);
    let c = e.clone();
    assert_eq!(c.chord, e.chord);
    assert_eq!(c.label, e.label);
    assert_eq!(c.payload, 3);
    assert!(c.show);
}
