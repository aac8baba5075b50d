use dicepw::params::Range;
use dicepw::passphrase::{DicewarePassword, ExtraCharacter, Wordlist};

// A dictionary whose indices 1000..=1005 hold the words the rendering
// expectations below are written against; the other slots are filler.
fn test_wordlist() -> Wordlist {
    let mut words: Vec<String> = Vec::new();
    for i in 0..1000 {
        words.push(format!("w{i}"));
    }
    for w in ["busch", "bush", "bushel", "bushy", "buss", "bust"] {
        words.push(w.to_string());
    }
    Wordlist::new(words).expect("no word is empty")
}

#[test]
pub fn test_simple_password() {
    let wl = test_wordlist();
    let pw = DicewarePassword {
        words: vec![1000, 1001, 1002, 1003, 1004, 1005],
        extras: vec![],
    };
    assert_eq!(pw.render(&wl), "busch bush bushel bushy buss bust");
}

#[test]
pub fn test_password_with_extra() {
    let wl = test_wordlist();
    let pw = DicewarePassword {
        words: vec![1000, 1001, 1002, 1003, 1004, 1005],
        extras: vec![
            ExtraCharacter::Special {
                which: 0,
                position: 0,
            },
            ExtraCharacter::Special {
                which: 1,
                position: 0,
            },
            ExtraCharacter::Special {
                which: 2,
                position: 1,
            },
            ExtraCharacter::Special {
                which: 3,
                position: 1,
            },
            ExtraCharacter::Special {
                which: 4,
                position: 2,
            },
            ExtraCharacter::Special {
                which: 5,
                position: 2,
            },
            ExtraCharacter::Special {
                which: 6,
                position: 3,
            },
            ExtraCharacter::Special {
                which: 7,
                position: 3,
            },
            ExtraCharacter::Special {
                which: 8,
                position: 4,
            },
            ExtraCharacter::Special {
                which: 9,
                position: 4,
            },
            ExtraCharacter::Special {
                which: 10,
                position: 5,
            },
            ExtraCharacter::Special {
                which: 11,
                position: 5,
            },
            ExtraCharacter::Special {
                which: 16,
                position: 6,
            },
            ExtraCharacter::Special {
                which: 17,
                position: 6,
            },
        ],
    };
    assert_eq!(
        pw.render(&wl),
        "~! busch #$ bush %^ bushel &* bushy () buss -= bust {}"
    );
}

#[test]
pub fn test_password_with_indexed_extra() {
    let wl = test_wordlist();
    let pw = DicewarePassword {
        words: vec![1000, 1001, 1002],
        extras: vec![
            ExtraCharacter::Indexed {
                from_word: 0,
                inside_word: 0,
                position: 0,
            },
            ExtraCharacter::Indexed {
                from_word: 0,
                inside_word: 7,
                position: 0,
            },
            ExtraCharacter::Special {
                which: 0,
                position: 0,
            },
        ],
    };
    assert_eq!(pw.render(&wl), "bs~ busch bush bushel");
}

#[test]
fn test_extra_character_lookup() {
    let wl = test_wordlist();
    let pw = DicewarePassword {
        words: vec![1002],
        extras: vec![],
    };
    let special = ExtraCharacter::Special {
        which: 15,
        position: 1,
    };
    assert_eq!(special.get_char(&pw, &wl), '\\');
    assert_eq!(special.position(), 1);
    let indexed = ExtraCharacter::Indexed {
        from_word: 3,
        inside_word: 10,
        position: 2,
    };
    // from_word 3 % 1 word = word "bushel"; offset 10 % 6 = 4 -> 'e'.
    assert_eq!(indexed.get_char(&pw, &wl), 'e');
    assert_eq!(indexed.position(), 2);
}

#[test]
fn test_late_extra_after_last_word() {
    let wl = test_wordlist();
    let pw = DicewarePassword {
        words: vec![1000, 1001],
        extras: vec![ExtraCharacter::Special {
            which: 0,
            position: 5,
        }],
    };
    // A position past the word count lands in the tail bucket, separated
    // from the last word by one space and followed by nothing.
    assert_eq!(pw.render(&wl), "busch bush ~");
}

#[test]
fn test_render_without_words() {
    let wl = test_wordlist();
    let pw = DicewarePassword {
        words: vec![],
        extras: vec![
            ExtraCharacter::Special {
                which: 0,
                position: 0,
            },
            ExtraCharacter::Special {
                which: 25,
                position: 3,
            },
        ],
    };
    assert_eq!(pw.render(&wl), "~ /");
}

#[test]
fn test_wordlist_rejects_empty_word() {
    let words = vec!["alpha".to_string(), String::new(), "gamma".to_string()];
    assert!(Wordlist::new(words).is_none());
    let ok = vec!["alpha".to_string(), "beta".to_string()];
    assert!(Wordlist::new(ok).is_some());
}

#[test]
fn test_range_fields() {
    let r = Range { low: 2, high: 5 };
    assert_eq!(r.low, 2);
    assert_eq!(r.high, 5);
}
