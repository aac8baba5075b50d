use dicepw::generate::{advance, check_pw, generate_pw, CheckPasswordError};
use dicepw::params::{DicewareParams, Range};
use dicepw::passphrase::{DicewarePassword, ExtraCharacter, Wordlist};

fn small_wordlist() -> Wordlist {
    let mut words: Vec<String> = Vec::new();
    for i in 0..128 {
        words.push(format!("word{i}"));
    }
    Wordlist::new(words).expect("no word is empty")
}

#[test]
fn test_advance() {
    let mut seed = [0, 0, 0, 0, 0, 0, 0, 0, 0, 0, 0, 0, 0, 0, 0, 0, 0, 0, 0, 0];
    advance(&mut seed);
    assert_eq!(
        seed,
        [0, 0, 0, 0, 0, 0, 0, 0, 0, 0, 0, 0, 0, 0, 0, 0, 0, 0, 0, 1]
    );

    let mut seed = [
        0, 0, 0, 0, 0, 0, 0, 0, 0, 0, 0, 0, 0, 0, 0, 10, 255, 255, 255, 254,
    ];
    advance(&mut seed);
    assert_eq!(
        seed,
        [0, 0, 0, 0, 0, 0, 0, 0, 0, 0, 0, 0, 0, 0, 0, 10, 255, 255, 255, 255]
    );
    advance(&mut seed);
    assert_eq!(
        seed,
        [0, 0, 0, 0, 0, 0, 0, 0, 0, 0, 0, 0, 0, 0, 0, 11, 0, 0, 0, 0]
    );

    let mut seed = [255; 20];
    advance(&mut seed);
    assert_eq!(seed, [0; 20]);
}

#[test]
fn test_gen_is_deterministic() {
    let wl = small_wordlist();
    let seed: [u8; 20] = [10; 20];
    let params = DicewareParams {
        words: Range { low: 1, high: 10 },
        extras: Range { low: 0, high: 5 },
    };
    let pw_a = generate_pw(&seed, &params, &wl);
    let pw_b = generate_pw(&seed, &params, &wl);
    assert_eq!(pw_a, pw_b);
}

#[test]
fn test_check_works() {
    let wl = small_wordlist();
    let seed: [u8; 20] = [10; 20];
    let params = DicewareParams {
        words: Range { low: 1, high: 10 },
        extras: Range { low: 0, high: 5 },
    };
    let pw = generate_pw(&seed, &params, &wl);
    assert_eq!(check_pw(&seed, &params, &pw, &wl), Ok(()));
}

#[test]
fn test_counts_stay_within_ranges() {
    let wl = small_wordlist();
    let params = DicewareParams {
        words: Range { low: 2, high: 4 },
        extras: Range { low: 1, high: 3 },
    };
    for b in 0..8u8 {
        let seed: [u8; 20] = [b; 20];
        let pw = generate_pw(&seed, &params, &wl);
        assert!(pw.words.len() >= 2 && pw.words.len() <= 4);
        assert!(!pw.extras.is_empty() && pw.extras.len() <= 3);
        for w in &pw.words {
            assert!(*w < 128);
        }
    }
}

#[test]
fn test_different_seeds_differ() {
    // Changing the seed changes the sampled passphrase with overwhelming
    // probability; a collision among these renders would be astonishing.
    let wl = small_wordlist();
    let params = DicewareParams {
        words: Range { low: 6, high: 6 },
        extras: Range { low: 2, high: 2 },
    };
    let mut renders: Vec<String> = Vec::new();
    for b in 0..5u8 {
        let seed: [u8; 20] = [b; 20];
        renders.push(generate_pw(&seed, &params, &wl).render(&wl));
    }
    // A seed differing in a single byte counts too.
    let mut seed: [u8; 20] = [0; 20];
    seed[19] = 1;
    renders.push(generate_pw(&seed, &params, &wl).render(&wl));
    for i in 0..renders.len() {
        for j in (i + 1)..renders.len() {
            assert_ne!(renders[i], renders[j]);
        }
    }
}

#[test]
fn test_wrong_word_reported_at_index() {
    let wl = small_wordlist();
    let seed: [u8; 20] = [7; 20];
    let params = DicewareParams {
        words: Range { low: 6, high: 6 },
        extras: Range { low: 0, high: 0 },
    };
    let mut pw = generate_pw(&seed, &params, &wl);
    let original = pw.words[2];
    let corrupted = (original + 1) % 128;
    pw.words[2] = corrupted;
    assert_eq!(
        check_pw(&seed, &params, &pw, &wl),
        Err(CheckPasswordError::WrongWord {
            at_idx: 2,
            expected: corrupted,
            got: original,
        })
    );
}

#[test]
fn test_wrong_length_reported() {
    let wl = small_wordlist();
    let seed: [u8; 20] = [7; 20];
    let params_six = DicewareParams {
        words: Range { low: 6, high: 6 },
        extras: Range { low: 0, high: 0 },
    };
    let params_seven = DicewareParams {
        words: Range { low: 7, high: 7 },
        extras: Range { low: 0, high: 0 },
    };
    let pw = generate_pw(&seed, &params_six, &wl);
    assert_eq!(
        check_pw(&seed, &params_seven, &pw, &wl),
        Err(CheckPasswordError::WrongLength {
            expected: 6,
            got: 7,
        })
    );
}

#[test]
fn test_extras_mismatch_reported_as_unknown() {
    let wl = small_wordlist();
    let seed: [u8; 20] = [9; 20];
    let params = DicewareParams {
        words: Range { low: 6, high: 6 },
        extras: Range { low: 3, high: 3 },
    };
    let mut pw = generate_pw(&seed, &params, &wl);
    // Swap the first extra for one of the other variant: never equal.
    pw.extras[0] = match pw.extras[0] {
        ExtraCharacter::Special { .. } => ExtraCharacter::Indexed {
            from_word: 0,
            inside_word: 0,
            position: 0,
        },
        ExtraCharacter::Indexed { .. } => ExtraCharacter::Special {
            which: 0,
            position: 0,
        },
    };
    assert_eq!(
        check_pw(&seed, &params, &pw, &wl),
        Err(CheckPasswordError::Unknown)
    );
}

#[test]
fn test_advance_then_check_recovers_seed() {
    // Brute-force recovery over a tiny tail of the seed space: start a
    // few steps before the target and advance until the check accepts.
    let wl = small_wordlist();
    let params = DicewareParams {
        words: Range { low: 2, high: 3 },
        extras: Range { low: 0, high: 1 },
    };
    let mut target: [u8; 20] = [0; 20];
    target[19] = 3;
    let pw = generate_pw(&target, &params, &wl);
    let mut candidate: [u8; 20] = [0; 20];
    let mut found = None;
    for _ in 0..10 {
        if check_pw(&candidate, &params, &pw, &wl) == Ok(()) {
            found = Some(candidate);
            break;
        }
        advance(&mut candidate);
    }
    assert_eq!(found, Some(target));
}

#[test]
fn test_rendered_passphrase_checks_structurally() {
    // Rendering the same structure twice gives the same text.
    let wl = small_wordlist();
    let seed: [u8; 20] = [4; 20];
    let params = DicewareParams {
        words: Range { low: 3, high: 5 },
        extras: Range { low: 1, high: 2 },
    };
    let pw = generate_pw(&seed, &params, &wl);
    let again = generate_pw(&seed, &params, &wl);
    assert_eq!(pw.render(&wl), again.render(&wl));
    assert!(pw == again);
    let other_pw = DicewarePassword {
        words: pw.words.clone(),
        extras: Vec::new(),
    };
    if !pw.extras.is_empty() {
        assert!(pw != other_pw);
    }
}
