use keybindings::bindings::Action;
use keybindings::bindings::Bindings;
use keybindings::chord::Chord;
use keybindings::lexer::Lexer;
use keybindings::lexer::Token;
use keybindings::parser::parse;
use keybindings::parser::Sequence;
use keybindings::trie::CharTab;
use keybindings::trie::Trie;

fn syms_of(word: &str) -> Vec<u32> {
    word.chars().map(|c| c as u32).collect()
}

#[test]
fn test_bindings() {
    let cases = vec![
        (
            // the bindings mapping
            vec![("a", Action::Detach)],
            // the keypresses to scan over
            vec!['a'].iter().map(|c| *c as u32 as u8).collect::<Vec<_>>(),
            Some(Action::Detach), // the final output from the engine
        ),
        (
            vec![("a", Action::Detach)],
            vec!['b', 'x', 'y', 'a']
                .iter()
                .map(|c| *c as u32 as u8)
                .collect::<Vec<_>>(),
            Some(Action::Detach),
        ),
        (
            vec![("a", Action::Detach)],
            vec!['b'].iter().map(|c| *c as u32 as u8).collect::<Vec<_>>(),
            None,
        ),
        (
            vec![("a", Action::Detach)],
            vec!['a', 'a', 'x', 'a', 'b']
                .iter()
                .map(|c| *c as u32 as u8)
                .collect::<Vec<_>>(),
            None,
        ),
        (vec![("Ctrl-a", Action::Detach)], vec![1], Some(Action::Detach)),
        (vec![("Ctrl-Space", Action::Detach)], vec![0], Some(Action::Detach)),
        (
            vec![("Ctrl-Space Ctrl-d", Action::Detach)],
            vec![0, 4],
            Some(Action::Detach),
        ),
        (vec![("Ctrl-Space Ctrl-d", Action::Detach)], vec![0, 20, 4], None),
        (vec![("Ctrl-Space Ctrl-d", Action::Detach)], vec![0, 4, 20], None),
    ];

    for (bindings_mapping, keypresses, final_output) in cases.into_iter() {
        let mut bindings = Bindings::new(&bindings_mapping).unwrap();

        let mut actual_final_output = None;
        for byte in keypresses.into_iter() {
            actual_final_output = bindings.transition(byte);
        }
        assert_eq!(actual_final_output, final_output);
    }
}

#[test]
fn test_cord_validity() {
    let cases = vec![
        ("Ctrl-x", ""),
        ("a-a", "Ctrl is the only supported mod key"),
        ("Ctrl-a-x", "invalid chord"),
        ("a-Ctrl", "Ctrl is the only supported mod key"),
        ("Ctrl-Ctrl", "Ctrl cannot be repeated"),
    ];

    let tokenizer = Lexer::new();
    for (src, errstr) in cases.into_iter() {
        let tokens = tokenizer.tokenize(src).unwrap();
        let seq = parse(tokens).unwrap();
        let chord = seq.0[0].clone();

        if errstr == "" {
            chord.check_valid().unwrap();
        } else {
            if let Err(e) = chord.check_valid() {
                let got = e.message();
                assert!(got.contains(errstr));
            } else {
                panic!("bad success, want err with: {}", errstr);
            }
        }
    }
}

#[test]
fn test_parse_ok() {
    let cases = vec![
        (
            "Ctrl-x a",
            Sequence(vec![
                Chord(vec![String::from("Ctrl"), String::from("x")]),
                Chord(vec![String::from("a")]),
            ]),
        ),
        (
            "Ctrl-x-a",
            Sequence(vec![Chord(vec![
                String::from("Ctrl"),
                String::from("x"),
                String::from("a"),
            ])]),
        ),
        (
            "Ctrl Ctrl b c",
            Sequence(vec![
                Chord(vec![String::from("Ctrl")]),
                Chord(vec![String::from("Ctrl")]),
                Chord(vec![String::from("b")]),
                Chord(vec![String::from("c")]),
            ]),
        ),
    ];

    let tokenizer = Lexer::new();
    for (src, want) in cases.into_iter() {
        let tokens = tokenizer.tokenize(src).unwrap();
        let got = parse(tokens).unwrap();
        assert_eq!(got, want);
    }
}

#[test]
fn test_tokenize_ok() {
    let cases = vec![
        ("-", vec![Token::Dash]),
        ("- ", vec![Token::Dash]),
        ("-\t", vec![Token::Dash]),
        (" -\t", vec![Token::Dash]),
        (" \t-\t ", vec![Token::Dash]),
        ("a", vec![Token::Key(String::from("a"))]),
        (
            "a a",
            vec![Token::Key(String::from("a")), Token::Key(String::from("a"))],
        ),
        (
            "aa",
            vec![Token::Key(String::from("a")), Token::Key(String::from("a"))],
        ),
        ("Ctrl", vec![Token::Key(String::from("Ctrl"))]),
        (
            "Ctrl-a",
            vec![
                Token::Key(String::from("Ctrl")),
                Token::Dash,
                Token::Key(String::from("a")),
            ],
        ),
    ];

    let tokenizer = Lexer::new();
    for (src, want) in cases.into_iter() {
        let got = tokenizer.tokenize(src).unwrap();
        assert_eq!(got, want);
    }
}

#[test]
fn test_tokenize_err() {
    let cases = vec![("CtrCtrl", "unexpected char"), ("Ctrc", "unexpected char")];

    let tokenizer = Lexer::new();
    for (src, errsubstr) in cases.into_iter() {
        if let Err(err) = tokenizer.tokenize(src) {
            let errstr = err.message();
            assert!(errstr.contains(errsubstr));
        } else {
            assert!(false, "expected an error")
        }
    }
}

#[test]
fn test_trie_contains() {
    let cases = vec![
        vec!["word"],
        vec![""],
        vec!["word", "words", "blah", "blip", "foo", "bar"],
    ];

    for words in cases.into_iter() {
        let mut trie: Trie<(), CharTab> = Trie::new();
        for word in words.iter() {
            trie.insert(&syms_of(word), ());
        }
        for word in words.iter() {
            assert!(trie.contains(&syms_of(word)));
        }
    }
}

// A trie reports no key that was not inserted, a proper prefix of an
// inserted key included.
#[test]
fn test_trie_contains_no_others() {
    let mut trie: Trie<(), CharTab> = Trie::new();
    for word in ["word", "words", ""].iter() {
        trie.insert(&syms_of(word), ());
    }
    assert!(trie.contains(&syms_of("word")));
    assert!(trie.contains(&syms_of("words")));
    assert!(trie.contains(&syms_of("")));
    assert!(!trie.contains(&syms_of("wor")));
    assert!(!trie.contains(&syms_of("wordss")));
    assert!(!trie.contains(&syms_of("blah")));
}

// Exact key codes from both halves of the resolution: bare symbols and
// the control-code table, aliases included.
#[test]
fn test_key_codes_exact() {
    let code = |keys: Vec<&str>| {
        Chord(keys.into_iter().map(String::from).collect())
            .key_code()
            .unwrap()
    };
    assert_eq!(code(vec!["a"]), 97);
    assert_eq!(code(vec!["z"]), 122);
    assert_eq!(code(vec!["0"]), 48);
    assert_eq!(code(vec!["Space"]), 32);
    assert_eq!(code(vec!["Ctrl", "Space"]), 0);
    assert_eq!(code(vec!["Ctrl", "a"]), 1);
    assert_eq!(code(vec!["Ctrl", "d"]), 4);
    assert_eq!(code(vec!["Ctrl", "y"]), 24);
    assert_eq!(code(vec!["Ctrl", "x"]), 25);
    assert_eq!(code(vec!["Ctrl", "z"]), 26);
    assert_eq!(code(vec!["Ctrl", "2"]), 0);
    assert_eq!(code(vec!["Ctrl", "7"]), 31);
    assert_eq!(code(vec!["Ctrl", "0"]), 127);
}

// A well-shaped Ctrl-chord whose symbol has no control-code entry is
// rejected only at code resolution, not at validation.
#[test]
fn test_key_code_unknown() {
    let chord = Chord(vec![String::from("Ctrl"), String::from("9")]);
    chord.check_valid().unwrap();
    let err = chord.key_code().unwrap_err();
    assert!(err.message().contains("unknown key code for chord"));
}

// One input for each compile-time error the chord model reports.
#[test]
fn test_chord_errors() {
    let invalid_key = Chord(vec![String::from("ab")]).check_valid().unwrap_err();
    assert!(invalid_key.message().contains("invalid key"));
    let ctrl_alone = Chord(vec![String::from("Ctrl")]).check_valid().unwrap_err();
    assert!(ctrl_alone.message().contains("Ctrl is not a cord"));
    let empty = Chord(vec![]).check_valid().unwrap_err();
    assert!(empty.message().contains("invalid chord"));
}

// A leading dash and a doubled dash both fail to parse.
#[test]
fn test_parse_err() {
    let tokenizer = Lexer::new();
    for src in ["-a", "a--b"].iter() {
        let tokens = tokenizer.tokenize(src).unwrap();
        let err = parse(tokens).unwrap_err();
        assert!(err.message().contains("unexpected DASH token"));
    }
}

// Round trip: a binding string of bare symbols comes back as one
// one-chord sequence per symbol, in order.
#[test]
fn test_single_symbol_round_trip() {
    let tokenizer = Lexer::new();
    let tokens = tokenizer.tokenize("ab9").unwrap();
    assert_eq!(
        tokens,
        vec![
            Token::Key(String::from("a")),
            Token::Key(String::from("b")),
            Token::Key(String::from("9")),
        ]
    );
    let seq = parse(tokens).unwrap();
    assert_eq!(
        seq,
        Sequence(vec![
            Chord(vec![String::from("a")]),
            Chord(vec![String::from("b")]),
            Chord(vec![String::from("9")]),
        ])
    );
}

// Once matching has failed and nothing is pending, bytes that begin no
// configured chord keep emitting nothing, until a valid prefix begins.
#[test]
fn test_failure_is_stable() {
    let mut bindings = Bindings::new(&vec![("Ctrl-Space Ctrl-d", Action::Detach)]).unwrap();
    for byte in [42u8, 99, 250, 42, 99] {
        assert_eq!(bindings.transition(byte), None);
    }
    // a fresh valid prefix still completes after all that noise
    assert_eq!(bindings.transition(0), None);
    assert_eq!(bindings.transition(4), Some(Action::Detach));
}

// The compiler shares one atom between identical chords in different
// bindings, and distinct bindings fire independently.
#[test]
fn test_two_bindings() {
    let mut bindings = Bindings::new(&vec![
        ("Ctrl-a b", Action::Detach),
        ("Ctrl-a c", Action::Detach),
    ])
    .unwrap();
    assert_eq!(bindings.transition(1), None);
    assert_eq!(bindings.transition(b'c'), Some(Action::Detach));
    assert_eq!(bindings.transition(1), None);
    assert_eq!(bindings.transition(b'b'), Some(Action::Detach));
}

// Compilation is atomic: one bad binding fails the whole set.
#[test]
fn test_compile_fails_whole() {
    match Bindings::new(&vec![("a", Action::Detach), ("Ctrl-Ctrl", Action::Detach)]) {
        Err(err) => assert!(err.message().contains("Ctrl cannot be repeated")),
        Ok(_) => panic!("expected an error"),
    }
}
