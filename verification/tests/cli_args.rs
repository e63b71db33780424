//! Tests of the command-line rules: word classification, option folding,
//! path handling, the default output name and whole-line parsing.

use otsify::cli::{get_default_oufile, tok_long_flag, tokenize, Args, CliError, Flag, Token,
    WhatToDo};

fn strings(words: &[&str]) -> Vec<String> {
    words.iter().map(|w| w.to_string()).collect()
}

#[test]
fn tokenize_path() {
    match tokenize("file.png") {
        Ok(Token::Path(p)) => assert_eq!(p, "file.png"),
        _ => panic!("expected a path token"),
    }
}

#[test]
fn tokenize_short_flags() {
    assert!(matches!(tokenize("-i"), Ok(Token::Flag(Flag::I))));
    assert!(matches!(tokenize("-q"), Ok(Token::Flag(Flag::Q))));
    assert!(matches!(tokenize("-h"), Ok(Token::Flag(Flag::H))));
    assert_eq!(tokenize("-x").unwrap_err(), CliError::UnknownShortFlag('x'));
    assert_eq!(tokenize("-").unwrap_err(), CliError::DanglingDash);
}

#[test]
fn tokenize_long_flags() {
    assert!(matches!(tokenize("--quiet"), Ok(Token::Flag(Flag::Q))));
    assert!(matches!(tokenize("--help"), Ok(Token::Flag(Flag::H))));
    assert_eq!(
        tokenize("--nope").unwrap_err(),
        CliError::UnknownLongFlag("--nope".to_string())
    );
    assert_eq!(tokenize("-ab").unwrap_err(), CliError::LongFlagPrefix);
}

#[test]
fn long_flag_direct() {
    assert!(matches!(tok_long_flag("--quiet"), Ok(Flag::Q)));
    assert!(matches!(tok_long_flag("--help"), Ok(Flag::H)));
    assert_eq!(tok_long_flag("-abc").unwrap_err(), CliError::LongFlagPrefix);
    assert_eq!(
        tok_long_flag("--zzz").unwrap_err(),
        CliError::UnknownLongFlag("--zzz".to_string())
    );
}

#[test]
fn flag_try_from_chars() {
    assert!(matches!(Flag::try_from('i'), Ok(Flag::I)));
    assert!(matches!(Flag::try_from('q'), Ok(Flag::Q)));
    assert!(matches!(Flag::try_from('h'), Ok(Flag::H)));
    assert_eq!(Flag::try_from('z').unwrap_err(), CliError::UnknownShortFlag('z'));
}

#[test]
fn eke_flag_folds() {
    let mut a = Args::default();
    a.eke_flag(Flag::I);
    assert!(a.i_flag && !a.q_flag && !a.h_flag);
    a.eke_flag(Flag::Q);
    assert!(a.i_flag && a.q_flag && !a.h_flag);
    a.eke_flag(Flag::H);
    assert!(a.i_flag && a.q_flag && a.h_flag);
}

#[test]
fn set_infile_existing() {
    let mut a = Args::default();
    assert!(a.set_infile("in.png", true).is_ok());
    assert_eq!(a.infile, "in.png");
}

#[test]
fn set_infile_missing() {
    let mut a = Args::default();
    assert_eq!(
        a.set_infile("gone.png", false).unwrap_err(),
        CliError::InfileMissing("gone.png".to_string())
    );
    assert_eq!(a.infile, "");
}

#[test]
fn default_oufile_names() {
    assert_eq!(get_default_oufile("photo.jpeg"), "photo_otsu.png");
    assert_eq!(get_default_oufile("a.png"), "a_otsu.png");
    assert_eq!(get_default_oufile("x.tiff"), "x_otsu.png");
    assert_eq!(get_default_oufile("noext"), "noext_otsu.png");
    assert_eq!(get_default_oufile("ab"), "ab_otsu.png");
    assert_eq!(get_default_oufile("we.ird.z"), "we.ird_otsu.png");
    assert_eq!(get_default_oufile("dot.far.away12"), "dot.far.away12_otsu.png");
}

fn toks(words: &[&str]) -> Vec<Token> {
    words.iter().map(|w| tokenize(w).unwrap()).collect()
}

#[test]
fn try_from_plain() {
    let a = Args::try_from(&toks(&["-i", "in.png"]), true).unwrap();
    assert!(a.i_flag && !a.q_flag && !a.h_flag);
    assert_eq!(a.infile, "in.png");
    assert!(a.is_dft);
    assert_eq!(a.oufile, "");
}

#[test]
fn try_from_two_paths() {
    let a = Args::try_from(&toks(&["in.png", "out.png"]), true).unwrap();
    assert_eq!(a.infile, "in.png");
    assert_eq!(a.oufile, "out.png");
    assert!(!a.is_dft);
}

#[test]
fn try_from_help_short_circuit() {
    // a help option wins; nothing after it is even looked at
    let a = Args::try_from(&toks(&["-q", "-h", "-i", "whatever"]), false).unwrap();
    assert!(a.h_flag && a.q_flag && !a.i_flag);
    assert_eq!(a.infile, "");
}

#[test]
fn try_from_errors() {
    assert_eq!(
        Args::try_from(&toks(&["-i"]), true).unwrap_err(),
        CliError::MissingInput
    );
    assert_eq!(
        Args::try_from(&toks(&["in.png", "-i"]), true).unwrap_err(),
        CliError::FlagAfterFile
    );
    assert_eq!(
        Args::try_from(&toks(&["in.png", "out.png", "x"]), true).unwrap_err(),
        CliError::TooManyArgs
    );
    assert_eq!(
        Args::try_from(&toks(&["in.png"]), false).unwrap_err(),
        CliError::InfileMissing("in.png".to_string())
    );
}

#[test]
fn read_args_no_words_is_help() {
    assert!(matches!(
        WhatToDo::read_args(&strings(&[]), false),
        Ok(WhatToDo::Help)
    ));
}

#[test]
fn read_args_help_flag() {
    assert!(matches!(
        WhatToDo::read_args(&strings(&["--help"]), false),
        Ok(WhatToDo::Help)
    ));
    assert!(matches!(
        WhatToDo::read_args(&strings(&["-h", "in.png"]), false),
        Ok(WhatToDo::Help)
    ));
}

#[test]
fn read_args_default_output() {
    match WhatToDo::read_args(&strings(&["-i", "in.jpeg"]), true) {
        Ok(WhatToDo::Otsu(a)) => {
            assert!(a.i_flag && !a.q_flag && !a.h_flag);
            assert_eq!(a.infile, "in.jpeg");
            assert!(a.is_dft);
            assert_eq!(a.oufile, "in_otsu.png");
        }
        _ => panic!("expected parsed arguments"),
    }
}

#[test]
fn read_args_explicit_output() {
    match WhatToDo::read_args(&strings(&["-q", "in.png", "out.png"]), true) {
        Ok(WhatToDo::Otsu(a)) => {
            assert!(a.q_flag && !a.i_flag);
            assert_eq!(a.infile, "in.png");
            assert_eq!(a.oufile, "out.png");
            assert!(!a.is_dft);
        }
        _ => panic!("expected parsed arguments"),
    }
}

#[test]
fn read_args_bad_output_extension() {
    assert_eq!(
        WhatToDo::read_args(&strings(&["in.png", "out.jpg"]), true).unwrap_err(),
        CliError::BadOutfileExt
    );
}

#[test]
fn read_args_missing_infile() {
    assert_eq!(
        WhatToDo::read_args(&strings(&["gone.png"]), false).unwrap_err(),
        CliError::InfileMissing("gone.png".to_string())
    );
}

#[test]
fn read_args_bad_word() {
    assert_eq!(
        WhatToDo::read_args(&strings(&["-z", "in.png"]), true).unwrap_err(),
        CliError::UnknownShortFlag('z')
    );
}
