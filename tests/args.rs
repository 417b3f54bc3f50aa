use png_inflate::args::{Args, ArgsError, ArgsState};

fn parse(list: &[&str]) -> Result<Args, ArgsError> {
    let mut a = Args::new();
    for s in list {
        a = a.push(s.to_string())?;
    }
    Ok(a)
}

#[test]
fn positional_arguments_in_order() {
    let a = parse(&["prog", "in.png", "out.png"]).unwrap();
    assert_eq!(Some("prog".to_string()), a.program_name);
    assert_eq!(Some("in.png".to_string()), a.input_file);
    assert_eq!(Some("out.png".to_string()), a.output_file);
    assert!(!a.process_apng && !a.ignore_unsafe_to_copy && !a.help && !a.version);
}

#[test]
fn options_and_synonyms() {
    let a = parse(&["prog", "--apng", "/copy-unsafe", "-?", "--version", "in.png"]).unwrap();
    assert!(a.process_apng && a.ignore_unsafe_to_copy && a.help && a.version);
    assert_eq!(Some("in.png".to_string()), a.input_file);
    let a = parse(&["prog", "/apng", "/help"]).unwrap();
    assert!(a.process_apng && a.help);
}

#[test]
fn absolute_paths_are_positional() {
    let a = parse(&["prog", "/tmp/in.png"]).unwrap();
    assert_eq!(Some("/tmp/in.png".to_string()), a.input_file);
}

#[test]
fn assume_filename_takes_a_value() {
    let a = parse(&["prog", "--assume-filename", "--apng"]).unwrap();
    assert_eq!(Some("--apng".to_string()), a.assume_filename);
    assert!(!a.process_apng);
    assert_eq!(ArgsState::Open, a.state);
    assert!(matches!(
        parse(&["prog", "--assume-filename", "x", "/assume-filename", "y"]),
        Err(ArgsError::AssumeFilenameRepeated)
    ));
}

#[test]
fn double_dash_ends_options() {
    let a = parse(&["prog", "--", "--apng"]).unwrap();
    assert_eq!(Some("--apng".to_string()), a.input_file);
    assert!(!a.process_apng);
}

#[test]
fn bad_command_lines() {
    assert!(matches!(parse(&["prog", "--frobnicate"]), Err(ArgsError::UnknownFlag)));
    assert!(matches!(parse(&["prog", "a", "b", "c"]), Err(ArgsError::TooManyPositional)));
}
