use cairn::cli::{base_dir, cache_root, parse, subcommand, take_value, Subcommand};

fn strings(a: &[&str]) -> Vec<String> {
    a.iter().map(|x| x.to_string()).collect()
}

#[test]
fn parses_repeated_and_single_flags() {
    let p = parse(&strings(&[
        "--input", "a", "-i", "b", "--output", "o", "-o", "p", "--key", "k", "--cache-dir", "c",
        "--out-dir", "d", "--base-dir", "e", "pos",
    ]))
    .unwrap();
    assert_eq!(p.inputs, strings(&["a", "b"]));
    assert_eq!(p.outputs, strings(&["o", "p"]));
    assert_eq!(p.key.as_deref(), Some("k"));
    assert_eq!(p.cache_dir.as_deref(), Some("c"));
    assert_eq!(p.out_dir.as_deref(), Some("d"));
    assert_eq!(p.base_dir.as_deref(), Some("e"));
    assert_eq!(p.positional, strings(&["pos"]));
    assert!(p.command.is_empty());
}

#[test]
fn everything_after_separator_is_the_command() {
    let p = parse(&strings(&["-i", "x", "--", "sh", "-c", "--key", "--"])).unwrap();
    assert_eq!(p.inputs, strings(&["x"]));
    assert_eq!(p.command, strings(&["sh", "-c", "--key", "--"]));
    assert_eq!(p.key, None);
    let q = parse(&strings(&["--"])).unwrap();
    assert!(q.command.is_empty());
}

#[test]
fn later_single_valued_flag_wins() {
    let p = parse(&strings(&["-k", "one", "--key", "two"])).unwrap();
    assert_eq!(p.key.as_deref(), Some("two"));
}

#[test]
fn parse_errors() {
    assert_eq!(parse(&strings(&["--input"])).unwrap_err(), "flag '--input' requires a value");
    assert_eq!(parse(&strings(&["-i", "a", "-o"])).unwrap_err(), "flag '-o' requires a value");
    assert_eq!(parse(&strings(&["--bogus", "x"])).unwrap_err(), "unknown flag '--bogus'");
    assert_eq!(parse(&strings(&["x", "-"])).unwrap_err(), "unknown flag '-'");
}

#[test]
fn take_value_moves_onto_the_value() {
    let args = strings(&["--key", "k"]);
    let mut i = 0usize;
    assert_eq!(take_value(&args, &mut i, "--key"), Ok("k".to_string()));
    assert_eq!(i, 1);
    let mut j = 1usize;
    assert_eq!(take_value(&args, &mut j, "k"), Err("flag 'k' requires a value".to_string()));
    assert_eq!(j, 2);
}

#[test]
fn defaults_for_cache_and_base_dirs() {
    let p = parse(&[]).unwrap();
    assert_eq!(cache_root(&p), ".cairn-cache");
    assert_eq!(base_dir(&p), ".");
    let q = parse(&strings(&["--cache-dir", "/tmp/c", "--base-dir", "src"])).unwrap();
    assert_eq!(cache_root(&q), "/tmp/c");
    assert_eq!(base_dir(&q), "src");
}

#[test]
fn subcommands() {
    assert_eq!(subcommand("hash"), Subcommand::Hash);
    assert_eq!(subcommand("key"), Subcommand::Key);
    assert_eq!(subcommand("store"), Subcommand::Store);
    assert_eq!(subcommand("restore"), Subcommand::Restore);
    assert_eq!(subcommand("verify"), Subcommand::Verify);
    assert_eq!(subcommand("show"), Subcommand::Show);
    assert_eq!(subcommand("-h"), Subcommand::Help);
    assert_eq!(subcommand("--help"), Subcommand::Help);
    assert_eq!(subcommand("help"), Subcommand::Help);
    assert_eq!(subcommand("-V"), Subcommand::Version);
    assert_eq!(subcommand("version"), Subcommand::Version);
    assert_eq!(subcommand("--version"), Subcommand::Version);
    assert_eq!(subcommand("hashes"), Subcommand::Unknown);
}

#[test]
fn take_value_past_the_end_fails() {
    let args = strings(&["--key"]);
    let mut i = 4usize;
    assert_eq!(take_value(&args, &mut i, "--key"), Err("flag '--key' requires a value".to_string()));
    assert_eq!(i, 5);
}

#[test]
fn separator_after_flags_keeps_what_came_before() {
    let before = parse(&strings(&["-k", "--", "x", "-i", "a"])).unwrap();
    let whole = parse(&strings(&["-k", "--", "x", "-i", "a", "--", "-z", "--input"])).unwrap();
    // The first `--` is the value of `-k`; the second is the separator.
    assert_eq!(whole.key.as_deref(), Some("--"));
    assert_eq!(whole.inputs, before.inputs);
    assert_eq!(whole.positional, before.positional);
    assert_eq!(whole.command, strings(&["-z", "--input"]));
}

#[test]
fn first_refused_word_names_the_error() {
    assert_eq!(parse(&strings(&["a", "-x", "-y"])).unwrap_err(), "unknown flag '-x'");
    assert_eq!(parse(&strings(&["-y", "--", "-x"])).unwrap_err(), "unknown flag '-y'");
    assert!(parse(&strings(&["a", "--", "-x", "--key"])).is_ok());
}
