use fractal_pie::cli::{
    parse_decoder, parse_encoder, split_option, DecodeArgs, EncodeArgs, Parse, DEFAULT_INPUT,
    DEFAULT_OUTPUT, DEFAULT_PIE,
};

fn read_number(text: &str) -> Option<u64> {
    text.parse::<f64>().ok().map(|value| value.to_bits())
}

fn strings(args: &[&str]) -> Vec<String> {
    args.iter().map(|arg| arg.to_string()).collect()
}

fn encoder(args: &[&str]) -> Result<Parse<EncodeArgs>, String> {
    parse_encoder(&strings(args), &read_number)
}

fn decoder(args: &[&str]) -> Result<Parse<DecodeArgs>, String> {
    parse_decoder(&strings(args))
}

fn encode_run(args: &[&str]) -> (String, String, f64, f64) {
    match encoder(args) {
        Ok(Parse::Run(run)) => (
            run.input,
            run.output,
            f64::from_bits(run.options.max_error),
            f64::from_bits(run.options.chroma_max_error),
        ),
        _ => panic!("expected a run"),
    }
}

fn decode_run(args: &[&str]) -> (String, String) {
    match decoder(args) {
        Ok(Parse::Run(run)) => (run.input, run.output),
        _ => panic!("expected a run"),
    }
}

fn run(input: &str, output: &str, luma: f64, chroma: f64) -> (String, String, f64, f64) {
    (input.to_string(), output.to_string(), luma, chroma)
}

#[test]
fn paths_have_defaults() {
    assert_eq!((DEFAULT_INPUT, DEFAULT_PIE, DEFAULT_OUTPUT), (
        "lena.png",
        "lena.pie",
        "decoded_lena.png",
    ));
    assert_eq!(encode_run(&[]), run("lena.png", "lena.pie", 32.0, 64.0));
    assert_eq!(encode_run(&["a.png"]), run("a.png", "lena.pie", 32.0, 64.0));
    assert_eq!(encode_run(&["a.png", "b"]), run("a.png", "b", 32.0, 64.0));
    assert_eq!(decode_run(&[]), ("lena.pie".to_string(), "decoded_lena.png".to_string()));
    assert_eq!(decode_run(&["x"]), ("x".to_string(), "decoded_lena.png".to_string()));
    assert_eq!(decode_run(&["x", "y"]), ("x".to_string(), "y".to_string()));
}

#[test]
fn a_bare_dash_and_an_empty_text_are_paths() {
    assert_eq!(encode_run(&["-", ""]), run("-", "", 32.0, 64.0));
    assert_eq!(decode_run(&["", "-"]), ("".to_string(), "-".to_string()));
}

#[test]
fn bounds_may_be_inline_or_apart() {
    let expected = run("a", "b", 16.0, 2.5);
    assert_eq!(encode_run(&["--max-error", "16", "a", "--chroma-max-error", "2.5", "b"]), expected);
    assert_eq!(encode_run(&["--max-error=16", "a", "--chroma-max-error=2.5", "b"]), expected);
    assert_eq!(encode_run(&["-max-error=16", "a", "b", "---chroma-max-error", "2.5"]), expected);
}

#[test]
fn the_last_bound_counts() {
    assert_eq!(encode_run(&["--max-error=1", "--max-error", "9"]).2, 9.0);
}

#[test]
fn a_value_may_look_like_an_option() {
    assert_eq!(encode_run(&["--max-error", "-5"]).2, -5.0);
    assert_eq!(
        encoder(&["--max-error", "--help"]).err(),
        Some("--max-error: '--help' is not a number".to_string())
    );
}

#[test]
fn bad_values_are_refused() {
    assert_eq!(
        encoder(&["a", "--chroma-max-error"]).err(),
        Some("--chroma-max-error requires a value".to_string())
    );
    assert_eq!(
        encoder(&["--max-error=1=2"]).err(),
        Some("--max-error: '1=2' is not a number".to_string())
    );
    assert_eq!(
        encoder(&["--max-error="]).err(),
        Some("--max-error: '' is not a number".to_string())
    );
}

#[test]
fn help_wins_over_what_follows() {
    for arg in ["--help", "-h", "--h", "-help", "--help=me"] {
        assert!(matches!(encoder(&["a", arg, "--nonsense"]), Ok(Parse::Help)));
        assert!(matches!(decoder(&["a", arg, "--nonsense"]), Ok(Parse::Help)));
    }
}

#[test]
fn unknown_options_are_refused() {
    assert_eq!(
        encoder(&["--quality=3"]).err(),
        Some("unknown option '--quality=3'".to_string())
    );
    assert_eq!(encoder(&["--"]).err(), Some("unknown option '--'".to_string()));
    assert_eq!(
        decoder(&["--max-error", "3"]).err(),
        Some("unknown option '--max-error'".to_string())
    );
}

#[test]
fn at_most_two_paths() {
    assert_eq!(
        encoder(&["a", "b", "c"]).err(),
        Some("expected at most two paths, got 3".to_string())
    );
    assert_eq!(
        decoder(&["1", "2", "3", "4", "5", "6", "7", "8", "9", "10", "11"]).err(),
        Some("expected at most two paths, got 11".to_string())
    );
}

#[test]
fn options_split_at_the_first_equals_sign() {
    assert_eq!(split_option("--a=b=c"), ("a", Some("b=c".to_string())));
    assert_eq!(split_option("-name"), ("name", None));
    assert_eq!(split_option("--=x"), ("", Some("x".to_string())));
    assert_eq!(split_option("--größe=ä"), ("größe", Some("ä".to_string())));
}
