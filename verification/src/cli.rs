//! Command-line parsing shared by the two programs.
//!
//! Options may be written `--name value` or `--name=value`; a bare `-` or
//! anything not starting with `-` is a path.

use crate::image::{Options, CHROMA_MAX_ERROR, MAX_ERROR};
use crate::text::{decimal, decimal_text};
use vstd::prelude::*;
use vstd::string::{StrSliceExecFns, StringExecFns};

verus! {

pub const DEFAULT_INPUT: &'static str = "lena.png";

pub const DEFAULT_PIE: &'static str = "lena.pie";

pub const DEFAULT_OUTPUT: &'static str = "decoded_lena.png";

/// The result of parsing: either run with these arguments, or print help.
pub enum Parse<T> {
    Run(T),
    Help,
}

/// Parsed `pie-encode` arguments.
pub struct EncodeArgs {
    pub input: String,
    pub output: String,
    pub options: Options,
}

/// Parsed `pie-decode` arguments.
pub struct DecodeArgs {
    pub input: String,
    pub output: String,
}

/// The texts of some strings.
pub open spec fn texts(strings: Seq<String>) -> Seq<Seq<char>> {
    Seq::new(strings.len(), |i: int| strings[i]@)
}

/// A bare `-`, or anything that does not start with `-`.
pub open spec fn is_path(arg: Seq<char>) -> bool {
    arg == seq!['-'] || arg.len() == 0 || arg[0] != '-'
}

/// `s` without its leading dashes.
pub open spec fn undashed(s: Seq<char>) -> Seq<char>
    decreases s.len(),
{
    if s.len() > 0 && s[0] == '-' {
        undashed(s.skip(1))
    } else {
        s
    }
}

/// The position of the first `=`, or the length.
pub open spec fn equals_sign(s: Seq<char>) -> int
    decreases s.len(),
{
    if s.len() == 0 || s[0] == '=' {
        0
    } else {
        1 + equals_sign(s.skip(1))
    }
}

/// The name of an option token.
pub open spec fn option_name(arg: Seq<char>) -> Seq<char> {
    let body = undashed(arg);
    body.take(equals_sign(body))
}

/// The value that an option token carries after an `=`.
pub open spec fn inline_value(arg: Seq<char>) -> Option<Seq<char>> {
    let body = undashed(arg);
    if equals_sign(body) < body.len() {
        Some(body.skip(equals_sign(body) + 1))
    } else {
        None
    }
}

/// Whether two texts are the same.
fn same_text(a: &str, b: &str) -> (same: bool)
    ensures
        same == (a@ == b@),
{
    let len = a.unicode_len();
    if len != b.unicode_len() {
        return false;
    }
    for i in 0..len
        invariant
            len == a@.len(),
            len == b@.len(),
            a@.take(i as int) == b@.take(i as int),
    {
        if a.get_char(i) != b.get_char(i) {
            return false;
        }
        assert(a@.take(i + 1) =~= a@.take(i as int).push(a@[i as int]));
        assert(b@.take(i + 1) =~= b@.take(i as int).push(b@[i as int]));
    }
    assert(a@ =~= a@.take(len as int));
    assert(b@ =~= b@.take(len as int));
    true
}

/// Whether an argument is a path.
fn looks_like_path(arg: &str) -> (path: bool)
    ensures
        path == is_path(arg@),
{
    let len = arg.unicode_len();
    if len == 0 {
        return true;
    }
    let first = arg.get_char(0);
    if first != '-' {
        return true;
    }
    if len == 1 {
        assert(arg@ =~= seq!['-']);
    }
    len == 1
}

proof fn lemma_undashed_skip(s: Seq<char>, k: int)
    requires
        0 <= k <= s.len(),
        forall|i: int| 0 <= i < k ==> s[i] == '-',
    ensures
        undashed(s) == undashed(s.skip(k)),
    decreases k,
{
    if k == 0 {
        assert(s.skip(0) =~= s);
    } else {
        lemma_undashed_skip(s.skip(1), k - 1);
        assert(s.skip(1).skip(k - 1) =~= s.skip(k));
    }
}

proof fn lemma_equals_sign_at(s: Seq<char>, k: int)
    requires
        0 <= k <= s.len(),
        forall|i: int| 0 <= i < k ==> s[i] != '=',
        k == s.len() || s[k] == '=',
    ensures
        equals_sign(s) == k,
    decreases k,
{
    if k > 0 {
        lemma_equals_sign_at(s.skip(1), k - 1);
    }
}

/// Split an option token into its name and any inline `=value`.
pub fn split_option(arg: &str) -> (split: (&str, Option<String>))
    ensures
        split.0@ == option_name(arg@),
        match inline_value(arg@) {
            None => split.1 is None,
            Some(value) => split.1 matches Some(inline) && inline@ == value,
        },
{
    let len = arg.unicode_len();
    let mut start: usize = 0;
    while start < len && arg.get_char(start) == '-'
        invariant
            len == arg@.len(),
            start <= len,
            forall|i: int| 0 <= i < start ==> arg@[i] == '-',
        decreases len - start,
    {
        start = start + 1;
    }
    proof {
        lemma_undashed_skip(arg@, start as int);
    }
    let body = arg.substring_char(start, len);
    assert(body@ =~= arg@.skip(start as int));
    assert(undashed(arg@) == body@);
    let count = body.unicode_len();
    let mut at: usize = 0;
    while at < count && body.get_char(at) != '='
        invariant
            count == body@.len(),
            at <= count,
            forall|i: int| 0 <= i < at ==> body@[i] != '=',
        decreases count - at,
    {
        at = at + 1;
    }
    proof {
        lemma_equals_sign_at(body@, at as int);
    }
    let name = body.substring_char(0, at);
    assert(name@ =~= body@.take(at as int));
    if at < count {
        let value = body.substring_char(at + 1, count);
        assert(value@ =~= body@.skip(at + 1));
        (name, Some(String::from_str(value)))
    } else {
        (name, None)
    }
}

/// The message for a missing value.
pub open spec fn missing_value(name: Seq<char>) -> Seq<char> {
    "--"@ + name + " requires a value"@
}

/// The message for a value that is not a number.
pub open spec fn not_a_number(name: Seq<char>, raw: Seq<char>) -> Seq<char> {
    "--"@ + name + ": '"@ + raw + "' is not a number"@
}

/// The message for an unknown option.
pub open spec fn unknown_option(arg: Seq<char>) -> Seq<char> {
    "unknown option '"@ + arg + "'"@
}

/// The message for too many paths.
pub open spec fn too_many_paths(count: nat) -> Seq<char> {
    "expected at most two paths, got "@ + decimal(count)
}

/// Pull the value of an option, accepting `--name value` and `--name=value`.
fn take_value(argv: &[String], i: &mut usize, name: &str, inline: Option<String>) -> (value: Result<
    String,
    String,
>)
    requires
        *old(i) < argv@.len(),
    ensures
        match inline {
            Some(text) => value == Ok::<String, String>(text) && *final(i) == *old(i),
            None => {
                &&& *final(i) == *old(i) + 1
                &&& if *final(i) < argv@.len() {
                    value matches Ok(text) && text@ == argv@[*final(i) as int]@
                } else {
                    value matches Err(message) && message@ == missing_value(name@)
                }
            },
        },
{
    match inline {
        Some(value) => Ok(value),
        None => {
            let count = argv.len();
            *i = *i + 1;
            if *i < count {
                Ok(argv[*i].clone())
            } else {
                Err(String::from_str("--").concat(name).concat(" requires a value"))
            }
        },
    }
}

/// What parsing comes to.
pub enum Outcome<T> {
    Run(T),
    Help,
    Fail(Seq<char>),
}

/// The two paths of a command line, each one the default where it is left out.
pub struct Paths {
    pub input: Seq<char>,
    pub output: Seq<char>,
}

/// The paths of a command line that gives at most two.
pub open spec fn chosen_paths(paths: Seq<Seq<char>>, input: Seq<char>, output: Seq<char>) -> Paths {
    Paths {
        input: if paths.len() > 0 {
            paths[0]
        } else {
            input
        },
        output: if paths.len() > 1 {
            paths[1]
        } else {
            output
        },
    }
}

/// Whether an option asks for help.
pub open spec fn asks_help(name: Seq<char>) -> bool {
    name == "help"@ || name == "h"@
}

/// What the arguments of `pie-decode` come to, after some paths.
pub open spec fn decoder_outcome(args: Seq<Seq<char>>, paths: Seq<Seq<char>>) -> Outcome<Paths>
    decreases args.len(),
{
    if args.len() == 0 {
        if paths.len() > 2 {
            Outcome::Fail(too_many_paths(paths.len()))
        } else {
            Outcome::Run(chosen_paths(paths, DEFAULT_PIE@, DEFAULT_OUTPUT@))
        }
    } else if is_path(args[0]) {
        decoder_outcome(args.skip(1), paths.push(args[0]))
    } else if asks_help(option_name(args[0])) {
        Outcome::Help
    } else {
        Outcome::Fail(unknown_option(args[0]))
    }
}

/// Whether an option sets one of the two error bounds.
pub open spec fn sets_bound(name: Seq<char>) -> bool {
    name == "max-error"@ || name == "chroma-max-error"@
}

/// The options after a bound is set.
pub open spec fn with_bound(options: Options, name: Seq<char>, bits: u64) -> Options {
    if name == "max-error"@ {
        Options { max_error: bits, ..options }
    } else {
        Options { chroma_max_error: bits, ..options }
    }
}

/// The value of the option that comes first, and the arguments behind it.
pub open spec fn value_and_rest(args: Seq<Seq<char>>) -> Option<(Seq<char>, Seq<Seq<char>>)> {
    match inline_value(args[0]) {
        Some(raw) => Some((raw, args.skip(1))),
        None => if args.len() > 1 {
            Some((args[1], args.skip(2)))
        } else {
            None
        },
    }
}

/// Whether a number reader may read `raw` as `read`.
pub open spec fn may_read<F: Fn(&str) -> Option<u64>>(
    read_number: F,
    raw: Seq<char>,
    read: Option<u64>,
) -> bool {
    exists|text: &str| text@ == raw && #[trigger] call_ensures(read_number, (text,), read)
}

/// Whether the arguments of `pie-encode` may come to `outcome`, after some
/// paths and options.
pub open spec fn encoder_may_come_to<F: Fn(&str) -> Option<u64>>(
    read_number: F,
    args: Seq<Seq<char>>,
    paths: Seq<Seq<char>>,
    options: Options,
    outcome: Outcome<(Paths, Options)>,
) -> bool
    decreases args.len(),
{
    if args.len() == 0 {
        outcome == if paths.len() > 2 {
            Outcome::Fail(too_many_paths(paths.len()))
        } else {
            Outcome::Run((chosen_paths(paths, DEFAULT_INPUT@, DEFAULT_PIE@), options))
        }
    } else if is_path(args[0]) {
        encoder_may_come_to(read_number, args.skip(1), paths.push(args[0]), options, outcome)
    } else {
        let name = option_name(args[0]);
        if sets_bound(name) {
            match value_and_rest(args) {
                None => outcome == Outcome::<(Paths, Options)>::Fail(missing_value(name)),
                Some((raw, rest)) => {
                    ||| {
                        &&& may_read(read_number, raw, None)
                        &&& outcome == Outcome::<(Paths, Options)>::Fail(not_a_number(name, raw))
                    }
                    ||| exists|bits: u64| #[trigger]
                        may_read(read_number, raw, Some(bits)) && encoder_may_come_to(
                            read_number,
                            rest,
                            paths,
                            with_bound(options, name, bits),
                            outcome,
                        )
                },
            }
        } else {
            outcome == if asks_help(name) {
                Outcome::<(Paths, Options)>::Help
            } else {
                Outcome::Fail(unknown_option(args[0]))
            }
        }
    }
}

impl EncodeArgs {
    /// What a parse of the arguments of `pie-encode` shows.
    pub open spec fn outcome(parse: Result<Parse<EncodeArgs>, String>) -> Outcome<
        (Paths, Options),
    > {
        match parse {
            Ok(Parse::Run(args)) => Outcome::Run(
                (Paths { input: args.input@, output: args.output@ }, args.options),
            ),
            Ok(Parse::Help) => Outcome::Help,
            Err(message) => Outcome::Fail(message@),
        }
    }
}

impl DecodeArgs {
    /// What a parse of the arguments of `pie-decode` shows.
    pub open spec fn outcome(parse: Result<Parse<DecodeArgs>, String>) -> Outcome<Paths> {
        match parse {
            Ok(Parse::Run(args)) => Outcome::Run(
                Paths { input: args.input@, output: args.output@ },
            ),
            Ok(Parse::Help) => Outcome::Help,
            Err(message) => Outcome::Fail(message@),
        }
    }
}

/// The paths given, or the message that there are too many.
fn choose_paths(positional: &Vec<String>, input: &str, output: &str) -> (chosen: Result<
    (String, String),
    String,
>)
    ensures
        match chosen {
            Err(message) => positional@.len() > 2 && message@ == too_many_paths(
                positional@.len(),
            ),
            Ok((first, second)) => positional@.len() <= 2 && Paths {
                input: first@,
                output: second@,
            } == chosen_paths(texts(positional@), input@, output@),
        },
{
    if positional.len() > 2 {
        return Err(
            String::from_str("expected at most two paths, got ").concat(
                decimal_text(positional.len()).as_str(),
            ),
        );
    }
    let first = if positional.len() > 0 {
        positional[0].clone()
    } else {
        String::from_str(input)
    };
    let second = if positional.len() > 1 {
        positional[1].clone()
    } else {
        String::from_str(output)
    };
    Ok((first, second))
}

/// Parse the arguments of `pie-decode`.
pub fn parse_decoder(argv: &[String]) -> (parse: Result<Parse<DecodeArgs>, String>)
    ensures
        DecodeArgs::outcome(parse) == decoder_outcome(texts(argv@), seq![]),
{
    let mut positional: Vec<String> = Vec::new();
    let mut i: usize = 0;
    let ghost whole = texts(argv@);
    assert(whole.skip(0) =~= whole);
    assert(texts(positional@) =~= seq![]);
    while i < argv.len()
        invariant
            i <= argv@.len(),
            whole == texts(argv@),
            decoder_outcome(whole, seq![]) == decoder_outcome(
                whole.skip(i as int),
                texts(positional@),
            ),
        decreases argv@.len() - i,
    {
        let arg = &argv[i];
        let ghost rest = whole.skip(i as int);
        assert(rest[0] == arg@);
        assert(rest.skip(1) =~= whole.skip(i + 1));
        if looks_like_path(arg.as_str()) {
            let ghost before = positional@;
            positional.push(arg.clone());
            assert(texts(positional@) =~= texts(before).push(arg@));
            i = i + 1;
        } else {
            let (name, _inline) = split_option(arg.as_str());
            if same_text(name, "help") || same_text(name, "h") {
                return Ok(Parse::Help);
            }
            return Err(
                String::from_str("unknown option '").concat(arg.as_str()).concat("'"),
            );
        }
    }
    match choose_paths(&positional, DEFAULT_PIE, DEFAULT_OUTPUT) {
        Err(message) => Err(message),
        Ok((input, output)) => Ok(Parse::Run(DecodeArgs { input, output })),
    }
}

/// Parse the arguments of `pie-encode`, with `read_number` to read the bound
/// that an option gives.
pub fn parse_encoder<F: Fn(&str) -> Option<u64>>(argv: &[String], read_number: &F) -> (parse:
    Result<Parse<EncodeArgs>, String>)
    requires
        forall|text: &str| call_requires(*read_number, (text,)),
    ensures
        encoder_may_come_to(
            *read_number,
            texts(argv@),
            seq![],
            Options { max_error: MAX_ERROR, chroma_max_error: CHROMA_MAX_ERROR },
            EncodeArgs::outcome(parse),
        ),
{
    let mut options = Options::default();
    let mut positional: Vec<String> = Vec::new();
    let mut i: usize = 0;
    let ghost whole = texts(argv@);
    let ghost start = options;
    assert(whole.skip(0) =~= whole);
    assert(texts(positional@) =~= seq![]);
    while i < argv.len()
        invariant
            i <= argv@.len(),
            whole == texts(argv@),
            start == (Options { max_error: MAX_ERROR, chroma_max_error: CHROMA_MAX_ERROR }),
            forall|text: &str| call_requires(*read_number, (text,)),
            forall|outcome: Outcome<(Paths, Options)>|
                encoder_may_come_to(
                    *read_number,
                    whole.skip(i as int),
                    texts(positional@),
                    options,
                    outcome,
                ) ==> #[trigger] encoder_may_come_to(*read_number, whole, seq![], start, outcome),
        decreases argv@.len() - i,
    {
        let arg = &argv[i];
        let ghost rest = whole.skip(i as int);
        assert(rest[0] == arg@);
        assert(rest.skip(1) =~= whole.skip(i + 1));
        if looks_like_path(arg.as_str()) {
            let ghost before = positional@;
            positional.push(arg.clone());
            assert(texts(positional@) =~= texts(before).push(arg@));
            i = i + 1;
        } else {
            let (name, inline) = split_option(arg.as_str());
            let luma = same_text(name, "max-error");
            if luma || same_text(name, "chroma-max-error") {
                let raw = match take_value(argv, &mut i, name, inline) {
                    Ok(raw) => raw,
                    Err(message) => return Err(message),
                };
                assert(value_and_rest(rest) == Some((raw@, whole.skip(i + 1))));
                let read = read_number(raw.as_str());
                assert(may_read(*read_number, raw@, read));
                match read {
                    None => {
                        return Err(
                            String::from_str("--").concat(name).concat(": '").concat(
                                raw.as_str(),
                            ).concat("' is not a number"),
                        );
                    },
                    Some(bits) => {
                        if luma {
                            options.max_error = bits;
                        } else {
                            options.chroma_max_error = bits;
                        }
                    },
                }
            } else if same_text(name, "help") || same_text(name, "h") {
                return Ok(Parse::Help);
            } else {
                return Err(
                    String::from_str("unknown option '").concat(arg.as_str()).concat("'"),
                );
            }
            i = i + 1;
        }
    }
    match choose_paths(&positional, DEFAULT_INPUT, DEFAULT_PIE) {
        Err(message) => Err(message),
        Ok((input, output)) => Ok(Parse::Run(EncodeArgs { input, output, options })),
    }
}

/// An option token: dashes, a name, and what follows the name.
proof fn lemma_option_token(dashes: Seq<char>, name: Seq<char>, tail: Seq<char>)
    requires
        forall|i: int| 0 <= i < dashes.len() ==> dashes[i] == '-',
        is_plain(name),
        tail.len() > 0 ==> tail[0] == '=',
    ensures
        dashes.len() > 0 && name.len() > 0 ==> !is_path(dashes + name + tail),
        option_name(dashes + name + tail) == name,
        inline_value(dashes + name + tail) == if tail.len() > 0 {
            Some(tail.skip(1))
        } else {
            None
        },
{
    let arg = dashes + name + tail;
    let body = name + tail;
    lemma_undashed_skip(arg, dashes.len() as int);
    assert(arg.skip(dashes.len() as int) =~= body);
    assert(undashed(arg) == body);
    lemma_equals_sign_at(body, name.len() as int);
    assert(body.take(name.len() as int) =~= name);
    if tail.len() > 0 {
        assert(body.skip((name.len() + 1) as int) =~= tail.skip(1));
    }
}

/// A name that no dash starts and no equals sign ends.
pub open spec fn is_plain(name: Seq<char>) -> bool {
    &&& name.len() > 0 ==> name[0] != '-'
    &&& forall|i: int| 0 <= i < name.len() ==> name[i] != '='
}

/// The names of the two bounds are plain.
proof fn lemma_bound_is_plain(name: Seq<char>)
    requires
        sets_bound(name),
    ensures
        is_plain(name),
        name.len() > 0,
{
    reveal_strlit("max-error");
    reveal_strlit("chroma-max-error");
}

/// An error bound may be written `--name value` or `--name=value`: wherever
/// the option is read, with whatever dashes, both come to the same.
pub proof fn law_inline_value_is_the_same<F: Fn(&str) -> Option<u64>>(
    read_number: F,
    dashes: Seq<char>,
    name: Seq<char>,
    value: Seq<char>,
    rest: Seq<Seq<char>>,
    paths: Seq<Seq<char>>,
    options: Options,
    outcome: Outcome<(Paths, Options)>,
)
    requires
        dashes.len() > 0,
        forall|i: int| 0 <= i < dashes.len() ==> dashes[i] == '-',
        sets_bound(name),
    ensures
        encoder_may_come_to(
            read_number,
            seq![dashes + name, value] + rest,
            paths,
            options,
            outcome,
        ) == encoder_may_come_to(
            read_number,
            seq![dashes + name + seq!['='] + value] + rest,
            paths,
            options,
            outcome,
        ),
{
    let apart = seq![dashes + name, value] + rest;
    let joined = seq![dashes + name + seq!['='] + value] + rest;
    lemma_bound_is_plain(name);
    lemma_option_token(dashes, name, seq![]);
    assert(dashes + name + Seq::<char>::empty() =~= dashes + name);
    lemma_option_token(dashes, name, seq!['='] + value);
    assert(dashes + name + (seq!['='] + value) =~= dashes + name + seq!['='] + value);
    assert((seq!['='] + value).skip(1) =~= value);
    assert(apart.skip(2) =~= rest);
    assert(joined.skip(1) =~= rest);
    assert(value_and_rest(apart) == Some((value, rest)));
    assert(value_and_rest(joined) == Some((value, rest)));
}

/// A request for help takes in whatever follows: wherever it is read as an
/// option, nothing behind it, and no path or bound before it, matters any more.
pub proof fn law_help_takes_in_what_follows<F: Fn(&str) -> Option<u64>>(
    read_number: F,
    help: Seq<char>,
    rest: Seq<Seq<char>>,
    paths: Seq<Seq<char>>,
    options: Options,
    outcome: Outcome<(Paths, Options)>,
)
    requires
        !is_path(help),
        asks_help(option_name(help)),
    ensures
        encoder_may_come_to(read_number, seq![help] + rest, paths, options, outcome) == (outcome
            == Outcome::<(Paths, Options)>::Help),
        decoder_outcome(seq![help] + rest, paths) == Outcome::<Paths>::Help,
{
    reveal_strlit("help");
    reveal_strlit("h");
    reveal_strlit("max-error");
    reveal_strlit("chroma-max-error");
    let name = option_name(help);
    assert(!sets_bound(name)) by {
        assert(name.len() == 4 || name.len() == 1);
    }
    assert((seq![help] + rest)[0] == help);
}

/// A path is whatever does not start with a dash, and a dash alone.
pub proof fn law_what_is_a_path(arg: Seq<char>)
    ensures
        arg.len() == 0 ==> is_path(arg),
        arg.len() > 0 && arg[0] != '-' ==> is_path(arg),
        arg.len() == 1 ==> is_path(arg),
        arg.len() > 1 && arg[0] == '-' ==> !is_path(arg),
{
    if arg.len() == 1 && arg[0] == '-' {
        assert(arg =~= seq!['-']);
    }
}

/// The name of an option is what stands between its dashes and the first `=`,
/// its value whatever stands behind that.
pub proof fn law_options_split_at_the_equals_sign(
    dashes: Seq<char>,
    name: Seq<char>,
    value: Seq<char>,
)
    requires
        forall|i: int| 0 <= i < dashes.len() ==> dashes[i] == '-',
        name.len() > 0 ==> name[0] != '-',
        forall|i: int| 0 <= i < name.len() ==> name[i] != '=',
    ensures
        option_name(dashes + name) == name,
        inline_value(dashes + name) is None,
        option_name(dashes + name + seq!['='] + value) == name,
        inline_value(dashes + name + seq!['='] + value) == Some(value),
{
    lemma_option_token(dashes, name, seq![]);
    assert(dashes + name + Seq::<char>::empty() =~= dashes + name);
    lemma_option_token(dashes, name, seq!['='] + value);
    assert(dashes + name + (seq!['='] + value) =~= dashes + name + seq!['='] + value);
    assert((seq!['='] + value).skip(1) =~= value);
}

/// No argument is an option of this name.
pub open spec fn never_names(args: Seq<Seq<char>>, name: Seq<char>) -> bool {
    forall|k: int|
        0 <= k < args.len() ==> is_path(#[trigger] args[k]) || option_name(args[k]) != name
}

proof fn lemma_never_names_later(args: Seq<Seq<char>>, name: Seq<char>, k: int)
    requires
        never_names(args, name),
        0 <= k <= args.len(),
    ensures
        never_names(args.skip(k), name),
{
    assert forall|i: int| 0 <= i < args.skip(k).len() implies is_path(#[trigger] args.skip(k)[i])
        || option_name(args.skip(k)[i]) != name by {
        assert(args.skip(k)[i] == args[i + k]);
    }
}

/// A bound stays as it was unless its own option is given: without
/// `--chroma-max-error` the chroma bound, and without `--max-error` the luma
/// bound.
pub proof fn law_bounds_stay_unless_set<F: Fn(&str) -> Option<u64>>(
    read_number: F,
    args: Seq<Seq<char>>,
    paths: Seq<Seq<char>>,
    options: Options,
    chosen: Paths,
    found: Options,
)
    requires
        encoder_may_come_to(read_number, args, paths, options, Outcome::Run((chosen, found))),
    ensures
        never_names(args, "chroma-max-error"@) ==> found.chroma_max_error
            == options.chroma_max_error,
        never_names(args, "max-error"@) ==> found.max_error == options.max_error,
    decreases args.len(),
{
    reveal_strlit("max-error");
    reveal_strlit("chroma-max-error");
    let outcome = Outcome::Run((chosen, found));
    if args.len() == 0 {
    } else if is_path(args[0]) {
        law_bounds_stay_unless_set(
            read_number,
            args.skip(1),
            paths.push(args[0]),
            options,
            chosen,
            found,
        );
        lemma_names_carry_over(args, 1);
    } else {
        let name = option_name(args[0]);
        assert(sets_bound(name));
        let (raw, rest) = value_and_rest(args)->0;
        let bits = choose|bits: u64| #[trigger]
            may_read(read_number, raw, Some(bits)) && encoder_may_come_to(
                read_number,
                rest,
                paths,
                with_bound(options, name, bits),
                outcome,
            );
        law_bounds_stay_unless_set(
            read_number,
            rest,
            paths,
            with_bound(options, name, bits),
            chosen,
            found,
        );
        lemma_names_carry_over(args, 1);
        if args.len() > 1 {
            lemma_names_carry_over(args, 2);
        }
        assert("max-error"@.len() != "chroma-max-error"@.len());
    }
}

/// What no argument names, no later argument names.
proof fn lemma_names_carry_over(args: Seq<Seq<char>>, k: int)
    requires
        0 <= k <= args.len(),
    ensures
        never_names(args, "chroma-max-error"@) ==> never_names(
            args.skip(k),
            "chroma-max-error"@,
        ),
        never_names(args, "max-error"@) ==> never_names(args.skip(k), "max-error"@),
{
    if never_names(args, "chroma-max-error"@) {
        lemma_never_names_later(args, "chroma-max-error"@, k);
    }
    if never_names(args, "max-error"@) {
        lemma_never_names_later(args, "max-error"@, k);
    }
}

/// The value of an option that stands apart, where it is read.
proof fn lemma_bound_apart(
    dashes: Seq<char>,
    name: Seq<char>,
    value: Seq<char>,
    rest: Seq<Seq<char>>,
)
    requires
        dashes.len() > 0,
        forall|i: int| 0 <= i < dashes.len() ==> dashes[i] == '-',
        sets_bound(name),
    ensures
        ({
            let args = seq![dashes + name, value] + rest;
            &&& args.len() > 0
            &&& !is_path(args[0])
            &&& option_name(args[0]) == name
            &&& value_and_rest(args) == Some((value, rest))
        }),
{
    let args = seq![dashes + name, value] + rest;
    lemma_bound_is_plain(name);
    lemma_option_token(dashes, name, seq![]);
    assert(dashes + name + Seq::<char>::empty() =~= dashes + name);
    assert(args.skip(2) =~= rest);
}

/// The bound that an option sets is the number read from its value, unless the
/// option is given again.
pub proof fn law_bound_is_the_number_read<F: Fn(&str) -> Option<u64>>(
    read_number: F,
    dashes: Seq<char>,
    name: Seq<char>,
    value: Seq<char>,
    rest: Seq<Seq<char>>,
    paths: Seq<Seq<char>>,
    options: Options,
    chosen: Paths,
    found: Options,
) -> (bits: u64)
    requires
        dashes.len() > 0,
        forall|i: int| 0 <= i < dashes.len() ==> dashes[i] == '-',
        name == "max-error"@ || name == "chroma-max-error"@,
        never_names(rest, name),
        encoder_may_come_to(
            read_number,
            seq![dashes + name, value] + rest,
            paths,
            options,
            Outcome::Run((chosen, found)),
        ),
    ensures
        may_read(read_number, value, Some(bits)),
        name == "max-error"@ ==> found.max_error == bits,
        name == "chroma-max-error"@ ==> found.chroma_max_error == bits,
        name == "max-error"@ && never_names(rest, "chroma-max-error"@) ==> found.chroma_max_error
            == options.chroma_max_error,
        name == "chroma-max-error"@ && never_names(rest, "max-error"@) ==> found.max_error
            == options.max_error,
{
    reveal_strlit("max-error");
    reveal_strlit("chroma-max-error");
    assert("max-error"@.len() != "chroma-max-error"@.len());
    let outcome = Outcome::Run((chosen, found));
    lemma_bound_apart(dashes, name, value, rest);
    let bits = choose|bits: u64| #[trigger]
        may_read(read_number, value, Some(bits)) && encoder_may_come_to(
            read_number,
            rest,
            paths,
            with_bound(options, name, bits),
            outcome,
        );
    law_bounds_stay_unless_set(
        read_number,
        rest,
        paths,
        with_bound(options, name, bits),
        chosen,
        found,
    );
    bits
}

/// One direction of [`law_bounds_may_be_exchanged`].
proof fn lemma_exchange<F: Fn(&str) -> Option<u64>>(
    read_number: F,
    first: (Seq<char>, Seq<char>, Seq<char>),
    second: (Seq<char>, Seq<char>, Seq<char>),
    rest: Seq<Seq<char>>,
    paths: Seq<Seq<char>>,
    options: Options,
    outcome: Outcome<(Paths, Options)>,
)
    requires
        first.0.len() > 0,
        second.0.len() > 0,
        forall|i: int| 0 <= i < first.0.len() ==> first.0[i] == '-',
        forall|i: int| 0 <= i < second.0.len() ==> second.0[i] == '-',
        sets_bound(first.1),
        sets_bound(second.1),
        first.1 != second.1,
        !may_read(read_number, first.2, None),
        !may_read(read_number, second.2, None),
        encoder_may_come_to(
            read_number,
            seq![first.0 + first.1, first.2] + (seq![second.0 + second.1, second.2] + rest),
            paths,
            options,
            outcome,
        ),
    ensures
        encoder_may_come_to(
            read_number,
            seq![second.0 + second.1, second.2] + (seq![first.0 + first.1, first.2] + rest),
            paths,
            options,
            outcome,
        ),
{
    let after_first = seq![second.0 + second.1, second.2] + rest;
    let after_second = seq![first.0 + first.1, first.2] + rest;
    lemma_bound_apart(first.0, first.1, first.2, after_first);
    lemma_bound_apart(second.0, second.1, second.2, rest);
    lemma_bound_apart(second.0, second.1, second.2, after_second);
    lemma_bound_apart(first.0, first.1, first.2, rest);
    let a = choose|bits: u64| #[trigger]
        may_read(read_number, first.2, Some(bits)) && encoder_may_come_to(
            read_number,
            after_first,
            paths,
            with_bound(options, first.1, bits),
            outcome,
        );
    let between = with_bound(options, first.1, a);
    let b = choose|bits: u64| #[trigger]
        may_read(read_number, second.2, Some(bits)) && encoder_may_come_to(
            read_number,
            rest,
            paths,
            with_bound(between, second.1, bits),
            outcome,
        );
    let other = with_bound(options, second.1, b);
    assert(with_bound(other, first.1, a) == with_bound(between, second.1, b));
    assert(encoder_may_come_to(read_number, after_second, paths, other, outcome));
}

/// Options for different bounds may be exchanged: wherever they are read, as
/// long as both values are numbers, the command line comes to the same.
pub proof fn law_bounds_may_be_exchanged<F: Fn(&str) -> Option<u64>>(
    read_number: F,
    dashes: Seq<char>,
    luma: Seq<char>,
    others: Seq<char>,
    chroma: Seq<char>,
    rest: Seq<Seq<char>>,
    paths: Seq<Seq<char>>,
    options: Options,
    outcome: Outcome<(Paths, Options)>,
)
    requires
        dashes.len() > 0,
        others.len() > 0,
        forall|i: int| 0 <= i < dashes.len() ==> dashes[i] == '-',
        forall|i: int| 0 <= i < others.len() ==> others[i] == '-',
        !may_read(read_number, luma, None),
        !may_read(read_number, chroma, None),
    ensures
        encoder_may_come_to(
            read_number,
            seq![dashes + "max-error"@, luma, others + "chroma-max-error"@, chroma] + rest,
            paths,
            options,
            outcome,
        ) == encoder_may_come_to(
            read_number,
            seq![others + "chroma-max-error"@, chroma, dashes + "max-error"@, luma] + rest,
            paths,
            options,
            outcome,
        ),
{
    reveal_strlit("max-error");
    reveal_strlit("chroma-max-error");
    assert("max-error"@.len() != "chroma-max-error"@.len());
    let (one, two) = (dashes + "max-error"@, others + "chroma-max-error"@);
    let first = (dashes, "max-error"@, luma);
    let second = (others, "chroma-max-error"@, chroma);
    let here = seq![one, luma, two, chroma] + rest;
    let there = seq![two, chroma, one, luma] + rest;
    assert(here =~= seq![one, luma] + (seq![two, chroma] + rest));
    assert(there =~= seq![two, chroma] + (seq![one, luma] + rest));
    if encoder_may_come_to(read_number, here, paths, options, outcome) {
        lemma_exchange(read_number, first, second, rest, paths, options, outcome);
    }
    if encoder_may_come_to(read_number, there, paths, options, outcome) {
        lemma_exchange(read_number, second, first, rest, paths, options, outcome);
    }
}

/// The last of two options for the same bound counts: as long as the value of
/// the first is a number, it might be left out.
pub proof fn law_last_bound_counts<F: Fn(&str) -> Option<u64>>(
    read_number: F,
    dashes: Seq<char>,
    others: Seq<char>,
    name: Seq<char>,
    value: Seq<char>,
    last: Seq<char>,
    bits: u64,
    rest: Seq<Seq<char>>,
    paths: Seq<Seq<char>>,
    options: Options,
    outcome: Outcome<(Paths, Options)>,
)
    requires
        dashes.len() > 0,
        others.len() > 0,
        forall|i: int| 0 <= i < dashes.len() ==> dashes[i] == '-',
        forall|i: int| 0 <= i < others.len() ==> others[i] == '-',
        name == "max-error"@ || name == "chroma-max-error"@,
        !may_read(read_number, value, None),
        may_read(read_number, value, Some(bits)),
    ensures
        encoder_may_come_to(
            read_number,
            seq![dashes + name, value, others + name, last] + rest,
            paths,
            options,
            outcome,
        ) == encoder_may_come_to(
            read_number,
            seq![others + name, last] + rest,
            paths,
            options,
            outcome,
        ),
{
    let short = seq![others + name, last] + rest;
    let long = seq![dashes + name, value, others + name, last] + rest;
    assert(long =~= seq![dashes + name, value] + short);
    lemma_bound_apart(dashes, name, value, short);
    lemma_bound_apart(others, name, last, rest);
    if encoder_may_come_to(read_number, long, paths, options, outcome) {
        let b = choose|b: u64| #[trigger]
            may_read(read_number, value, Some(b)) && encoder_may_come_to(
                read_number,
                short,
                paths,
                with_bound(options, name, b),
                outcome,
            );
        lemma_overwritten(read_number, others, name, last, b, rest, paths, options, outcome);
    }
    if encoder_may_come_to(read_number, short, paths, options, outcome) {
        lemma_overwritten(read_number, others, name, last, bits, rest, paths, options, outcome);
    }
}

/// A bound that is set again does not matter.
proof fn lemma_overwritten<F: Fn(&str) -> Option<u64>>(
    read_number: F,
    dashes: Seq<char>,
    name: Seq<char>,
    value: Seq<char>,
    bits: u64,
    rest: Seq<Seq<char>>,
    paths: Seq<Seq<char>>,
    options: Options,
    outcome: Outcome<(Paths, Options)>,
)
    requires
        dashes.len() > 0,
        forall|i: int| 0 <= i < dashes.len() ==> dashes[i] == '-',
        sets_bound(name),
    ensures
        encoder_may_come_to(
            read_number,
            seq![dashes + name, value] + rest,
            paths,
            with_bound(options, name, bits),
            outcome,
        ) == encoder_may_come_to(
            read_number,
            seq![dashes + name, value] + rest,
            paths,
            options,
            outcome,
        ),
{
    let before = with_bound(options, name, bits);
    lemma_bound_apart(dashes, name, value, rest);
    assert forall|b: u64| #[trigger] with_bound(before, name, b) == with_bound(
        options,
        name,
        b,
    ) by {}
    if exists|b: u64| #[trigger]
        may_read(read_number, value, Some(b)) && encoder_may_come_to(
            read_number,
            rest,
            paths,
            with_bound(before, name, b),
            outcome,
        ) {
        let b = choose|b: u64| #[trigger]
            may_read(read_number, value, Some(b)) && encoder_may_come_to(
                read_number,
                rest,
                paths,
                with_bound(before, name, b),
                outcome,
            );
        assert(with_bound(before, name, b) == with_bound(options, name, b));
    }
    if exists|b: u64| #[trigger]
        may_read(read_number, value, Some(b)) && encoder_may_come_to(
            read_number,
            rest,
            paths,
            with_bound(options, name, b),
            outcome,
        ) {
        let b = choose|b: u64| #[trigger]
            may_read(read_number, value, Some(b)) && encoder_may_come_to(
                read_number,
                rest,
                paths,
                with_bound(options, name, b),
                outcome,
            );
        assert(with_bound(before, name, b) == with_bound(options, name, b));
    }
}

/// A path may stand before or behind an option for a bound.
pub proof fn law_path_and_bound_may_be_exchanged<F: Fn(&str) -> Option<u64>>(
    read_number: F,
    path: Seq<char>,
    dashes: Seq<char>,
    name: Seq<char>,
    value: Seq<char>,
    rest: Seq<Seq<char>>,
    paths: Seq<Seq<char>>,
    options: Options,
    outcome: Outcome<(Paths, Options)>,
)
    requires
        is_path(path),
        dashes.len() > 0,
        forall|i: int| 0 <= i < dashes.len() ==> dashes[i] == '-',
        name == "max-error"@ || name == "chroma-max-error"@,
    ensures
        encoder_may_come_to(
            read_number,
            seq![path, dashes + name, value] + rest,
            paths,
            options,
            outcome,
        ) == encoder_may_come_to(
            read_number,
            seq![dashes + name, value, path] + rest,
            paths,
            options,
            outcome,
        ),
{
    let behind = seq![path] + rest;
    let bound_first = seq![dashes + name, value, path] + rest;
    let path_first = seq![path, dashes + name, value] + rest;
    assert(bound_first =~= seq![dashes + name, value] + behind);
    assert(path_first.skip(1) =~= seq![dashes + name, value] + rest);
    assert(behind.skip(1) =~= rest);
    lemma_bound_apart(dashes, name, value, behind);
    lemma_bound_apart(dashes, name, value, rest);
    let apart = seq![dashes + name, value] + rest;
    assert(path_first[0] == path && behind[0] == path);
    assert(encoder_may_come_to(read_number, path_first, paths, options, outcome)
        == encoder_may_come_to(read_number, apart, paths.push(path), options, outcome));
    assert forall|bits: u64| #[trigger] may_read(read_number, value, Some(bits)) implies ({
        let set = with_bound(options, name, bits);
        encoder_may_come_to(read_number, behind, paths, set, outcome) == encoder_may_come_to(
            read_number,
            rest,
            paths.push(path),
            set,
            outcome,
        )
    }) by {}
    if encoder_may_come_to(read_number, apart, paths.push(path), options, outcome) {
        assert(encoder_may_come_to(read_number, bound_first, paths, options, outcome));
    }
    if encoder_may_come_to(read_number, bound_first, paths, options, outcome) {
        assert(encoder_may_come_to(read_number, apart, paths.push(path), options, outcome));
    }
}

/// Paths are collected in order.
proof fn lemma_only_paths<F: Fn(&str) -> Option<u64>>(
    read_number: F,
    args: Seq<Seq<char>>,
    paths: Seq<Seq<char>>,
    options: Options,
    outcome: Outcome<(Paths, Options)>,
)
    requires
        forall|k: int| 0 <= k < args.len() ==> is_path(#[trigger] args[k]),
    ensures
        encoder_may_come_to(read_number, args, paths, options, outcome) == encoder_may_come_to(
            read_number,
            seq![],
            paths + args,
            options,
            outcome,
        ),
        decoder_outcome(args, paths) == decoder_outcome(seq![], paths + args),
    decreases args.len(),
{
    if args.len() == 0 {
        assert(args =~= seq![]);
        assert(paths + args =~= paths);
    } else {
        let rest = args.skip(1);
        assert forall|k: int| 0 <= k < rest.len() implies is_path(#[trigger] rest[k]) by {
            assert(rest[k] == args[k + 1]);
        }
        lemma_only_paths(read_number, rest, paths.push(args[0]), options, outcome);
        assert(paths.push(args[0]) + rest =~= paths + args);
    }
}

/// The first path is the input and the second one the output, each with its
/// default, of both programs; more than two are refused.
pub proof fn law_paths_are_input_and_output<F: Fn(&str) -> Option<u64>>(
    read_number: F,
    args: Seq<Seq<char>>,
    options: Options,
    outcome: Outcome<(Paths, Options)>,
)
    requires
        forall|k: int| 0 <= k < args.len() ==> is_path(#[trigger] args[k]),
    ensures
        encoder_may_come_to(read_number, args, seq![], options, outcome) ==> if args.len() > 2 {
            outcome == Outcome::<(Paths, Options)>::Fail(
                "expected at most two paths, got "@ + decimal(args.len()),
            )
        } else {
            &&& outcome matches Outcome::Run((chosen, found))
            &&& found == options
            &&& chosen.input == if args.len() > 0 { args[0] } else { "lena.png"@ }
            &&& chosen.output == if args.len() > 1 { args[1] } else { "lena.pie"@ }
        },
        if args.len() > 2 {
            decoder_outcome(args, seq![]) == Outcome::<Paths>::Fail(
                "expected at most two paths, got "@ + decimal(args.len()),
            )
        } else {
            &&& decoder_outcome(args, seq![]) matches Outcome::Run(chosen)
            &&& chosen.input == if args.len() > 0 { args[0] } else { "lena.pie"@ }
            &&& chosen.output == if args.len() > 1 { args[1] } else { "decoded_lena.png"@ }
        },
{
    lemma_only_paths(read_number, args, seq![], options, outcome);
    assert(Seq::<Seq<char>>::empty() + args =~= args);
}

/// An option that is none of the known ones is refused, by its whole text,
/// wherever it is read. The decoder knows none but those that ask for help.
pub proof fn law_unknown_options_are_refused<F: Fn(&str) -> Option<u64>>(
    read_number: F,
    arg: Seq<char>,
    rest: Seq<Seq<char>>,
    paths: Seq<Seq<char>>,
    options: Options,
    outcome: Outcome<(Paths, Options)>,
)
    requires
        !is_path(arg),
        option_name(arg) != "help"@,
        option_name(arg) != "h"@,
    ensures
        option_name(arg) != "max-error"@ && option_name(arg) != "chroma-max-error"@ ==> (
        encoder_may_come_to(read_number, seq![arg] + rest, paths, options, outcome) <==> outcome
            == Outcome::<(Paths, Options)>::Fail("unknown option '"@ + arg + "'"@)),
        decoder_outcome(seq![arg] + rest, paths) == Outcome::<Paths>::Fail(
            "unknown option '"@ + arg + "'"@,
        ),
{
    assert((seq![arg] + rest)[0] == arg);
}

/// An option for a bound needs a value, and one that is a number.
pub proof fn law_bounds_need_a_number<F: Fn(&str) -> Option<u64>>(
    read_number: F,
    dashes: Seq<char>,
    name: Seq<char>,
    value: Seq<char>,
    rest: Seq<Seq<char>>,
    paths: Seq<Seq<char>>,
    options: Options,
    outcome: Outcome<(Paths, Options)>,
)
    requires
        dashes.len() > 0,
        forall|i: int| 0 <= i < dashes.len() ==> dashes[i] == '-',
        name == "max-error"@ || name == "chroma-max-error"@,
        may_read(read_number, value, None),
        forall|bits: u64| !#[trigger] may_read(read_number, value, Some(bits)),
    ensures
        encoder_may_come_to(read_number, seq![dashes + name], paths, options, outcome) <==> outcome
            == Outcome::<(Paths, Options)>::Fail("--"@ + name + " requires a value"@),
        encoder_may_come_to(
            read_number,
            seq![dashes + name, value] + rest,
            paths,
            options,
            outcome,
        ) <==> outcome == Outcome::<(Paths, Options)>::Fail(
            "--"@ + name + ": '"@ + value + "' is not a number"@,
        ),
{
    lemma_bound_is_plain(name);
    lemma_option_token(dashes, name, seq![]);
    assert(dashes + name + Seq::<char>::empty() =~= dashes + name);
    assert(seq![dashes + name][0] == dashes + name);
    lemma_bound_apart(dashes, name, value, rest);
}

/// Help is asked for by the names `help` and `h`, and by no others.
pub proof fn law_names_that_ask_for_help(name: Seq<char>)
    ensures
        asks_help(name) <==> name == "help"@ || name == "h"@,
        sets_bound(name) <==> name == "max-error"@ || name == "chroma-max-error"@,
{
}

/// Reading goes on behind a path, with one path more.
pub proof fn law_paths_are_collected<F: Fn(&str) -> Option<u64>>(
    read_number: F,
    path: Seq<char>,
    rest: Seq<Seq<char>>,
    paths: Seq<Seq<char>>,
    options: Options,
    outcome: Outcome<(Paths, Options)>,
)
    requires
        path.len() == 0 || path.len() == 1 || path[0] != '-',
    ensures
        encoder_may_come_to(read_number, seq![path] + rest, paths, options, outcome)
            == encoder_may_come_to(read_number, rest, paths.push(path), options, outcome),
        decoder_outcome(seq![path] + rest, paths) == decoder_outcome(rest, paths.push(path)),
{
    law_what_is_a_path(path);
    assert((seq![path] + rest)[0] == path);
    assert((seq![path] + rest).skip(1) =~= rest);
}

/// Reading goes on behind an option and its value, with its own bound set to
/// the number that the value reads as, and the other one as it was.
pub proof fn law_bounds_are_set_one_by_one<F: Fn(&str) -> Option<u64>>(
    read_number: F,
    dashes: Seq<char>,
    value: Seq<char>,
    bits: u64,
    rest: Seq<Seq<char>>,
    paths: Seq<Seq<char>>,
    luma: u64,
    chroma: u64,
    outcome: Outcome<(Paths, Options)>,
)
    requires
        dashes.len() > 0,
        forall|i: int| 0 <= i < dashes.len() ==> dashes[i] == '-',
        may_read(read_number, value, Some(bits)),
        forall|read: Option<u64>| #[trigger]
            may_read(read_number, value, read) ==> read == Some(bits),
    ensures
        encoder_may_come_to(
            read_number,
            seq![dashes + "max-error"@, value] + rest,
            paths,
            Options { max_error: luma, chroma_max_error: chroma },
            outcome,
        ) == encoder_may_come_to(
            read_number,
            rest,
            paths,
            Options { max_error: bits, chroma_max_error: chroma },
            outcome,
        ),
        encoder_may_come_to(
            read_number,
            seq![dashes + "chroma-max-error"@, value] + rest,
            paths,
            Options { max_error: luma, chroma_max_error: chroma },
            outcome,
        ) == encoder_may_come_to(
            read_number,
            rest,
            paths,
            Options { max_error: luma, chroma_max_error: bits },
            outcome,
        ),
{
    reveal_strlit("max-error");
    reveal_strlit("chroma-max-error");
    assert("max-error"@.len() != "chroma-max-error"@.len());
    lemma_bound_apart(dashes, "max-error"@, value, rest);
    lemma_bound_apart(dashes, "chroma-max-error"@, value, rest);
    assert(!may_read(read_number, value, None));
    let before = Options { max_error: luma, chroma_max_error: chroma };
    let (one, two) = (
        with_bound(before, "max-error"@, bits),
        with_bound(before, "chroma-max-error"@, bits),
    );
    assert(one == Options { max_error: bits, chroma_max_error: chroma });
    assert(two == Options { max_error: luma, chroma_max_error: bits });
}

/// What a parse comes to is what it holds.
pub proof fn law_parses_show_their_arguments(
    encode: EncodeArgs,
    decode: DecodeArgs,
    message: String,
)
    ensures
        EncodeArgs::outcome(Ok(Parse::Run(encode))) == Outcome::Run(
            (Paths { input: encode.input@, output: encode.output@ }, encode.options),
        ),
        EncodeArgs::outcome(Ok(Parse::Help)) == Outcome::<(Paths, Options)>::Help,
        EncodeArgs::outcome(Err(message)) == Outcome::<(Paths, Options)>::Fail(message@),
        DecodeArgs::outcome(Ok(Parse::Run(decode))) == Outcome::Run(
            Paths { input: decode.input@, output: decode.output@ },
        ),
        DecodeArgs::outcome(Ok(Parse::Help)) == Outcome::<Paths>::Help,
        DecodeArgs::outcome(Err(message)) == Outcome::<Paths>::Fail(message@),
{
}

} // verus!
