//! The command-line grammar of the `cairn` tool.
//!
//! ```text
//! cairn hash <file>...                       print digests of files
//! cairn key   --input F... [-- cmd...]       compute a cache key
//! cairn store --key K --input F... --output F... [-- cmd...]
//!                                            store outputs + manifest
//! cairn restore --key K [--out-dir DIR]      restore outputs from cache
//! cairn verify  --key K                      verify store integrity for a key
//! cairn show    --key K                      print a manifest as JSON
//! ```
//!
//! Global option: `--cache-dir DIR` (default `.cairn-cache`).

use vstd::prelude::*;
use crate::manifest::strings_view;
use crate::text::chars_of;

verus! {

/// Whether two string slices hold the same characters.
pub fn str_eq(a: &str, b: &str) -> (r: bool)
    ensures
        r == (a@ == b@),
{
    let x = chars_of(a);
    let y = chars_of(b);
    if x.len() != y.len() {
        return false;
    }
    let n = x.len();
    let mut i: usize = 0;
    while i < n
        invariant
            n == x@.len(),
            n == y@.len(),
            x@ == a@,
            y@ == b@,
            i <= n,
            forall|k: int| 0 <= k < i ==> x@[k] == y@[k],
        decreases n - i,
    {
        if x[i] != y[i] {
            return false;
        }
        i = i + 1;
    }
    proof {
        assert(a@ =~= b@);
    }
    true
}

/// The subcommands of the tool.
#[derive(Debug, Clone, Copy, PartialEq, Eq)]
pub enum Subcommand {
    Hash,
    Key,
    Store,
    Restore,
    Verify,
    Show,
    Help,
    Version,
    Unknown,
}

/// The subcommand that a first argument names.
pub open spec fn subcommand_of(name: Seq<char>) -> Subcommand {
    if name == "hash"@ {
        Subcommand::Hash
    } else if name == "key"@ {
        Subcommand::Key
    } else if name == "store"@ {
        Subcommand::Store
    } else if name == "restore"@ {
        Subcommand::Restore
    } else if name == "verify"@ {
        Subcommand::Verify
    } else if name == "show"@ {
        Subcommand::Show
    } else if name == "help"@ || name == "-h"@ || name == "--help"@ {
        Subcommand::Help
    } else if name == "version"@ || name == "--version"@ || name == "-V"@ {
        Subcommand::Version
    } else {
        Subcommand::Unknown
    }
}

/// Recognizes the subcommand named by the first argument.
pub fn subcommand(name: &str) -> (c: Subcommand)
    ensures
        c == subcommand_of(name@),
{
    if str_eq(name, "hash") {
        Subcommand::Hash
    } else if str_eq(name, "key") {
        Subcommand::Key
    } else if str_eq(name, "store") {
        Subcommand::Store
    } else if str_eq(name, "restore") {
        Subcommand::Restore
    } else if str_eq(name, "verify") {
        Subcommand::Verify
    } else if str_eq(name, "show") {
        Subcommand::Show
    } else if str_eq(name, "help") || str_eq(name, "-h") || str_eq(name, "--help") {
        Subcommand::Help
    } else if str_eq(name, "version") || str_eq(name, "--version") || str_eq(name, "-V") {
        Subcommand::Version
    } else {
        Subcommand::Unknown
    }
}

/// The options of one invocation. Recognizes repeated `--input`/`--output`,
/// single-valued `--key`/`--cache-dir`/`--out-dir`/`--base-dir`, and a `--`
/// separator after which everything is the command.
#[derive(Debug, Default)]
pub struct Parsed {
    pub inputs: Vec<String>,
    pub outputs: Vec<String>,
    pub key: Option<String>,
    pub cache_dir: Option<String>,
    pub out_dir: Option<String>,
    pub base_dir: Option<String>,
    pub command: Vec<String>,
    pub positional: Vec<String>,
}

/// The mathematical value of [`Parsed`].
#[verifier::ext_equal]
pub struct ParsedView {
    pub inputs: Seq<Seq<char>>,
    pub outputs: Seq<Seq<char>>,
    pub key: Option<Seq<char>>,
    pub cache_dir: Option<Seq<char>>,
    pub out_dir: Option<Seq<char>>,
    pub base_dir: Option<Seq<char>>,
    pub command: Seq<Seq<char>>,
    pub positional: Seq<Seq<char>>,
}

/// The view of an optional string.
pub open spec fn opt_view(o: Option<String>) -> Option<Seq<char>> {
    match o {
        Some(s) => Some(s@),
        None => None,
    }
}

impl View for Parsed {
    type V = ParsedView;

    open spec fn view(&self) -> ParsedView {
        ParsedView {
            inputs: strings_view(self.inputs@),
            outputs: strings_view(self.outputs@),
            key: opt_view(self.key),
            cache_dir: opt_view(self.cache_dir),
            out_dir: opt_view(self.out_dir),
            base_dir: opt_view(self.base_dir),
            command: strings_view(self.command@),
            positional: strings_view(self.positional@),
        }
    }
}

/// Nothing parsed yet.
pub open spec fn empty_parsed() -> ParsedView {
    ParsedView {
        inputs: Seq::empty(),
        outputs: Seq::empty(),
        key: None,
        cache_dir: None,
        out_dir: None,
        base_dir: None,
        command: Seq::empty(),
        positional: Seq::empty(),
    }
}

/// The error for a flag given last, with no value after it.
pub open spec fn missing_value_error(flag: Seq<char>) -> Seq<char> {
    "flag '"@ + flag + "' requires a value"@
}

/// The error for a word that starts with `-` but is no known flag.
pub open spec fn unknown_flag_error(flag: Seq<char>) -> Seq<char> {
    "unknown flag '"@ + flag + "'"@
}

/// The flags that take a value.
pub open spec fn is_valued_flag(a: Seq<char>) -> bool {
    a == "--input"@ || a == "-i"@ || a == "--output"@ || a == "-o"@ || a == "--key"@ || a
        == "-k"@ || a == "--cache-dir"@ || a == "--out-dir"@ || a == "--base-dir"@
}

/// Records the value `v` of the valued flag `a`.
pub open spec fn with_flag(p: ParsedView, a: Seq<char>, v: Seq<char>) -> ParsedView {
    if a == "--input"@ || a == "-i"@ {
        ParsedView { inputs: p.inputs.push(v), ..p }
    } else if a == "--output"@ || a == "-o"@ {
        ParsedView { outputs: p.outputs.push(v), ..p }
    } else if a == "--key"@ || a == "-k"@ {
        ParsedView { key: Some(v), ..p }
    } else if a == "--cache-dir"@ {
        ParsedView { cache_dir: Some(v), ..p }
    } else if a == "--out-dir"@ {
        ParsedView { out_dir: Some(v), ..p }
    } else {
        ParsedView { base_dir: Some(v), ..p }
    }
}

/// Parses `args` from position `i` on, with `p` parsed so far.
pub open spec fn parse_from(args: Seq<Seq<char>>, i: int, p: ParsedView) -> Result<
    ParsedView,
    Seq<char>,
>
    decreases args.len() - i,
{
    if i < 0 || i >= args.len() {
        Ok(p)
    } else {
        let a = args[i];
        if a == "--"@ {
            Ok(ParsedView { command: args.skip(i + 1), ..p })
        } else if is_valued_flag(a) {
            if i + 1 < args.len() {
                parse_from(args, i + 2, with_flag(p, a, args[i + 1]))
            } else {
                Err(missing_value_error(a))
            }
        } else if a.len() > 0 && a[0] == '-' {
            Err(unknown_flag_error(a))
        } else {
            parse_from(args, i + 1, ParsedView { positional: p.positional.push(a), ..p })
        }
    }
}

/// Takes the value that follows the flag at `*i`: moves `*i` onto it and
/// returns a copy, or fails if there is no argument there.
pub fn take_value(args: &[String], i: &mut usize, flag: &str) -> (r: Result<String, String>)
    requires
        *old(i) < usize::MAX,
    ensures
        *final(i) == *old(i) + 1,
        match r {
            Ok(v) => *final(i) < args@.len() && v@ == args@[*final(i) as int]@,
            Err(e) => *final(i) >= args@.len() && e@ == missing_value_error(flag@),
        },
{
    let n = args.len();
    *i = *i + 1;
    if *i < n {
        Ok(args[*i].clone())
    } else {
        let mut e = String::new();
        e.append("flag '");
        e.append(flag);
        e.append("' requires a value");
        Err(e)
    }
}

/// Parses the arguments that follow the subcommand.
pub fn parse(args: &[String]) -> (r: Result<Parsed, String>)
    ensures
        match r {
            Ok(p) => parse_from(strings_view(args@), 0, empty_parsed()) == Ok::<
                ParsedView,
                Seq<char>,
            >(p@),
            Err(e) => parse_from(strings_view(args@), 0, empty_parsed()) == Err::<
                ParsedView,
                Seq<char>,
            >(e@),
        },
{
    let ghost av = strings_view(args@);
    let mut p = Parsed {
        inputs: Vec::new(),
        outputs: Vec::new(),
        key: None,
        cache_dir: None,
        out_dir: None,
        base_dir: None,
        command: Vec::new(),
        positional: Vec::new(),
    };
    proof {
        assert(p@ =~= empty_parsed());
    }
    let n = args.len();
    let mut i: usize = 0;
    while i < n
        invariant
            n == args@.len(),
            av == strings_view(args@),
            i <= n + 1,
            parse_from(av, i as int, p@) == parse_from(av, 0, empty_parsed()),
        decreases n - i,
    {
        let a = args[i].as_str();
        let ghost before = p@;
        let ghost at = i as int;
        proof {
            assert(av[i as int] == a@);
        }
        if str_eq(a, "--") {
            let mut command: Vec<String> = Vec::new();
            let mut k: usize = i + 1;
            proof {
                assert(strings_view(command@) =~= av.subrange(i + 1, k as int));
            }
            while k < n
                invariant
                    n == args@.len(),
                    av == strings_view(args@),
                    i < n,
                    i + 1 <= k <= n,
                    strings_view(command@) == av.subrange(i + 1, k as int),
                decreases n - k,
            {
                let ghost prev = command@;
                let arg = args[k].clone();
                let ghost argv = arg@;
                command.push(arg);
                proof {
                    assert(command@ == prev.push(arg));
                    assert(strings_view(command@) =~= strings_view(prev).push(argv));
                    assert(strings_view(command@) =~= av.subrange(i + 1, k + 1));
                }
                k = k + 1;
            }
            p.command = command;
            proof {
                assert(av.skip(i + 1) =~= av.subrange(i + 1, n as int));
                assert(p@ =~= ParsedView { command: av.skip(i + 1), ..before });
            }
            return Ok(p);
        }
        let valued = str_eq(a, "--input") || str_eq(a, "-i") || str_eq(a, "--output") || str_eq(
            a,
            "-o",
        ) || str_eq(a, "--key") || str_eq(a, "-k") || str_eq(a, "--cache-dir") || str_eq(
            a,
            "--out-dir",
        ) || str_eq(a, "--base-dir");
        if valued {
            let v = match take_value(args, &mut i, a) {
                Ok(v) => v,
                Err(e) => {
                    return Err(e);
                },
            };
            let ghost vv = v@;
            let ghost pin = p.inputs@;
            let ghost pout = p.outputs@;
            if str_eq(a, "--input") || str_eq(a, "-i") {
                p.inputs.push(v);
            } else if str_eq(a, "--output") || str_eq(a, "-o") {
                p.outputs.push(v);
            } else if str_eq(a, "--key") || str_eq(a, "-k") {
                p.key = Some(v);
            } else if str_eq(a, "--cache-dir") {
                p.cache_dir = Some(v);
            } else if str_eq(a, "--out-dir") {
                p.out_dir = Some(v);
            } else {
                p.base_dir = Some(v);
            }
            proof {
                if a@ == "--input"@ || a@ == "-i"@ {
                    assert(p.inputs@ == pin.push(v));
                    assert(strings_view(p.inputs@) =~= strings_view(pin).push(vv));
                } else if a@ == "--output"@ || a@ == "-o"@ {
                    assert(p.outputs@ == pout.push(v));
                    assert(strings_view(p.outputs@) =~= strings_view(pout).push(vv));
                }
                assert(p@ =~= with_flag(before, a@, vv));
                assert(parse_from(av, at, before) == parse_from(av, at + 2, with_flag(before, a@, av[at + 1])));
            }
        } else {
            let cs = chars_of(a);
            if cs.len() > 0 && cs[0] == '-' {
                let mut e = String::new();
                e.append("unknown flag '");
                e.append(a);
                e.append("'");
                return Err(e);
            }
            let ghost ppos = p.positional@;
            let word = args[i].clone();
            p.positional.push(word);
            proof {
                assert(p.positional@ == ppos.push(word));
                assert(strings_view(p.positional@) =~= strings_view(ppos).push(a@));
                assert(p@ =~= ParsedView { positional: before.positional.push(a@), ..before });
            }
        }
        i = i + 1;
    }
    Ok(p)
}

/// The cache root: `--cache-dir` if given, else `.cairn-cache`.
pub fn cache_root(p: &Parsed) -> (r: String)
    ensures
        r@ == match p@.cache_dir {
            Some(d) => d,
            None => ".cairn-cache"@,
        },
{
    match &p.cache_dir {
        Some(d) => d.clone(),
        None => ".cairn-cache".to_owned(),
    }
}

/// The directory that input and output paths are relative to: `--base-dir`
/// if given, else `.`.
pub fn base_dir(p: &Parsed) -> (r: String)
    ensures
        r@ == match p@.base_dir {
            Some(d) => d,
            None => "."@,
        },
{
    match &p.base_dir {
        Some(d) => d.clone(),
        None => ".".to_owned(),
    }
}

/// The parse, started in flag position at `i`, reads position `j` in flag
/// position: every word before `j` is a known flag with its value or a
/// positional word, and none of them is `--`.
pub open spec fn reads_at(args: Seq<Seq<char>>, i: int, j: int) -> bool
    decreases j - i,
{
    if i == j {
        true
    } else if i > j || i < 0 || i >= args.len() {
        false
    } else {
        let a = args[i];
        if a == "--"@ {
            false
        } else if is_valued_flag(a) {
            i + 2 <= j && reads_at(args, i + 2, j)
        } else if a.len() > 0 && a[0] == '-' {
            false
        } else {
            reads_at(args, i + 1, j)
        }
    }
}

/// The word at `k`, read in flag position, is refused: a valued flag with
/// nothing after it, or a word that starts with `-` and is no known flag.
pub open spec fn refused_at(args: Seq<Seq<char>>, k: int) -> bool {
    &&& 0 <= k < args.len()
    &&& args[k] != "--"@
    &&& if is_valued_flag(args[k]) {
        k + 1 >= args.len()
    } else {
        args[k].len() > 0 && args[k][0] == '-'
    }
}

/// The error for the refused word at `k`.
pub open spec fn refusal(args: Seq<Seq<char>>, k: int) -> Seq<char> {
    if is_valued_flag(args[k]) {
        missing_value_error(args[k])
    } else {
        unknown_flag_error(args[k])
    }
}

proof fn lemma_separator_from(args: Seq<Seq<char>>, i: int, j: int, p: ParsedView)
    requires
        0 <= i <= j < args.len(),
        reads_at(args, i, j),
        args[j] == "--"@,
    ensures
        parse_from(args.take(j), i, p) is Ok,
        parse_from(args.take(j), i, p)->Ok_0.command == p.command,
        parse_from(args, i, p) == Ok::<ParsedView, Seq<char>>(
            ParsedView { command: args.skip(j + 1), ..parse_from(args.take(j), i, p)->Ok_0 },
        ),
    decreases j - i,
{
    let pre = args.take(j);
    if i < j {
        let a = args[i];
        assert(pre[i] == a);
        if is_valued_flag(a) {
            assert(reads_at(args, i + 2, j));
            assert(i + 2 <= j);
            assert(pre[i + 1] == args[i + 1]);
            lemma_separator_from(args, i + 2, j, with_flag(p, a, args[i + 1]));
        } else {
            assert(reads_at(args, i + 1, j));
            lemma_separator_from(args, i + 1, j, ParsedView { positional: p.positional.push(a), ..p });
        }
    }
}

/// Everything after the first `--` read in flag position is the command:
/// parsing the whole arguments gives what parsing the words before it
/// gives, with the words after it as the command. Those words are never
/// read as flags and never cause an error.
pub proof fn lemma_parse_separator(args: Seq<Seq<char>>, j: int)
    requires
        0 <= j < args.len(),
        reads_at(args, 0, j),
        args[j] == "--"@,
    ensures
        parse_from(args.take(j), 0, empty_parsed()) is Ok,
        parse_from(args, 0, empty_parsed()) == Ok::<ParsedView, Seq<char>>(
            ParsedView {
                command: args.skip(j + 1),
                ..parse_from(args.take(j), 0, empty_parsed())->Ok_0
            },
        ),
{
    lemma_separator_from(args, 0, j, empty_parsed());
}

proof fn lemma_refused_from(args: Seq<Seq<char>>, i: int, k: int, p: ParsedView)
    requires
        0 <= i <= k,
        reads_at(args, i, k),
        refused_at(args, k),
    ensures
        parse_from(args, i, p) == Err::<ParsedView, Seq<char>>(refusal(args, k)),
    decreases k - i,
{
    if i < k {
        let a = args[i];
        if is_valued_flag(a) {
            assert(reads_at(args, i + 2, k));
            assert(i + 2 <= k);
            lemma_refused_from(args, i + 2, k, with_flag(p, a, args[i + 1]));
        } else {
            assert(reads_at(args, i + 1, k));
            lemma_refused_from(args, i + 1, k, ParsedView { positional: p.positional.push(a), ..p });
        }
    }
}

proof fn lemma_error_refused(args: Seq<Seq<char>>, i: int, p: ParsedView) -> (k: int)
    requires
        0 <= i,
        parse_from(args, i, p) is Err,
    ensures
        reads_at(args, i, k),
        refused_at(args, k),
        parse_from(args, i, p) == Err::<ParsedView, Seq<char>>(refusal(args, k)),
    decreases args.len() - i,
{
    let a = args[i];
    if is_valued_flag(a) && i + 1 < args.len() {
        lemma_error_refused(args, i + 2, with_flag(p, a, args[i + 1]))
    } else if !is_valued_flag(a) && !(a.len() > 0 && a[0] == '-') {
        lemma_error_refused(args, i + 1, ParsedView { positional: p.positional.push(a), ..p })
    } else {
        i
    }
}

/// Parsing fails exactly on a refused word read in flag position before
/// any `--`: an unknown word starting with `-` gives `unknown flag '<w>'`,
/// a valued flag with nothing after it gives `flag '<w>' requires a value`.
/// The error names the first such word, since the parse reads every word
/// before it without error.
pub proof fn lemma_parse_errors(args: Seq<Seq<char>>)
    ensures
        forall|k: int|
            #[trigger] reads_at(args, 0, k) && refused_at(args, k) ==> parse_from(args, 0, empty_parsed())
                == Err::<ParsedView, Seq<char>>(refusal(args, k)),
        parse_from(args, 0, empty_parsed()) is Err ==> exists|k: int|
            #[trigger] reads_at(args, 0, k) && refused_at(args, k) && parse_from(args, 0, empty_parsed())
                == Err::<ParsedView, Seq<char>>(refusal(args, k)),
{
    assert forall|k: int|
        #[trigger] reads_at(args, 0, k) && refused_at(args, k) implies parse_from(args, 0, empty_parsed())
            == Err::<ParsedView, Seq<char>>(refusal(args, k)) by {
        lemma_refused_from(args, 0, k, empty_parsed());
    }
    if parse_from(args, 0, empty_parsed()) is Err {
        let k = lemma_error_refused(args, 0, empty_parsed());
        assert(reads_at(args, 0, k));
    }
}

/// A word that does not start with `-` is neither a flag nor the separator.
proof fn lemma_plain_word(a: Seq<char>)
    requires
        !(a.len() > 0 && a[0] == '-'),
    ensures
        a != "--"@,
        !is_valued_flag(a),
{
    reveal_strlit("--");
    reveal_strlit("--input");
    reveal_strlit("-i");
    reveal_strlit("--output");
    reveal_strlit("-o");
    reveal_strlit("--key");
    reveal_strlit("-k");
    reveal_strlit("--cache-dir");
    reveal_strlit("--out-dir");
    reveal_strlit("--base-dir");
}

proof fn lemma_plain_words_from(args: Seq<Seq<char>>, i: int, p: ParsedView)
    requires
        0 <= i <= args.len(),
        forall|k: int| 0 <= k < args.len() ==> !(#[trigger] args[k].len() > 0 && args[k][0] == '-'),
    ensures
        parse_from(args, i, p) == Ok::<ParsedView, Seq<char>>(
            ParsedView { positional: p.positional + args.skip(i), ..p },
        ),
    decreases args.len() - i,
{
    if i < args.len() {
        let a = args[i];
        lemma_plain_word(a);
        lemma_plain_words_from(args, i + 1, ParsedView { positional: p.positional.push(a), ..p });
        assert(p.positional.push(a) + args.skip(i + 1) =~= p.positional + args.skip(i));
    } else {
        assert(p.positional + args.skip(i) =~= p.positional);
    }
}

/// Words that do not start with `-` are positional, and every one of them
/// is kept, in order: `cairn hash a.txt b.txt` names both files.
pub proof fn lemma_parse_keeps_positional_words(args: Seq<Seq<char>>)
    requires
        forall|k: int| 0 <= k < args.len() ==> !(#[trigger] args[k].len() > 0 && args[k][0] == '-'),
    ensures
        parse_from(args, 0, empty_parsed()) == Ok::<ParsedView, Seq<char>>(
            ParsedView { positional: args, ..empty_parsed() },
        ),
{
    lemma_plain_words_from(args, 0, empty_parsed());
    assert(Seq::<Seq<char>>::empty() + args.skip(0) =~= args);
}

/// A positional word read in flag position is added after the ones read
/// before it: parsing one more plain word keeps everything else and
/// appends the word.
pub proof fn lemma_parse_appends_positional(args: Seq<Seq<char>>, w: Seq<char>)
    requires
        !(w.len() > 0 && w[0] == '-'),
        parse_from(args, 0, empty_parsed()) is Ok,
        forall|k: int| 0 <= k < args.len() ==> #[trigger] args[k] != "--"@,
    ensures
        parse_from(args.push(w), 0, empty_parsed()) == Ok::<ParsedView, Seq<char>>(
            ParsedView {
                positional: parse_from(args, 0, empty_parsed())->Ok_0.positional.push(w),
                ..parse_from(args, 0, empty_parsed())->Ok_0
            },
        ),
{
    lemma_plain_word(w);
    lemma_append_plain_from(args, w, 0, empty_parsed());
}

proof fn lemma_append_plain_from(args: Seq<Seq<char>>, w: Seq<char>, i: int, p: ParsedView)
    requires
        0 <= i <= args.len(),
        w != "--"@,
        !is_valued_flag(w),
        !(w.len() > 0 && w[0] == '-'),
        parse_from(args, i, p) is Ok,
        forall|k: int| 0 <= k < args.len() ==> #[trigger] args[k] != "--"@,
    ensures
        parse_from(args.push(w), i, p) == Ok::<ParsedView, Seq<char>>(
            ParsedView {
                positional: parse_from(args, i, p)->Ok_0.positional.push(w),
                ..parse_from(args, i, p)->Ok_0
            },
        ),
    decreases args.len() - i,
{
    let b = args.push(w);
    if i == args.len() {
        assert(b[i] == w);
        assert(parse_from(b, i + 1, ParsedView { positional: p.positional.push(w), ..p }) == Ok::<
            ParsedView,
            Seq<char>,
        >(ParsedView { positional: p.positional.push(w), ..p }));
    } else {
        let a = args[i];
        assert(b[i] == a);
        assert(a != "--"@);
        if is_valued_flag(a) {
            assert(i + 1 < args.len());
            assert(b[i + 1] == args[i + 1]);
            lemma_append_plain_from(args, w, i + 2, with_flag(p, a, args[i + 1]));
        } else {
            lemma_append_plain_from(args, w, i + 1, ParsedView { positional: p.positional.push(a), ..p });
        }
    }
}

} // verus!
