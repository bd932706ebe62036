use vstd::prelude::*;
use crate::types::name_in;

verus! {

/// The seven command words the tool understands.
#[derive(Clone, Copy, PartialEq, Eq, Structural, Debug)]
pub enum Command {
    Help,
    List,
    Search,
    Install,
    Remove,
    Gensymlinks,
    Upload,
}

/// Which command a word names, if any.
pub open spec fn parse_command(s: Seq<char>) -> Result<Command, ()> {
    if s == "help"@ {
        Ok(Command::Help)
    } else if s == "list"@ {
        Ok(Command::List)
    } else if s == "search"@ {
        Ok(Command::Search)
    } else if s == "install"@ {
        Ok(Command::Install)
    } else if s == "remove"@ {
        Ok(Command::Remove)
    } else if s == "gensymlinks"@ {
        Ok(Command::Gensymlinks)
    } else if s == "upload"@ {
        Ok(Command::Upload)
    } else {
        Err(())
    }
}

/// Character-by-character string equality.
fn str_eq(a: &str, b: &str) -> (r: bool)
    ensures
        r == (a@ == b@),
{
    let al = a.unicode_len();
    let bl = b.unicode_len();
    if al != bl {
        proof {
            assert(a@ != b@);
        }
        return false;
    }
    let mut i: usize = 0;
    while i < al
        invariant
            al == a@.len(),
            bl == b@.len(),
            al == bl,
            0 <= i <= al,
            forall|j: int| 0 <= j < i ==> a@[j] == b@[j],
        decreases al - i,
    {
        if a.get_char(i) != b.get_char(i) {
            proof {
                assert(a@[i as int] != b@[i as int]);
            }
            return false;
        }
        i = i + 1;
    }
    proof {
        assert(a@ =~= b@);
    }
    true
}

impl Command {
    /// Turns a command word into a `Command`, as the dispatcher's `FromStr`
    /// coercion does.
    pub fn from_str(s: &str) -> (r: Result<Command, ()>)
        ensures
            r == parse_command(s@),
    {
        if str_eq(s, "help") {
            Ok(Command::Help)
        } else if str_eq(s, "list") {
            Ok(Command::List)
        } else if str_eq(s, "search") {
            Ok(Command::Search)
        } else if str_eq(s, "install") {
            Ok(Command::Install)
        } else if str_eq(s, "remove") {
            Ok(Command::Remove)
        } else if str_eq(s, "gensymlinks") {
            Ok(Command::Gensymlinks)
        } else if str_eq(s, "upload") {
            Ok(Command::Upload)
        } else {
            Err(())
        }
    }
}

/// What the help subcommand decides; the dispatcher renders the usage text
/// and exits with code 0 for `Show` and 1 otherwise.
pub enum HelpReply {
    /// Show the usage screen for this command, or the main screen for `None`.
    Show { topic: Option<Command> },
    /// The given word names no command; show the main screen and fail.
    UnknownCommand { word: String },
    /// More than one argument; show the main screen and fail.
    TooManyArgs,
}

/// Decides what the help subcommand prints for the given arguments.
pub fn help_command(args: &Vec<String>) -> (r: HelpReply)
    ensures
        args.deep_view().len() == 0 ==> r matches HelpReply::Show { topic: None },
        args.deep_view().len() == 1 ==> match parse_command(args.deep_view()[0]) {
            Ok(c) => r matches HelpReply::Show { topic: Some(t) } && t == c,
            Err(_) => r matches HelpReply::UnknownCommand { word } && word@ == args.deep_view()[0],
        },
        args.deep_view().len() >= 2 ==> r matches HelpReply::TooManyArgs,
{
    if args.len() == 0 {
        HelpReply::Show { topic: None }
    } else if args.len() == 1 {
        proof {
            assert(args[0]@ == args.deep_view()[0]);
        }
        match Command::from_str(args[0].as_str()) {
            Ok(c) => HelpReply::Show { topic: Some(c) },
            Err(_) => HelpReply::UnknownCommand { word: args[0].clone() },
        }
    } else {
        HelpReply::TooManyArgs
    }
}

/// A word looking like an option: dashes followed by a word character.
/// Named, not spelled out, because the word-character classes are Unicode's.
pub uninterp spec fn flag_like(s: Seq<char>) -> bool;

/// Relies on regex::Regex::is_match with the anchored pattern `^-+\w+`:
/// whether the word begins with dashes followed by a word character. The
/// result depends on the word alone.
#[verifier::external_body]
fn is_flag_like(s: &str) -> (r: bool)
    ensures
        r == flag_like(s@),
{
    let re = regex::Regex::new(r"^-+\w+").unwrap();
    re.is_match(s)
}

/// Whether the word is this command's short or long spelling of an option.
pub open spec fn is_option_word(a: Seq<char>, short: Seq<char>, long: Seq<char>) -> bool {
    a == short || a == long
}

/// Whether some argument is this option.
pub open spec fn has_option(args: Seq<Seq<char>>, short: Seq<char>, long: Seq<char>) -> bool {
    exists|i: int| 0 <= i < args.len() && is_option_word(#[trigger] args[i], short, long)
}

/// Looks for an option under its two spellings.
fn find_option(args: &Vec<String>, short: &str, long: &str) -> (r: bool)
    ensures
        r == has_option(args.deep_view(), short@, long@),
{
    let mut i: usize = 0;
    while i < args.len()
        invariant
            0 <= i <= args.len(),
            forall|j: int|
                0 <= j < i ==> !is_option_word(#[trigger] args.deep_view()[j], short@, long@),
        decreases args.len() - i,
    {
        proof {
            assert(args[i as int]@ == args.deep_view()[i as int]);
        }
        if str_eq(args[i].as_str(), short) || str_eq(args[i].as_str(), long) {
            return true;
        }
        i = i + 1;
    }
    false
}

/// The per-command option words: those the install subcommand strips.
pub open spec fn install_flag(a: Seq<char>) -> bool {
    is_option_word(a, "-v"@, "--verbose"@) || is_option_word(a, "-d"@, "--dry-run"@)
}

/// The option words the remove subcommand strips.
pub open spec fn remove_flag(a: Seq<char>) -> bool {
    install_flag(a) || is_option_word(a, "-f"@, "--force"@) || is_option_word(
        a,
        "-p"@,
        "--prune-deps"@,
    )
}

/// Whether a word is stripped by this subcommand.
pub open spec fn stripped_word(a: Seq<char>, remove_mode: bool) -> bool {
    if remove_mode {
        remove_flag(a)
    } else {
        install_flag(a)
    }
}

/// Exactly what remains of the arguments after stripping the subcommand's
/// option words: the same words, in order, options removed.
pub open spec fn strip_spec(args: Seq<Seq<char>>, remove_mode: bool) -> Seq<Seq<char>> {
    args.filter(|a: Seq<char>| !stripped_word(a, remove_mode))
}

/// The option-looking words of a word list, in order.
pub open spec fn flag_like_spec(args: Seq<Seq<char>>) -> Seq<Seq<char>> {
    args.filter(|a: Seq<char>| flag_like(a))
}

/// Strips the known option words of the install or remove subcommand.
fn strip_flags(args: &Vec<String>, remove_mode: bool) -> (r: Vec<String>)
    ensures
        r.deep_view() == strip_spec(args.deep_view(), remove_mode),
{
    let ghost argv = args.deep_view();
    let mut kept: Vec<String> = Vec::new();
    let mut i: usize = 0;
    while i < args.len()
        invariant
            argv == args.deep_view(),
            0 <= i <= args.len(),
            kept.deep_view() == strip_spec(argv.subrange(0, i as int), remove_mode),
        decreases args.len() - i,
    {
        let a = &args[i];
        proof {
            assert(a@ == argv[i as int]);
        }
        let is_flag = if remove_mode {
            str_eq(a.as_str(), "-v") || str_eq(a.as_str(), "--verbose") || str_eq(a.as_str(), "-d")
                || str_eq(a.as_str(), "--dry-run") || str_eq(a.as_str(), "-f") || str_eq(
                a.as_str(),
                "--force",
            ) || str_eq(a.as_str(), "-p") || str_eq(a.as_str(), "--prune-deps")
        } else {
            str_eq(a.as_str(), "-v") || str_eq(a.as_str(), "--verbose") || str_eq(a.as_str(), "-d")
                || str_eq(a.as_str(), "--dry-run")
        };
        proof {
            assert(is_flag == stripped_word(argv[i as int], remove_mode));
        }
        if !is_flag {
            kept.push(a.clone());
        }
        proof {
            lemma_strip_step(argv, i as int, remove_mode);
            if !is_flag {
                assert(kept.deep_view() =~= strip_spec(argv.subrange(0, i as int), remove_mode)
                    .push(argv[i as int]));
            }
        }
        i = i + 1;
    }
    proof {
        assert(argv.subrange(0, argv.len() as int) =~= argv);
    }
    kept
}

/// Filtering one more word appends it when it survives the filter.
proof fn lemma_strip_step(argv: Seq<Seq<char>>, i: int, remove_mode: bool)
    requires
        0 <= i < argv.len(),
    ensures
        strip_spec(argv.subrange(0, i + 1), remove_mode) == if stripped_word(
            argv[i],
            remove_mode,
        ) {
            strip_spec(argv.subrange(0, i), remove_mode)
        } else {
            strip_spec(argv.subrange(0, i), remove_mode).push(argv[i])
        },
{
    reveal(Seq::filter);
    let s1 = argv.subrange(0, i + 1);
    assert(s1.drop_last() =~= argv.subrange(0, i));
    assert(s1.last() == argv[i]);
}

/// Filtering one more word appends it when it looks like an option.
proof fn lemma_flag_like_step(argv: Seq<Seq<char>>, i: int)
    requires
        0 <= i < argv.len(),
    ensures
        flag_like_spec(argv.subrange(0, i + 1)) == if flag_like(argv[i]) {
            flag_like_spec(argv.subrange(0, i)).push(argv[i])
        } else {
            flag_like_spec(argv.subrange(0, i))
        },
{
    reveal(Seq::filter);
    let s1 = argv.subrange(0, i + 1);
    assert(s1.drop_last() =~= argv.subrange(0, i));
    assert(s1.last() == argv[i]);
}

/// The option-looking words left over after stripping, in order.
fn invalid_options(residual: &Vec<String>) -> (r: Vec<String>)
    ensures
        r.deep_view() == flag_like_spec(residual.deep_view()),
        (r.deep_view().len() == 0) == (forall|j: int|
            0 <= j < residual.deep_view().len() ==> !flag_like(#[trigger] residual.deep_view()[j])),
{
    let ghost resv = residual.deep_view();
    let mut bad: Vec<String> = Vec::new();
    let mut i: usize = 0;
    while i < residual.len()
        invariant
            resv == residual.deep_view(),
            0 <= i <= residual.len(),
            bad.deep_view() == flag_like_spec(resv.subrange(0, i as int)),
            (bad.deep_view().len() == 0) == (forall|j: int|
                0 <= j < i ==> !flag_like(#[trigger] resv[j])),
        decreases residual.len() - i,
    {
        let a = &residual[i];
        proof {
            assert(a@ == resv[i as int]);
        }
        if is_flag_like(a.as_str()) {
            bad.push(a.clone());
        }
        proof {
            lemma_flag_like_step(resv, i as int);
            if flag_like(resv[i as int]) {
                assert(bad.deep_view() =~= flag_like_spec(resv.subrange(0, i as int)).push(
                    resv[i as int],
                ));
            }
        }
        i = i + 1;
    }
    proof {
        assert(resv.subrange(0, resv.len() as int) =~= resv);
    }
    bad
}

/// Whether position `i` holds the first `--type` word of the argument list.
pub open spec fn first_type_at(args: Seq<Seq<char>>, i: int) -> bool {
    0 <= i < args.len() && args[i] == "--type"@ && (forall|j: int|
        0 <= j < i ==> args[j] != "--type"@)
}

/// A fully parsed invocation, ready for the dispatcher to act on.
pub enum Invocation {
    Help { args: Vec<String> },
    List { type_filter: Option<String> },
    Search { query: String },
    Install { verbose: bool, dry_run: bool, packages: Vec<String> },
    Remove { verbose: bool, dry_run: bool, force: bool, prune_deps: bool, packages: Vec<String> },
    Gensymlinks { package: String },
    Upload,
    Version,
}

/// Why an invocation could not be parsed; the dispatcher prints the matching
/// usage text and exits with code 1.
pub enum ArgError {
    UnknownCommand { word: String },
    MissingTypeValue,
    MissingQuery,
    MissingPackage,
    InvalidOptions { words: Vec<String>, remove_mode: bool },
}

/// Parses a command word and its arguments into a typed invocation, exactly
/// as the dispatcher's argument scan does.
pub fn parse_args(args: Vec<String>) -> (r: Result<Invocation, ArgError>)
    requires
        args.deep_view().len() >= 1,
    ensures
        match parse_command(args.deep_view()[0]) {
            Err(_) => if args.deep_view()[0] == "-v"@ || args.deep_view()[0] == "--version"@ {
                r matches Ok(Invocation::Version)
            } else {
                r matches Err(ArgError::UnknownCommand { word }) && word@ == args.deep_view()[0]
            },
            Ok(Command::Help) => r matches Ok(Invocation::Help { args: rest }) && rest.deep_view()
                == args.deep_view().drop_first(),
            Ok(Command::Upload) => r matches Ok(Invocation::Upload),
            Ok(Command::Search) => if args.deep_view().len() >= 2 {
                r matches Ok(Invocation::Search { query }) && query@ == args.deep_view()[1]
            } else {
                r matches Err(ArgError::MissingQuery)
            },
            Ok(Command::Gensymlinks) => if args.deep_view().len() >= 2 {
                r matches Ok(Invocation::Gensymlinks { package }) && package@ == args.deep_view()[1]
            } else {
                r matches Err(ArgError::MissingPackage)
            },
            Ok(Command::List) => {
                let rest = args.deep_view().drop_first();
                if exists|i: int| first_type_at(rest, i) {
                    forall|i: int|
                        #[trigger] first_type_at(rest, i) ==> if i + 1 < rest.len() {
                            r matches Ok(Invocation::List { type_filter: Some(v) }) && v@ == rest[i
                                + 1]
                        } else {
                            r matches Err(ArgError::MissingTypeValue)
                        }
                } else {
                    r matches Ok(Invocation::List { type_filter: None })
                }
            },
            Ok(Command::Install) => {
                let rest = args.deep_view().drop_first();
                if flag_like_spec(strip_spec(rest, false)).len() == 0 {
                    r matches Ok(Invocation::Install { verbose, dry_run, packages }) && {
                        &&& verbose == has_option(rest, "-v"@, "--verbose"@)
                        &&& dry_run == has_option(rest, "-d"@, "--dry-run"@)
                        &&& packages.deep_view() == strip_spec(rest, false)
                    }
                } else {
                    r matches Err(ArgError::InvalidOptions { words, remove_mode }) && !remove_mode
                        && words.deep_view() == flag_like_spec(strip_spec(rest, false))
                }
            },
            Ok(Command::Remove) => {
                let rest = args.deep_view().drop_first();
                if flag_like_spec(strip_spec(rest, true)).len() == 0 {
                    r matches Ok(Invocation::Remove { verbose, dry_run, force, prune_deps, packages })
                        && {
                        &&& verbose == has_option(rest, "-v"@, "--verbose"@)
                        &&& dry_run == has_option(rest, "-d"@, "--dry-run"@)
                        &&& force == has_option(rest, "-f"@, "--force"@)
                        &&& prune_deps == has_option(rest, "-p"@, "--prune-deps"@)
                        &&& packages.deep_view() == strip_spec(rest, true)
                    }
                } else {
                    r matches Err(ArgError::InvalidOptions { words, remove_mode }) && remove_mode
                        && words.deep_view() == flag_like_spec(strip_spec(rest, true))
                }
            },
        },
{
    let ghost argv = args.deep_view();
    let command = args[0].clone();
    proof {
        assert(command@ == argv[0]);
    }
    let mut rest: Vec<String> = Vec::new();
    let mut i: usize = 1;
    while i < args.len()
        invariant
            argv == args.deep_view(),
            argv.len() >= 1,
            1 <= i <= args.len(),
            rest.deep_view() =~= argv.subrange(1, i as int),
        decreases args.len() - i,
    {
        let ghost rpre = rest.deep_view();
        let a = args[i].clone();
        proof {
            assert(a@ == argv[i as int]);
        }
        rest.push(a);
        proof {
            assert(rest.deep_view() =~= rpre.push(argv[i as int]));
            assert(rest.deep_view() =~= argv.subrange(1, i + 1 as int));
        }
        i = i + 1;
    }
    proof {
        assert(rest.deep_view() =~= argv.drop_first());
    }
    match Command::from_str(command.as_str()) {
        Err(_) => {
            if str_eq(command.as_str(), "-v") || str_eq(command.as_str(), "--version") {
                Ok(Invocation::Version)
            } else {
                Err(ArgError::UnknownCommand { word: command })
            }
        },
        Ok(Command::Help) => Ok(Invocation::Help { args: rest }),
        Ok(Command::Upload) => Ok(Invocation::Upload),
        Ok(Command::Search) => {
            if rest.len() >= 1 {
                proof {
                    assert(rest.deep_view()[0] == argv[1]);
                }
                Ok(Invocation::Search { query: rest[0].clone() })
            } else {
                Err(ArgError::MissingQuery)
            }
        },
        Ok(Command::Gensymlinks) => {
            if rest.len() >= 1 {
                proof {
                    assert(rest.deep_view()[0] == argv[1]);
                }
                Ok(Invocation::Gensymlinks { package: rest[0].clone() })
            } else {
                Err(ArgError::MissingPackage)
            }
        },
        Ok(Command::List) => {
            let ghost restv = rest.deep_view();
            let mut j: usize = 0;
            while j < rest.len()
                invariant
                    argv == args.deep_view(),
                    argv.len() >= 1,
                    parse_command(argv[0]) == Ok::<Command, ()>(Command::List),
                    restv == argv.drop_first(),
                    restv == rest.deep_view(),
                    0 <= j <= rest.len(),
                    forall|x: int| 0 <= x < j ==> #[trigger] restv[x] != "--type"@,
                decreases rest.len() - j,
            {
                proof {
                    assert(rest[j as int]@ == restv[j as int]);
                }
                if str_eq(rest[j].as_str(), "--type") {
                    proof {
                        assert(first_type_at(restv, j as int));
                        assert forall|i: int| #[trigger] first_type_at(restv, i) implies i
                            == j as int by {
                            if i < j as int {
                                assert(restv[i] != "--type"@);
                            }
                            if i > j as int {
                                assert(restv[j as int] != "--type"@);
                            }
                        }
                    }
                    if j + 1 < rest.len() {
                        proof {
                            assert(rest[j + 1 as int]@ == restv[j + 1]);
                        }
                        return Ok(Invocation::List { type_filter: Some(rest[j + 1].clone()) });
                    } else {
                        return Err(ArgError::MissingTypeValue);
                    }
                }
                j = j + 1;
            }
            proof {
                assert forall|i: int| !(#[trigger] first_type_at(restv, i)) by {
                    if 0 <= i < restv.len() {
                        assert(restv[i] != "--type"@);
                    }
                }
            }
            Ok(Invocation::List { type_filter: None })
        },
        Ok(Command::Install) => {
            let verbose = find_option(&rest, "-v", "--verbose");
            let dry_run = find_option(&rest, "-d", "--dry-run");
            let packages = strip_flags(&rest, false);
            let bad = invalid_options(&packages);
            if bad.len() > 0 {
                Err(ArgError::InvalidOptions { words: bad, remove_mode: false })
            } else {
                Ok(Invocation::Install { verbose, dry_run, packages })
            }
        },
        Ok(Command::Remove) => {
            let verbose = find_option(&rest, "-v", "--verbose");
            let dry_run = find_option(&rest, "-d", "--dry-run");
            let force = find_option(&rest, "-f", "--force");
            let prune_deps = find_option(&rest, "-p", "--prune-deps");
            let packages = strip_flags(&rest, true);
            let bad = invalid_options(&packages);
            if bad.len() > 0 {
                Err(ArgError::InvalidOptions { words: bad, remove_mode: true })
            } else {
                Ok(Invocation::Remove { verbose, dry_run, force, prune_deps, packages })
            }
        },
    }
}

} // verus!
