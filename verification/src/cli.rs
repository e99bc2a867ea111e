use vstd::prelude::*;

use crate::builder::{bin_flags, lemma_bin_flags_index};
use crate::strings::{
    char_index, find_char, seq_starts_with, starts_with, str_equal, substring, views,
};

verus! {

/// The command line: one subcommand with its options.
pub struct Cli {
    pub command: Command,
}

/// The subcommands and their options.
pub enum Command {
    /// Generate the minimal workspace for dependency caching.
    Deps { bin: Vec<String>, output: Option<String>, fast: bool },
    /// Build the real workspace.
    Build { release: bool, bin: Vec<String> },
    /// Show the workspace members the given binaries depend on.
    Members { bin: Vec<String> },
    /// Generate a Dockerfile for a binary.
    Dockerfile {
        bin: String,
        profile: String,
        from_git: bool,
        tool_version: Option<String>,
        base_image: String,
        runtime_image: String,
        output: Option<String>,
        fast: bool,
    },
}

/// Why a command line was not accepted.
pub enum ParseError {
    /// Help was asked for, for the subcommand when one is given.
    Help(Option<String>),
    Version,
    MissingSubcommand,
    UnknownSubcommand(String),
    /// An option this subcommand does not have.
    UnknownArgument(String),
    /// A word where no argument is expected.
    UnexpectedArgument(String),
    /// An option that takes a value was given none.
    MissingValue(String),
    /// A flag was given a value.
    UnexpectedValue(String),
    /// An option that may occur once occurred again.
    Repeated(String),
    /// A required option is missing.
    MissingRequired(String),
}

/// An option as given on the command line: its long name and its value.
pub struct Occurrence {
    pub name: String,
    pub value: Option<String>,
}

impl View for Occurrence {
    type V = (Seq<char>, Option<Seq<char>>);

    open spec fn view(&self) -> (Seq<char>, Option<Seq<char>>) {
        (self.name@, opt_view(self.value))
    }
}

pub open spec fn occ_views(s: Seq<Occurrence>) -> Seq<(Seq<char>, Option<Seq<char>>)> {
    s.map_values(|o: Occurrence| o@)
}

/// The subcommands.
#[derive(Clone, Copy)]
pub enum Subcommand {
    Deps,
    Build,
    Members,
    Dockerfile,
}

/// How an option takes values.
pub enum OptionKind {
    Flag,
    Single,
    Multiple,
}

/// The abstract content of a `Command`.
pub enum CommandView {
    Deps { bin: Seq<Seq<char>>, output: Option<Seq<char>>, fast: bool },
    Build { release: bool, bin: Seq<Seq<char>> },
    Members { bin: Seq<Seq<char>> },
    Dockerfile {
        bin: Seq<char>,
        profile: Seq<char>,
        from_git: bool,
        tool_version: Option<Seq<char>>,
        base_image: Seq<char>,
        runtime_image: Seq<char>,
        output: Option<Seq<char>>,
        fast: bool,
    },
}

/// The abstract content of a `ParseError`.
pub enum ParseErrorView {
    Help(Option<Seq<char>>),
    Version,
    MissingSubcommand,
    UnknownSubcommand(Seq<char>),
    UnknownArgument(Seq<char>),
    UnexpectedArgument(Seq<char>),
    MissingValue(Seq<char>),
    UnexpectedValue(Seq<char>),
    Repeated(Seq<char>),
    MissingRequired(Seq<char>),
}

pub open spec fn opt_view(o: Option<String>) -> Option<Seq<char>> {
    match o {
        Some(s) => Some(s@),
        None => None,
    }
}

impl View for Command {
    type V = CommandView;

    open spec fn view(&self) -> CommandView {
        match self {
            Command::Deps { bin, output, fast } => CommandView::Deps {
                bin: views(bin@),
                output: opt_view(*output),
                fast: *fast,
            },
            Command::Build { release, bin } => CommandView::Build { release: *release, bin: views(bin@) },
            Command::Members { bin } => CommandView::Members { bin: views(bin@) },
            Command::Dockerfile {
                bin,
                profile,
                from_git,
                tool_version,
                base_image,
                runtime_image,
                output,
                fast,
            } => CommandView::Dockerfile {
                bin: bin@,
                profile: profile@,
                from_git: *from_git,
                tool_version: opt_view(*tool_version),
                base_image: base_image@,
                runtime_image: runtime_image@,
                output: opt_view(*output),
                fast: *fast,
            },
        }
    }
}

impl View for ParseError {
    type V = ParseErrorView;

    open spec fn view(&self) -> ParseErrorView {
        match self {
            ParseError::Help(s) => ParseErrorView::Help(opt_view(*s)),
            ParseError::Version => ParseErrorView::Version,
            ParseError::MissingSubcommand => ParseErrorView::MissingSubcommand,
            ParseError::UnknownSubcommand(s) => ParseErrorView::UnknownSubcommand(s@),
            ParseError::UnknownArgument(s) => ParseErrorView::UnknownArgument(s@),
            ParseError::UnexpectedArgument(s) => ParseErrorView::UnexpectedArgument(s@),
            ParseError::MissingValue(s) => ParseErrorView::MissingValue(s@),
            ParseError::UnexpectedValue(s) => ParseErrorView::UnexpectedValue(s@),
            ParseError::Repeated(s) => ParseErrorView::Repeated(s@),
            ParseError::MissingRequired(s) => ParseErrorView::MissingRequired(s@),
        }
    }
}

// ---------------------------------------------------------------------------
// The grammar

/// The subcommand a word names; `resolve` is another name of `members`.
pub open spec fn subcommand_named(w: Seq<char>) -> Option<Subcommand> {
    if w == "deps"@ {
        Some(Subcommand::Deps)
    } else if w == "build"@ {
        Some(Subcommand::Build)
    } else if w == "members"@ || w == "resolve"@ {
        Some(Subcommand::Members)
    } else if w == "dockerfile"@ {
        Some(Subcommand::Dockerfile)
    } else {
        None
    }
}

/// The options of each subcommand, by long name.
pub open spec fn option_kind(sub: Subcommand, name: Seq<char>) -> Option<OptionKind> {
    match sub {
        Subcommand::Deps => if name == "bin"@ {
            Some(OptionKind::Multiple)
        } else if name == "output"@ {
            Some(OptionKind::Single)
        } else if name == "fast"@ {
            Some(OptionKind::Flag)
        } else {
            None
        },
        Subcommand::Build => if name == "release"@ {
            Some(OptionKind::Flag)
        } else if name == "bin"@ {
            Some(OptionKind::Multiple)
        } else {
            None
        },
        Subcommand::Members => if name == "bin"@ {
            Some(OptionKind::Multiple)
        } else {
            None
        },
        Subcommand::Dockerfile => if name == "bin"@ || name == "profile"@ || name == "tool-version"@ || name
            == "base-image"@ || name == "runtime-image"@ || name == "output"@ {
            Some(OptionKind::Single)
        } else if name == "from-git"@ || name == "fast"@ {
            Some(OptionKind::Flag)
        } else {
            None
        },
    }
}

/// The long name of a short option (`-o` is `--output` where there is one).
pub open spec fn short_option(sub: Subcommand, c: char) -> Option<Seq<char>> {
    if c == 'o' && (sub is Deps || sub is Dockerfile) {
        Some("output"@)
    } else {
        None
    }
}

/// A word that reads as an option rather than as a value.
pub open spec fn looks_like_option(w: Seq<char>) -> bool {
    w.len() >= 2 && w[0] == '-'
}

pub open spec fn is_help(w: Seq<char>) -> bool {
    w == "-h"@ || w == "--help"@
}

/// Name and inline value of a word `--name` or `--name=value`.
pub open spec fn split_long(w: Seq<char>) -> (Seq<char>, Option<Seq<char>>) {
    let body = w.skip(2);
    match char_index(body, '=') {
        Some(e) => (body.take(e), Some(body.skip(e + 1))),
        None => (body, None),
    }
}

/// Inline value of a short option word `-o`, `-ovalue` or `-o=value`.
pub open spec fn short_inline(w: Seq<char>) -> Option<Seq<char>> {
    let rest = w.skip(2);
    if rest.len() == 0 {
        None
    } else if rest[0] == '=' {
        Some(rest.skip(1))
    } else {
        Some(rest)
    }
}

pub open spec fn prepend(o: (Seq<char>, Option<Seq<char>>), r: Result<Seq<(Seq<char>, Option<Seq<char>>)>, ParseErrorView>) -> Result<
    Seq<(Seq<char>, Option<Seq<char>>)>,
    ParseErrorView,
> {
    match r {
        Ok(s) => Ok(seq![o] + s),
        Err(e) => Err(e),
    }
}

/// The option occurrences that the words from position `i` on give, each
/// as its long name and value, or the first word that is not accepted.
pub open spec fn lex(sub: Subcommand, sub_name: Seq<char>, words: Seq<Seq<char>>, i: int) -> Result<
    Seq<(Seq<char>, Option<Seq<char>>)>,
    ParseErrorView,
>
    decreases words.len() - i,
{
    if i < 0 || i >= words.len() {
        Ok(seq![])
    } else {
        let w = words[i];
        if is_help(w) {
            Err(ParseErrorView::Help(Some(sub_name)))
        } else if w == "--"@ {
            if i + 1 < words.len() {
                Err(ParseErrorView::UnexpectedArgument(words[i + 1]))
            } else {
                Ok(seq![])
            }
        } else if looks_like_option(w) {
            let long = seq_starts_with(w, "--"@);
            let name = if long {
                split_long(w).0
            } else {
                match short_option(sub, w[1]) {
                    Some(n) => n,
                    None => seq![],
                }
            };
            let inline = if long {
                split_long(w).1
            } else {
                short_inline(w)
            };
            if !long && short_option(sub, w[1]) is None {
                Err(ParseErrorView::UnknownArgument(w))
            } else {
                match option_kind(sub, name) {
                    None => Err(ParseErrorView::UnknownArgument(w)),
                    Some(OptionKind::Flag) => match inline {
                        Some(_) => Err(ParseErrorView::UnexpectedValue(name)),
                        None => prepend((name, None), lex(sub, sub_name, words, i + 1)),
                    },
                    Some(_) => match inline {
                        Some(v) => prepend((name, Some(v)), lex(sub, sub_name, words, i + 1)),
                        None => if i + 1 < words.len() && !looks_like_option(words[i + 1]) {
                            prepend((name, Some(words[i + 1])), lex(sub, sub_name, words, i + 2))
                        } else {
                            Err(ParseErrorView::MissingValue(name))
                        },
                    },
                }
            }
        } else {
            Err(ParseErrorView::UnexpectedArgument(w))
        }
    }
}

/// The values given for option `name`, in order.
pub open spec fn values_of(occ: Seq<(Seq<char>, Option<Seq<char>>)>, name: Seq<char>) -> Seq<Seq<char>>
    decreases occ.len(),
{
    if occ.len() == 0 {
        seq![]
    } else {
        let rest = values_of(occ.drop_last(), name);
        if occ.last().0 == name {
            match occ.last().1 {
                Some(v) => rest.push(v),
                None => rest,
            }
        } else {
            rest
        }
    }
}

/// Whether option `name` occurs.
pub open spec fn occurs(occ: Seq<(Seq<char>, Option<Seq<char>>)>, name: Seq<char>) -> bool {
    exists|k: int| 0 <= k < occ.len() && #[trigger] occ[k].0 == name
}

/// The name of the first occurrence of an option that may occur once and
/// already occurred before it.
pub open spec fn first_repeat(sub: Subcommand, occ: Seq<(Seq<char>, Option<Seq<char>>)>) -> Option<Seq<char>>
    decreases occ.len(),
{
    if occ.len() == 0 {
        None
    } else {
        match first_repeat(sub, occ.drop_last()) {
            Some(n) => Some(n),
            None => {
                let last = occ.last().0;
                if !(option_kind(sub, last) == Some(OptionKind::Multiple)) && occurs(occ.drop_last(), last) {
                    Some(last)
                } else {
                    None
                }
            },
        }
    }
}

/// The value of an option that occurs at most once, or the default.
pub open spec fn value_or(occ: Seq<(Seq<char>, Option<Seq<char>>)>, name: Seq<char>, default: Seq<char>) -> Seq<char> {
    let vs = values_of(occ, name);
    if vs.len() == 0 {
        default
    } else {
        vs[0]
    }
}

pub open spec fn optional_value(occ: Seq<(Seq<char>, Option<Seq<char>>)>, name: Seq<char>) -> Option<Seq<char>> {
    let vs = values_of(occ, name);
    if vs.len() == 0 {
        None
    } else {
        Some(vs[0])
    }
}

/// The command the occurrences of the subcommand's options make up.
pub open spec fn build_command(sub: Subcommand, occ: Seq<(Seq<char>, Option<Seq<char>>)>) -> Result<
    CommandView,
    ParseErrorView,
> {
    match first_repeat(sub, occ) {
        Some(n) => Err(ParseErrorView::Repeated(n)),
        None => match sub {
            Subcommand::Deps => Ok(
                CommandView::Deps {
                    bin: values_of(occ, "bin"@),
                    output: optional_value(occ, "output"@),
                    fast: occurs(occ, "fast"@),
                },
            ),
            Subcommand::Build => Ok(
                CommandView::Build { release: occurs(occ, "release"@), bin: values_of(occ, "bin"@) },
            ),
            Subcommand::Members => if values_of(occ, "bin"@).len() == 0 {
                Err(ParseErrorView::MissingRequired("bin"@))
            } else {
                Ok(CommandView::Members { bin: values_of(occ, "bin"@) })
            },
            Subcommand::Dockerfile => if values_of(occ, "bin"@).len() == 0 {
                Err(ParseErrorView::MissingRequired("bin"@))
            } else {
                Ok(
                    CommandView::Dockerfile {
                        bin: values_of(occ, "bin"@)[0],
                        profile: value_or(occ, "profile"@, "release"@),
                        from_git: occurs(occ, "from-git"@),
                        tool_version: optional_value(occ, "tool-version"@),
                        base_image: value_or(occ, "base-image"@, "rust:1.94-bookworm"@),
                        runtime_image: value_or(occ, "runtime-image"@, "debian:bookworm-slim"@),
                        output: optional_value(occ, "output"@),
                        fast: occurs(occ, "fast"@),
                    },
                )
            },
        },
    }
}

/// What a command line (the words after the program name) means.
pub open spec fn spec_parse(words: Seq<Seq<char>>) -> Result<CommandView, ParseErrorView> {
    if words.len() == 0 {
        Err(ParseErrorView::MissingSubcommand)
    } else {
        let w = words[0];
        if is_help(w) || w == "help"@ {
            Err(ParseErrorView::Help(None))
        } else if w == "-V"@ || w == "--version"@ {
            Err(ParseErrorView::Version)
        } else if looks_like_option(w) {
            Err(ParseErrorView::UnknownArgument(w))
        } else {
            match subcommand_named(w) {
                None => Err(ParseErrorView::UnknownSubcommand(w)),
                Some(sub) => match lex(sub, w, words, 1) {
                    Err(e) => Err(e),
                    Ok(occ) => build_command(sub, occ),
                },
            }
        }
    }
}


// ---------------------------------------------------------------------------
// Laws of the grammar

/// The occurrences that `--bin b` for each of `bins` make up.
pub open spec fn bin_occurrences(bins: Seq<Seq<char>>) -> Seq<(Seq<char>, Option<Seq<char>>)> {
    bins.map_values(|b: Seq<char>| ("bin"@, Some(b)))
}

proof fn lemma_bin_word()
    ensures
        !is_help("--bin"@),
        "--bin"@ != "--"@,
        looks_like_option("--bin"@),
        seq_starts_with("--bin"@, "--"@),
        split_long("--bin"@) == ("bin"@, None::<Seq<char>>),
{
    reveal_strlit("--bin");
    reveal_strlit("--");
    reveal_strlit("-h");
    reveal_strlit("--help");
    reveal_strlit("bin");
    let w = "--bin"@;
    assert(w.subrange(0, 2) =~= "--"@);
    let body = w.skip(2);
    assert(body =~= "bin"@);
    assert(!(exists|i: int| 0 <= i < body.len() && body[i] == '='));
}

proof fn lemma_lex_bin_flags(sub: Subcommand, name: Seq<char>, bins: Seq<Seq<char>>, k: int)
    requires
        option_kind(sub, "bin"@) == Some(OptionKind::Multiple),
        forall|i: int| 0 <= i < bins.len() ==> !looks_like_option(#[trigger] bins[i]),
        0 <= k <= bins.len(),
    ensures
        lex(sub, name, seq![name] + bin_flags(bins), 1 + 2 * k) == Ok::<_, ParseErrorView>(
            bin_occurrences(bins.skip(k)),
        ),
    decreases bins.len() - k,
{
    lemma_bin_flags_index(bins);
    let words = seq![name] + bin_flags(bins);
    if k < bins.len() {
        lemma_lex_bin_flags(sub, name, bins, k + 1);
        lemma_bin_word();
        assert(words[1 + 2 * k] == bin_flags(bins)[2 * k]);
        assert(words[2 + 2 * k] == bin_flags(bins)[2 * k + 1]);
        assert(words[1 + 2 * k] == "--bin"@);
        assert(words[2 + 2 * k] == bins[k]);
        assert(bin_occurrences(bins.skip(k)) =~= seq![("bin"@, Some(bins[k]))] + bin_occurrences(bins.skip(k + 1)));
    } else {
        assert(bin_occurrences(bins.skip(k)) =~= seq![]);
    }
}

proof fn lemma_bin_occurrences(sub: Subcommand, bins: Seq<Seq<char>>, other: Seq<char>)
    requires
        option_kind(sub, "bin"@) == Some(OptionKind::Multiple),
        other != "bin"@,
    ensures
        first_repeat(sub, bin_occurrences(bins)) is None,
        values_of(bin_occurrences(bins), "bin"@) == bins,
        values_of(bin_occurrences(bins), other) == Seq::<Seq<char>>::empty(),
        !occurs(bin_occurrences(bins), other),
    decreases bins.len(),
{
    let occ = bin_occurrences(bins);
    if bins.len() > 0 {
        lemma_bin_occurrences(sub, bins.drop_last(), other);
        assert(occ.drop_last() =~= bin_occurrences(bins.drop_last()));
        assert(bins.drop_last().push(bins.last()) =~= bins);
    } else {
        assert(values_of(occ, "bin"@) =~= bins);
    }
}

/// A word `--name` whose name has no `=` is read as the long option `name`
/// with no inline value.
proof fn lemma_long_word(name: Seq<char>)
    requires
        name.len() > 0,
        name != "help"@,
        forall|j: int| 0 <= j < name.len() ==> name[j] != '=',
    ensures
        !is_help("--"@ + name),
        "--"@ + name != "--"@,
        looks_like_option("--"@ + name),
        seq_starts_with("--"@ + name, "--"@),
        split_long("--"@ + name) == (name, None::<Seq<char>>),
{
    reveal_strlit("--");
    reveal_strlit("-h");
    reveal_strlit("--help");
    reveal_strlit("help");
    let w = "--"@ + name;
    assert(w.subrange(0, 2) =~= "--"@);
    assert(w.skip(2) =~= name);
    if w == "--help"@ {
        assert(w.skip(2) =~= "help"@);
    }
    assert((w.len() != 2));
}

/// Reading `--name value` for an option that takes a value.
proof fn lemma_lex_value_step(sub: Subcommand, sub_name: Seq<char>, words: Seq<Seq<char>>, i: int, name: Seq<char>)
    requires
        0 <= i,
        i + 1 < words.len(),
        name.len() > 0,
        name != "help"@,
        forall|j: int| 0 <= j < name.len() ==> name[j] != '=',
        words[i] == "--"@ + name,
        option_kind(sub, name) == Some(OptionKind::Single) || option_kind(sub, name) == Some(OptionKind::Multiple),
        !looks_like_option(words[i + 1]),
    ensures
        lex(sub, sub_name, words, i) == prepend((name, Some(words[i + 1])), lex(sub, sub_name, words, i + 2)),
{
    lemma_long_word(name);
}

/// Reading `--name` for a flag.
proof fn lemma_lex_flag_step(sub: Subcommand, sub_name: Seq<char>, words: Seq<Seq<char>>, i: int, name: Seq<char>)
    requires
        0 <= i < words.len(),
        name.len() > 0,
        name != "help"@,
        forall|j: int| 0 <= j < name.len() ==> name[j] != '=',
        words[i] == "--"@ + name,
        option_kind(sub, name) == Some(OptionKind::Flag),
    ensures
        lex(sub, sub_name, words, i) == prepend((name, None::<Seq<char>>), lex(sub, sub_name, words, i + 1)),
{
    lemma_long_word(name);
}

/// Reading `-o value` where `-o` stands for `--output`.
proof fn lemma_lex_short_output_step(sub: Subcommand, sub_name: Seq<char>, words: Seq<Seq<char>>, i: int)
    requires
        0 <= i,
        i + 1 < words.len(),
        sub is Deps || sub is Dockerfile,
        words[i] == "-o"@,
        !looks_like_option(words[i + 1]),
    ensures
        lex(sub, sub_name, words, i) == prepend(("output"@, Some(words[i + 1])), lex(sub, sub_name, words, i + 2)),
{
    reveal_strlit("-o");
    reveal_strlit("--");
    reveal_strlit("-h");
    reveal_strlit("--help");
    reveal_strlit("output");
    let w = words[i];
    assert(w.len() == 2 && w[0] == '-' && w[1] == 'o');
    assert(!seq_starts_with(w, "--"@)) by {
        if seq_starts_with(w, "--"@) {
            assert(w.subrange(0, 2)[1] == w[1]);
        }
    }
    assert(w != "--"@) by {
        if w == "--"@ {
            assert(w[1] == "--"@[1]);
        }
    }
    assert(w != "-h"@) by {
        if w == "-h"@ {
            assert(w[1] == "-h"@[1]);
        }
    }
    assert(w.skip(2) =~= Seq::<char>::empty());
}

proof fn lemma_option_names()
    ensures
        "bin"@.len() == 3,
        "fast"@.len() == 4,
        "output"@.len() == 6,
        "release"@.len() == 7,
        "profile"@.len() == 7,
        "from-git"@.len() == 8,
        "base-image"@.len() == 10,
        "tool-version"@.len() == 12,
        "runtime-image"@.len() == 13,
        "help"@.len() == 4,
        "release"@ != "profile"@,
        "fast"@ != "help"@,
        forall|j: int| 0 <= j < 3 ==> "bin"@[j] != '=',
        forall|j: int| 0 <= j < 4 ==> "fast"@[j] != '=',
        forall|j: int| 0 <= j < 6 ==> "output"@[j] != '=',
        forall|j: int| 0 <= j < 7 ==> "release"@[j] != '=',
        forall|j: int| 0 <= j < 7 ==> "profile"@[j] != '=',
        forall|j: int| 0 <= j < 8 ==> "from-git"@[j] != '=',
        forall|j: int| 0 <= j < 10 ==> "base-image"@[j] != '=',
        forall|j: int| 0 <= j < 12 ==> "tool-version"@[j] != '=',
        forall|j: int| 0 <= j < 13 ==> "runtime-image"@[j] != '=',
{
    reveal_strlit("bin");
    reveal_strlit("fast");
    reveal_strlit("output");
    reveal_strlit("release");
    reveal_strlit("profile");
    reveal_strlit("from-git");
    reveal_strlit("base-image");
    reveal_strlit("tool-version");
    reveal_strlit("runtime-image");
    reveal_strlit("help");
    assert("release"@[0] != "profile"@[0]);
    assert("fast"@[0] != "help"@[0]);
}

/// A subcommand word is read as that subcommand.
proof fn lemma_subcommand_word(w: Seq<char>, sub: Subcommand)
    requires
        (w == "deps"@ && sub is Deps) || (w == "build"@ && sub is Build) || (w == "members"@ && sub is Members) || (w
            == "dockerfile"@ && sub is Dockerfile),
    ensures
        !is_help(w),
        w != "help"@,
        w != "-V"@,
        w != "--version"@,
        !looks_like_option(w),
        subcommand_named(w) == Some(sub),
{
    reveal_strlit("deps");
    reveal_strlit("build");
    reveal_strlit("members");
    reveal_strlit("dockerfile");
    reveal_strlit("resolve");
    reveal_strlit("help");
    reveal_strlit("-h");
    reveal_strlit("--help");
    reveal_strlit("-V");
    reveal_strlit("--version");
    assert("deps"@.len() == 4 && "build"@.len() == 5 && "members"@.len() == 7 && "dockerfile"@.len() == 10);
    assert("resolve"@.len() == 7 && "help"@.len() == 4 && "-h"@.len() == 2 && "--help"@.len() == 6);
    assert("-V"@.len() == 2 && "--version"@.len() == 9);
    assert("deps"@[0] != "help"@[0]);
    assert("members"@[0] != "resolve"@[0]);
    assert(w[0] != '-');
}

/// The command line made of `sub_name` and `--bin b` for each of `bins`
/// lexes to one `bin` occurrence per binary and has no repeat.
proof fn lemma_bin_command_line(sub: Subcommand, sub_name: Seq<char>, bins: Seq<Seq<char>>)
    requires
        (sub_name == "deps"@ && sub is Deps) || (sub_name == "build"@ && sub is Build) || (sub_name == "members"@
            && sub is Members),
        forall|i: int| 0 <= i < bins.len() ==> !looks_like_option(#[trigger] bins[i]),
    ensures
        spec_parse(seq![sub_name] + bin_flags(bins)) == build_command(sub, bin_occurrences(bins)),
        first_repeat(sub, bin_occurrences(bins)) is None,
        values_of(bin_occurrences(bins), "bin"@) == bins,
{
    lemma_option_names();
    lemma_subcommand_word(sub_name, sub);
    assert(option_kind(sub, "bin"@) == Some(OptionKind::Multiple));
    assert(bins.skip(0) =~= bins);
    lemma_lex_bin_flags(sub, sub_name, bins, 0);
    lemma_bin_occurrences(sub, bins, "output"@);
    assert((seq![sub_name] + bin_flags(bins))[0] == sub_name);
}

/// Every `--bin` given to `deps`, `build` or `members` is kept, in order: a
/// command line made of the subcommand and `--bin b` for each of `bins`
/// parses to exactly those binaries, with every other option at its default.
pub proof fn law_every_bin_is_kept(bins: Seq<Seq<char>>)
    requires
        forall|i: int| 0 <= i < bins.len() ==> !looks_like_option(#[trigger] bins[i]),
    ensures
        spec_parse(seq!["deps"@] + bin_flags(bins)) == Ok::<_, ParseErrorView>(
            CommandView::Deps { bin: bins, output: None, fast: false },
        ),
        spec_parse(seq!["build"@] + bin_flags(bins)) == Ok::<_, ParseErrorView>(
            CommandView::Build { release: false, bin: bins },
        ),
        bins.len() > 0 ==> spec_parse(seq!["members"@] + bin_flags(bins)) == Ok::<_, ParseErrorView>(
            CommandView::Members { bin: bins },
        ),
{
    lemma_option_names();
    lemma_bin_command_line(Subcommand::Deps, "deps"@, bins);
    lemma_bin_command_line(Subcommand::Build, "build"@, bins);
    lemma_bin_command_line(Subcommand::Members, "members"@, bins);
    lemma_bin_occurrences(Subcommand::Deps, bins, "output"@);
    lemma_bin_occurrences(Subcommand::Deps, bins, "fast"@);
    lemma_bin_occurrences(Subcommand::Build, bins, "release"@);
}

/// The long option words are `--` followed by the option's name.
proof fn lemma_long_spellings()
    ensures
        "--bin"@ == "--"@ + "bin"@,
        "--profile"@ == "--"@ + "profile"@,
        "--base-image"@ == "--"@ + "base-image"@,
        "--runtime-image"@ == "--"@ + "runtime-image"@,
        "--tool-version"@ == "--"@ + "tool-version"@,
        "--from-git"@ == "--"@ + "from-git"@,
        "--fast"@ == "--"@ + "fast"@,
{
    reveal_strlit("--");
    reveal_strlit("--bin");
    reveal_strlit("--profile");
    reveal_strlit("--base-image");
    reveal_strlit("--runtime-image");
    reveal_strlit("--tool-version");
    reveal_strlit("--from-git");
    reveal_strlit("--fast");
    reveal_strlit("bin");
    reveal_strlit("profile");
    reveal_strlit("base-image");
    reveal_strlit("runtime-image");
    reveal_strlit("tool-version");
    reveal_strlit("from-git");
    reveal_strlit("fast");
    assert("--bin"@ =~= "--"@ + "bin"@);
    assert("--profile"@ =~= "--"@ + "profile"@);
    assert("--base-image"@ =~= "--"@ + "base-image"@);
    assert("--runtime-image"@ =~= "--"@ + "runtime-image"@);
    assert("--tool-version"@ =~= "--"@ + "tool-version"@);
    assert("--from-git"@ =~= "--"@ + "from-git"@);
    assert("--fast"@ =~= "--"@ + "fast"@);
}

/// `dockerfile --bin b` takes every other option at its default: the release
/// profile, the default base and runtime images, this tool's version, no
/// output path, and no switch set.
pub proof fn law_dockerfile_defaults(b: Seq<char>)
    requires
        !looks_like_option(b),
    ensures
        spec_parse(seq!["dockerfile"@, "--bin"@, b]) == Ok::<_, ParseErrorView>(
            CommandView::Dockerfile {
                bin: b,
                profile: "release"@,
                from_git: false,
                tool_version: None,
                base_image: "rust:1.94-bookworm"@,
                runtime_image: "debian:bookworm-slim"@,
                output: None,
                fast: false,
            },
        ),
{
    lemma_option_names();
    lemma_subcommand_word("dockerfile"@, Subcommand::Dockerfile);
    lemma_long_spellings();
    let words = seq!["dockerfile"@, "--bin"@, b];
    lemma_lex_value_step(Subcommand::Dockerfile, "dockerfile"@, words, 1, "bin"@);
    let occ = seq![("bin"@, Some(b))];
    assert(lex(Subcommand::Dockerfile, "dockerfile"@, words, 1) == Ok::<_, ParseErrorView>(occ));
    assert(occ.drop_last() =~= Seq::<(Seq<char>, Option<Seq<char>>)>::empty());
    lemma_values_of_unique(occ, 0);
    lemma_values_of_absent(occ, "profile"@);
    lemma_values_of_absent(occ, "tool-version"@);
    lemma_values_of_absent(occ, "base-image"@);
    lemma_values_of_absent(occ, "runtime-image"@);
    lemma_values_of_absent(occ, "output"@);
    assert(!occurs(occ, "from-git"@));
    assert(!occurs(occ, "fast"@));
    lemma_prefix_names_differ(Subcommand::Dockerfile, occ, 1);
    assert(occ.take(1) =~= occ);
    assert(spec_parse(words) == build_command(Subcommand::Dockerfile, occ));
}

/// Each option that `dockerfile` is given reaches the command as given:
/// the binary, the profile, the base and runtime images, the tool version,
/// the two switches, and the output path given with `-o`.
#[verifier::rlimit(40)]
pub proof fn law_dockerfile_options(b: Seq<char>, p: Seq<char>, x: Seq<char>, r: Seq<char>, v: Seq<char>, o: Seq<char>)
    requires
        !looks_like_option(b),
        !looks_like_option(p),
        !looks_like_option(x),
        !looks_like_option(r),
        !looks_like_option(v),
        !looks_like_option(o),
    ensures
        spec_parse(
            seq![
                "dockerfile"@,
                "--bin"@,
                b,
                "--profile"@,
                p,
                "--base-image"@,
                x,
                "--runtime-image"@,
                r,
                "--tool-version"@,
                v,
                "--from-git"@,
                "--fast"@,
                "-o"@,
                o,
            ],
        ) == Ok::<_, ParseErrorView>(
            CommandView::Dockerfile {
                bin: b,
                profile: p,
                from_git: true,
                tool_version: Some(v),
                base_image: x,
                runtime_image: r,
                output: Some(o),
                fast: true,
            },
        ),
{
    lemma_subcommand_word("dockerfile"@, Subcommand::Dockerfile);
    lemma_dockerfile_lex(b, p, x, r, v, o);
    assert(dockerfile_words(b, p, x, r, v, o)[0] == "dockerfile"@);
    lemma_dockerfile_occurrences(b, p, x, r, v, o);
}

/// `deps` takes its output directory from `-o` and its fast mode from
/// `--fast`; `build` builds in release mode when given `--release`.
pub proof fn law_deps_and_build_options(b: Seq<char>, o: Seq<char>)
    requires
        !looks_like_option(b),
        !looks_like_option(o),
    ensures
        spec_parse(seq!["deps"@, "--bin"@, b, "-o"@, o, "--fast"@]) == Ok::<_, ParseErrorView>(
            CommandView::Deps { bin: seq![b], output: Some(o), fast: true },
        ),
        spec_parse(seq!["build"@, "--release"@, "--bin"@, b]) == Ok::<_, ParseErrorView>(
            CommandView::Build { release: true, bin: seq![b] },
        ),
{
    lemma_option_names();
    lemma_long_spellings();
    reveal_strlit("--release");
    reveal_strlit("--");
    reveal_strlit("release");
    assert("--release"@ =~= "--"@ + "release"@);
    lemma_subcommand_word("deps"@, Subcommand::Deps);
    lemma_subcommand_word("build"@, Subcommand::Build);
    let dw = seq!["deps"@, "--bin"@, b, "-o"@, o, "--fast"@];
    let docc = seq![("bin"@, Some(b)), ("output"@, Some(o)), ("fast"@, None::<Seq<char>>)];
    let dn = "deps"@;
    let ds = Subcommand::Deps;
    assert(docc.skip(3) =~= Seq::<(Seq<char>, Option<Seq<char>>)>::empty());
    assert(lex(ds, dn, dw, 6) == Ok::<_, ParseErrorView>(docc.skip(3)));
    lemma_lex_flag_step(ds, dn, dw, 5, "fast"@);
    assert(seq![docc[2]] + docc.skip(3) =~= docc.skip(2));
    lemma_lex_short_output_step(ds, dn, dw, 3);
    assert(seq![docc[1]] + docc.skip(2) =~= docc.skip(1));
    lemma_lex_value_step(ds, dn, dw, 1, "bin"@);
    assert(seq![docc[0]] + docc.skip(1) =~= docc);
    assert(lex(ds, dn, dw, 1) == Ok::<_, ParseErrorView>(docc));
    assert(docc.take(3) =~= docc);
    lemma_prefix_names_differ(ds, docc, 3);
    lemma_values_of_unique(docc, 0);
    lemma_values_of_unique(docc, 1);
    assert(docc[2].0 == "fast"@);
    assert(spec_parse(dw) == build_command(ds, docc));
    let bw = seq!["build"@, "--release"@, "--bin"@, b];
    let bocc = seq![("release"@, None::<Seq<char>>), ("bin"@, Some(b))];
    let bn = "build"@;
    let bs = Subcommand::Build;
    assert(bocc.skip(2) =~= Seq::<(Seq<char>, Option<Seq<char>>)>::empty());
    assert(lex(bs, bn, bw, 4) == Ok::<_, ParseErrorView>(bocc.skip(2)));
    lemma_lex_value_step(bs, bn, bw, 2, "bin"@);
    assert(seq![bocc[1]] + bocc.skip(2) =~= bocc.skip(1));
    lemma_lex_flag_step(bs, bn, bw, 1, "release"@);
    assert(seq![bocc[0]] + bocc.skip(1) =~= bocc);
    assert(lex(bs, bn, bw, 1) == Ok::<_, ParseErrorView>(bocc));
    assert(bocc.take(2) =~= bocc);
    lemma_prefix_names_differ(bs, bocc, 2);
    lemma_values_of_unique(bocc, 1);
    assert(bocc[0].0 == "release"@);
    assert(spec_parse(bw) == build_command(bs, bocc));
}

pub open spec fn dockerfile_words(b: Seq<char>, p: Seq<char>, x: Seq<char>, r: Seq<char>, v: Seq<char>, o: Seq<char>) -> Seq<Seq<char>> {
    seq![
        "dockerfile"@,
        "--bin"@,
        b,
        "--profile"@,
        p,
        "--base-image"@,
        x,
        "--runtime-image"@,
        r,
        "--tool-version"@,
        v,
        "--from-git"@,
        "--fast"@,
        "-o"@,
        o,
    ]
}

pub open spec fn dockerfile_occurrences(b: Seq<char>, p: Seq<char>, x: Seq<char>, r: Seq<char>, v: Seq<char>, o: Seq<char>) -> Seq<(Seq<char>, Option<Seq<char>>)> {
    seq![
        ("bin"@, Some(b)),
        ("profile"@, Some(p)),
        ("base-image"@, Some(x)),
        ("runtime-image"@, Some(r)),
        ("tool-version"@, Some(v)),
        ("from-git"@, None),
        ("fast"@, None),
        ("output"@, Some(o)),
    ]
}

#[verifier::rlimit(40)]
proof fn lemma_dockerfile_lex(b: Seq<char>, p: Seq<char>, x: Seq<char>, r: Seq<char>, v: Seq<char>, o: Seq<char>)
    requires
        !looks_like_option(b),
        !looks_like_option(p),
        !looks_like_option(x),
        !looks_like_option(r),
        !looks_like_option(v),
        !looks_like_option(o),
    ensures
        lex(Subcommand::Dockerfile, "dockerfile"@, dockerfile_words(b, p, x, r, v, o), 1) == Ok::<_, ParseErrorView>(
            dockerfile_occurrences(b, p, x, r, v, o),
        ),
{
    lemma_option_names();
    lemma_long_spellings();
    let words = dockerfile_words(b, p, x, r, v, o);
    let occ = dockerfile_occurrences(b, p, x, r, v, o);
    let d = Subcommand::Dockerfile;
    let n = "dockerfile"@;
    assert(words.len() == 15);
    assert(occ.skip(8) =~= Seq::<(Seq<char>, Option<Seq<char>>)>::empty());
    assert(lex(d, n, words, 15) == Ok::<_, ParseErrorView>(occ.skip(8)));
    lemma_lex_short_output_step(d, n, words, 13);
    assert(seq![occ[7]] + occ.skip(8) =~= occ.skip(7));
    assert(lex(d, n, words, 13) == Ok::<_, ParseErrorView>(occ.skip(7)));
    lemma_lex_flag_step(d, n, words, 12, "fast"@);
    assert(seq![occ[6]] + occ.skip(7) =~= occ.skip(6));
    assert(lex(d, n, words, 12) == Ok::<_, ParseErrorView>(occ.skip(6)));
    lemma_lex_flag_step(d, n, words, 11, "from-git"@);
    assert(seq![occ[5]] + occ.skip(6) =~= occ.skip(5));
    assert(lex(d, n, words, 11) == Ok::<_, ParseErrorView>(occ.skip(5)));
    lemma_lex_value_step(d, n, words, 9, "tool-version"@);
    assert(seq![occ[4]] + occ.skip(5) =~= occ.skip(4));
    assert(lex(d, n, words, 9) == Ok::<_, ParseErrorView>(occ.skip(4)));
    lemma_lex_value_step(d, n, words, 7, "runtime-image"@);
    assert(seq![occ[3]] + occ.skip(4) =~= occ.skip(3));
    assert(lex(d, n, words, 7) == Ok::<_, ParseErrorView>(occ.skip(3)));
    lemma_lex_value_step(d, n, words, 5, "base-image"@);
    assert(seq![occ[2]] + occ.skip(3) =~= occ.skip(2));
    assert(lex(d, n, words, 5) == Ok::<_, ParseErrorView>(occ.skip(2)));
    lemma_lex_value_step(d, n, words, 3, "profile"@);
    assert(seq![occ[1]] + occ.skip(2) =~= occ.skip(1));
    assert(lex(d, n, words, 3) == Ok::<_, ParseErrorView>(occ.skip(1)));
    lemma_lex_value_step(d, n, words, 1, "bin"@);
    assert(seq![occ[0]] + occ.skip(1) =~= occ.skip(0));
    assert(lex(d, n, words, 1) == Ok::<_, ParseErrorView>(occ.skip(0)));
    assert(occ.skip(0) =~= occ);
}

/// Occurrences whose names all differ in length repeat no option.
proof fn lemma_prefix_names_differ(sub: Subcommand, occ: Seq<(Seq<char>, Option<Seq<char>>)>, k: int)
    requires
        0 <= k <= occ.len(),
        forall|i: int, j: int| 0 <= i < j < occ.len() ==> occ[i].0.len() != occ[j].0.len(),
    ensures
        first_repeat(sub, occ.take(k)) is None,
    decreases k,
{
    if k > 0 {
        lemma_prefix_names_differ(sub, occ, k - 1);
        assert(occ.take(k).drop_last() =~= occ.take(k - 1));
        assert(!occurs(occ.take(k - 1), occ[k - 1].0)) by {
            if occurs(occ.take(k - 1), occ[k - 1].0) {
                let q = choose|q: int| 0 <= q < occ.take(k - 1).len() && #[trigger] occ.take(k - 1)[q].0 == occ[k - 1].0;
                assert(occ[q].0.len() != occ[k - 1].0.len());
            }
        }
    }
}

proof fn lemma_dockerfile_occurrences(
    b: Seq<char>,
    p: Seq<char>,
    x: Seq<char>,
    r: Seq<char>,
    v: Seq<char>,
    o: Seq<char>,
)
    ensures
        build_command(
            Subcommand::Dockerfile,
            seq![
                ("bin"@, Some(b)),
                ("profile"@, Some(p)),
                ("base-image"@, Some(x)),
                ("runtime-image"@, Some(r)),
                ("tool-version"@, Some(v)),
                ("from-git"@, None),
                ("fast"@, None),
                ("output"@, Some(o)),
            ],
        ) == Ok::<_, ParseErrorView>(
            CommandView::Dockerfile {
                bin: b,
                profile: p,
                from_git: true,
                tool_version: Some(v),
                base_image: x,
                runtime_image: r,
                output: Some(o),
                fast: true,
            },
        ),
{
    lemma_option_names();
    let occ = seq![
        ("bin"@, Some(b)),
        ("profile"@, Some(p)),
        ("base-image"@, Some(x)),
        ("runtime-image"@, Some(r)),
        ("tool-version"@, Some(v)),
        ("from-git"@, None),
        ("fast"@, None),
        ("output"@, Some(o)),
    ];
    lemma_prefix_names_differ(Subcommand::Dockerfile, occ, 8);
    assert(occ.take(8) =~= occ);
    lemma_values_of_unique(occ, 0);
    lemma_values_of_unique(occ, 1);
    lemma_values_of_unique(occ, 2);
    lemma_values_of_unique(occ, 3);
    lemma_values_of_unique(occ, 4);
    lemma_values_of_unique(occ, 7);
    assert(occ[5].0 == "from-git"@);
    assert(occ[6].0 == "fast"@);
}

/// Where an option's name occurs once among occurrences whose names all
/// differ in length, its values are that occurrence's value alone.
proof fn lemma_values_of_unique(occ: Seq<(Seq<char>, Option<Seq<char>>)>, k: int)
    requires
        0 <= k < occ.len(),
        occ[k].1 is Some,
        forall|i: int, j: int| 0 <= i < j < occ.len() ==> occ[i].0.len() != occ[j].0.len(),
    ensures
        values_of(occ, occ[k].0) == seq![occ[k].1.unwrap()],
    decreases occ.len(),
{
    let name = occ[k].0;
    if k == occ.len() - 1 {
        lemma_values_of_absent(occ.drop_last(), name);
    } else {
        lemma_values_of_unique(occ.drop_last(), k);
        assert(occ.last().0.len() != name.len());
    }
}

proof fn lemma_values_of_absent(occ: Seq<(Seq<char>, Option<Seq<char>>)>, name: Seq<char>)
    requires
        forall|i: int| 0 <= i < occ.len() ==> (#[trigger] occ[i]).0.len() != name.len(),
    ensures
        values_of(occ, name) == Seq::<Seq<char>>::empty(),
    decreases occ.len(),
{
    if occ.len() > 0 {
        lemma_values_of_absent(occ.drop_last(), name);
    }
}

// ---------------------------------------------------------------------------
// The parser

fn subcommand_of(w: &str) -> (sub: Option<Subcommand>)
    ensures
        sub == subcommand_named(w@),
{
    if str_equal(w, "deps") {
        Some(Subcommand::Deps)
    } else if str_equal(w, "build") {
        Some(Subcommand::Build)
    } else if str_equal(w, "members") || str_equal(w, "resolve") {
        Some(Subcommand::Members)
    } else if str_equal(w, "dockerfile") {
        Some(Subcommand::Dockerfile)
    } else {
        None
    }
}

fn kind_of(sub: Subcommand, name: &str) -> (kind: Option<OptionKind>)
    ensures
        kind == option_kind(sub, name@),
{
    match sub {
        Subcommand::Deps => if str_equal(name, "bin") {
            Some(OptionKind::Multiple)
        } else if str_equal(name, "output") {
            Some(OptionKind::Single)
        } else if str_equal(name, "fast") {
            Some(OptionKind::Flag)
        } else {
            None
        },
        Subcommand::Build => if str_equal(name, "release") {
            Some(OptionKind::Flag)
        } else if str_equal(name, "bin") {
            Some(OptionKind::Multiple)
        } else {
            None
        },
        Subcommand::Members => if str_equal(name, "bin") {
            Some(OptionKind::Multiple)
        } else {
            None
        },
        Subcommand::Dockerfile => if str_equal(name, "bin") || str_equal(name, "profile") || str_equal(
            name,
            "tool-version",
        ) || str_equal(name, "base-image") || str_equal(name, "runtime-image") || str_equal(name, "output") {
            Some(OptionKind::Single)
        } else if str_equal(name, "from-git") || str_equal(name, "fast") {
            Some(OptionKind::Flag)
        } else {
            None
        },
    }
}

fn reads_as_option(w: &str) -> (yes: bool)
    ensures
        yes == looks_like_option(w@),
{
    w.unicode_len() >= 2 && w.get_char(0) == '-'
}

fn help_word(w: &str) -> (yes: bool)
    ensures
        yes == is_help(w@),
{
    str_equal(w, "-h") || str_equal(w, "--help")
}

pub open spec fn extend_with(acc: Seq<(Seq<char>, Option<Seq<char>>)>, r: Result<Seq<(Seq<char>, Option<Seq<char>>)>, ParseErrorView>) -> Result<
    Seq<(Seq<char>, Option<Seq<char>>)>,
    ParseErrorView,
> {
    match r {
        Ok(s) => Ok(acc + s),
        Err(e) => Err(e),
    }
}

/// Name and inline value of a word `--name` or `--name=value`.
fn split_long_word(w: &str) -> (parts: (String, Option<String>))
    requires
        seq_starts_with(w@, "--"@),
    ensures
        parts.0@ == split_long(w@).0,
        opt_view(parts.1) == split_long(w@).1,
{
    proof {
        reveal_strlit("--");
    }
    let n = w.unicode_len();
    let body = substring(w, 2, n);
    assert(body@ == w@.skip(2));
    match find_char(body.as_str(), '=') {
        Some(e) => {
            let name = substring(body.as_str(), 0, e);
            let value = substring(body.as_str(), e + 1, body.unicode_len());
            assert(name@ =~= body@.take(e as int));
            assert(value@ =~= body@.skip(e + 1));
            (name, Some(value))
        },
        None => (body, None),
    }
}

/// Inline value of a short option word.
fn short_inline_value(w: &str) -> (v: Option<String>)
    requires
        w@.len() >= 2,
    ensures
        opt_view(v) == short_inline(w@),
{
    let n = w.unicode_len();
    if n == 2 {
        assert(w@.skip(2).len() == 0);
        None
    } else if w.get_char(2) == '=' {
        let v = substring(w, 3, n);
        assert(v@ =~= w@.skip(2).skip(1));
        Some(v)
    } else {
        let v = substring(w, 2, n);
        assert(v@ =~= w@.skip(2));
        Some(v)
    }
}

/// The option occurrences of the words after the subcommand (at position 0).
fn lex_options(sub: Subcommand, words: &Vec<String>) -> (res: Result<Vec<Occurrence>, ParseError>)
    requires
        words.len() >= 1,
    ensures
        match res {
            Ok(occ) => lex(sub, words@[0]@, views(words@), 1) == Ok::<_, ParseErrorView>(occ_views(occ@)),
            Err(e) => lex(sub, words@[0]@, views(words@), 1) == Err::<Seq<(Seq<char>, Option<Seq<char>>)>, _>(e@),
        },
{
    let ghost ws = views(words@);
    let ghost sub_name = words@[0]@;
    let mut occ: Vec<Occurrence> = Vec::new();
    let mut i: usize = 1;
    assert(occ_views(occ@) + seq![] =~= seq![]);
    while i < words.len()
        invariant
            1 <= i <= words.len(),
            ws == views(words@),
            sub_name == words@[0]@,
            lex(sub, sub_name, ws, 1) == extend_with(occ_views(occ@), lex(sub, sub_name, ws, i as int)),
        decreases words.len() - i,
    {
        let w = words[i].as_str();
        assert(ws[i as int] == w@);
        let ghost rest = lex(sub, sub_name, ws, i as int);
        if help_word(w) {
            return Err(ParseError::Help(Some(words[0].clone())));
        }
        if str_equal(w, "--") {
            if i + 1 < words.len() {
                return Err(ParseError::UnexpectedArgument(words[i + 1].clone()));
            }
            assert(occ_views(occ@) + seq![] =~= occ_views(occ@));
            return Ok(occ);
        }
        if !reads_as_option(w) {
            return Err(ParseError::UnexpectedArgument(words[i].clone()));
        }
        let long = starts_with(w, "--");
        let (name, inline) = if long {
            split_long_word(w)
        } else {
            if w.get_char(1) != 'o' || !(matches!(sub, Subcommand::Deps) || matches!(sub, Subcommand::Dockerfile)) {
                return Err(ParseError::UnknownArgument(words[i].clone()));
            }
            ("output".to_owned(), short_inline_value(w))
        };
        assert(name@ == (if long { split_long(w@).0 } else { short_option(sub, w@[1]).unwrap() }));
        assert(opt_view(inline) == (if long { split_long(w@).1 } else { short_inline(w@) }));
        let kind = kind_of(sub, name.as_str());
        let ghost before = occ_views(occ@);
        match kind {
            None => {
                return Err(ParseError::UnknownArgument(words[i].clone()));
            },
            Some(OptionKind::Flag) => {
                if inline.is_some() {
                    return Err(ParseError::UnexpectedValue(name));
                }
                occ.push(Occurrence { name, value: None });
                i = i + 1;
            },
            Some(_) => {
                match inline {
                    Some(v) => {
                        occ.push(Occurrence { name, value: Some(v) });
                        i = i + 1;
                    },
                    None => {
                        if i + 1 < words.len() && !reads_as_option(words[i + 1].as_str()) {
                            assert(ws[i + 1] == words@[i + 1]@);
                            occ.push(Occurrence { name, value: Some(words[i + 1].clone()) });
                            i = i + 2;
                        } else {
                            return Err(ParseError::MissingValue(name));
                        }
                    },
                }
            },
        }
        proof {
            let o = occ_views(occ@).last();
            assert(occ_views(occ@) =~= before.push(o));
            assert(rest == prepend(o, lex(sub, sub_name, ws, i as int)));
            match lex(sub, sub_name, ws, i as int) {
                Ok(t) => {
                    assert(before + (seq![o] + t) =~= occ_views(occ@) + t);
                },
                Err(_) => {},
            }
        }
    }
    assert(occ_views(occ@) + seq![] =~= occ_views(occ@));
    Ok(occ)
}


fn values_named(occ: &Vec<Occurrence>, name: &str) -> (vs: Vec<String>)
    ensures
        views(vs@) == values_of(occ_views(occ@), name@),
{
    let mut vs: Vec<String> = Vec::new();
    let mut k: usize = 0;
    while k < occ.len()
        invariant
            k <= occ.len(),
            views(vs@) == values_of(occ_views(occ@).take(k as int), name@),
        decreases occ.len() - k,
    {
        let ghost prev = occ_views(occ@).take(k as int);
        let ghost next = occ_views(occ@).take(k + 1);
        assert(next.drop_last() =~= prev);
        assert(next.last() == occ@[k as int]@);
        let ghost before = views(vs@);
        if str_equal(occ[k].name.as_str(), name) {
            match &occ[k].value {
                Some(v) => {
                    vs.push(v.clone());
                    assert(views(vs@) =~= before.push(v@));
                },
                None => {},
            }
        }
        k += 1;
    }
    assert(occ_views(occ@).take(occ.len() as int) =~= occ_views(occ@));
    vs
}

fn occurs_named(occ: &Vec<Occurrence>, upto: usize, name: &str) -> (found: bool)
    requires
        upto <= occ.len(),
    ensures
        found == occurs(occ_views(occ@).take(upto as int), name@),
{
    let ghost prefix = occ_views(occ@).take(upto as int);
    let mut k: usize = 0;
    while k < upto
        invariant
            k <= upto <= occ.len(),
            prefix == occ_views(occ@).take(upto as int),
            forall|j: int| 0 <= j < k ==> #[trigger] prefix[j].0 != name@,
        decreases upto - k,
    {
        assert(prefix[k as int] == occ@[k as int]@);
        if str_equal(occ[k].name.as_str(), name) {
            assert(prefix[k as int].0 == name@);
            return true;
        }
        k += 1;
    }
    false
}

proof fn lemma_first_repeat_prefix(sub: Subcommand, s: Seq<(Seq<char>, Option<Seq<char>>)>, n: int)
    requires
        0 <= n <= s.len(),
        first_repeat(sub, s.take(n)) is Some,
    ensures
        first_repeat(sub, s) == first_repeat(sub, s.take(n)),
    decreases s.len(),
{
    if n < s.len() {
        assert(s.drop_last().take(n) =~= s.take(n));
        lemma_first_repeat_prefix(sub, s.drop_last(), n);
    } else {
        assert(s.take(n) =~= s);
    }
}

fn find_repeat(sub: Subcommand, occ: &Vec<Occurrence>) -> (rep: Option<String>)
    ensures
        opt_view(rep) == first_repeat(sub, occ_views(occ@)),
{
    let ghost ov = occ_views(occ@);
    let mut k: usize = 0;
    while k < occ.len()
        invariant
            k <= occ.len(),
            ov == occ_views(occ@),
            first_repeat(sub, ov.take(k as int)) is None,
        decreases occ.len() - k,
    {
        let ghost prev = ov.take(k as int);
        let ghost next = ov.take(k + 1);
        assert(next.drop_last() =~= prev);
        assert(next.last() == occ@[k as int]@);
        let kind = kind_of(sub, occ[k].name.as_str());
        let single = match kind {
            Some(OptionKind::Multiple) => false,
            _ => true,
        };
        if single && occurs_named(occ, k, occ[k].name.as_str()) {
            proof {
                lemma_first_repeat_prefix(sub, ov, k + 1);
            }
            return Some(occ[k].name.clone());
        }
        k += 1;
    }
    assert(ov.take(occ.len() as int) =~= ov);
    None
}

fn first_or(vs: &Vec<String>, default: &str) -> (v: String)
    ensures
        v@ == (if vs@.len() == 0 { default@ } else { vs@[0]@ }),
{
    if vs.len() == 0 {
        default.to_owned()
    } else {
        vs[0].clone()
    }
}

fn first_of(vs: &Vec<String>) -> (v: Option<String>)
    ensures
        opt_view(v) == (if vs@.len() == 0 { None } else { Some(vs@[0]@) }),
{
    if vs.len() == 0 {
        None
    } else {
        Some(vs[0].clone())
    }
}

fn build(sub: Subcommand, occ: &Vec<Occurrence>) -> (res: Result<Command, ParseError>)
    ensures
        match res {
            Ok(c) => build_command(sub, occ_views(occ@)) == Ok::<_, ParseErrorView>(c@),
            Err(e) => build_command(sub, occ_views(occ@)) == Err::<CommandView, _>(e@),
        },
{
    let ghost ov = occ_views(occ@);
    if let Some(n) = find_repeat(sub, occ) {
        return Err(ParseError::Repeated(n));
    }
    let bin = values_named(occ, "bin");
    match sub {
        Subcommand::Deps => {
            let output = first_of(&values_named(occ, "output"));
            let fast = occurs_named(occ, occ.len(), "fast");
            assert(ov.take(occ.len() as int) =~= ov);
            Ok(Command::Deps { bin, output, fast })
        },
        Subcommand::Build => {
            let release = occurs_named(occ, occ.len(), "release");
            assert(ov.take(occ.len() as int) =~= ov);
            Ok(Command::Build { release, bin })
        },
        Subcommand::Members => {
            if bin.len() == 0 {
                return Err(ParseError::MissingRequired("bin".to_owned()));
            }
            Ok(Command::Members { bin })
        },
        Subcommand::Dockerfile => {
            if bin.len() == 0 {
                return Err(ParseError::MissingRequired("bin".to_owned()));
            }
            let the_bin = bin[0].clone();
            let profile = first_or(&values_named(occ, "profile"), "release");
            let from_git = occurs_named(occ, occ.len(), "from-git");
            let tool_version = first_of(&values_named(occ, "tool-version"));
            let base_image = first_or(&values_named(occ, "base-image"), "rust:1.94-bookworm");
            let runtime_image = first_or(&values_named(occ, "runtime-image"), "debian:bookworm-slim");
            let output = first_of(&values_named(occ, "output"));
            let fast = occurs_named(occ, occ.len(), "fast");
            assert(ov.take(occ.len() as int) =~= ov);
            Ok(
                Command::Dockerfile {
                    bin: the_bin,
                    profile,
                    from_git,
                    tool_version,
                    base_image,
                    runtime_image,
                    output,
                    fast,
                },
            )
        },
    }
}

/// Parses a command line, given as the words after the program name.
pub fn parse(args: &Vec<String>) -> (res: Result<Cli, ParseError>)
    ensures
        match res {
            Ok(cli) => spec_parse(views(args@)) == Ok::<_, ParseErrorView>(cli.command@),
            Err(e) => spec_parse(views(args@)) == Err::<CommandView, _>(e@),
        },
{
    if args.len() == 0 {
        return Err(ParseError::MissingSubcommand);
    }
    let w = args[0].as_str();
    assert(views(args@)[0] == w@);
    if help_word(w) || str_equal(w, "help") {
        return Err(ParseError::Help(None));
    }
    if str_equal(w, "-V") || str_equal(w, "--version") {
        return Err(ParseError::Version);
    }
    if reads_as_option(w) {
        return Err(ParseError::UnknownArgument(args[0].clone()));
    }
    match subcommand_of(w) {
        None => Err(ParseError::UnknownSubcommand(args[0].clone())),
        Some(sub) => match lex_options(sub, args) {
            Err(e) => Err(e),
            Ok(occ) => match build(sub, &occ) {
                Ok(command) => Ok(Cli { command }),
                Err(e) => Err(e),
            },
        },
    }
}

} // verus!
