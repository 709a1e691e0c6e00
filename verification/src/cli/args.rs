//! Parsing arguments.

use crate::numbers::{number_in, parse_u64};
use crate::text::{begins, chars_of, push_str, same_text, slice_of, starts_with, string_of, texts};
use vstd::prelude::*;

verus! {

#[derive(Debug, Clone, Copy, PartialEq, Eq, Structural)]
pub enum Cmd {
    Search,
    Index,
    Watch,
    Mcp,
    Status,
    Forget,
}

#[derive(Debug, Clone, Copy, PartialEq, Eq, Structural)]
pub enum ColorChoice {
    Auto,
    Always,
    Never,
}

/// What is switched on.
#[derive(Debug, Clone, Copy, PartialEq, Eq, Structural)]
pub struct Flags {
    pub case_insensitive: bool,
    pub fixed: bool,
    pub multiline: bool,
    pub word: bool,
    pub invert: bool,
    pub only_matching: bool,
    pub smart_case: bool,
    pub files_list: bool,
    pub type_list: bool,
    pub hidden: bool,
    pub no_ignore: bool,
    pub files_only: bool,
    pub counts: bool,
    pub json: bool,
    pub stats: bool,
    pub explain: bool,
    pub no_index: bool,
    pub no_auto_index: bool,
    pub no_heading: bool,
}

pub open spec fn no_flags() -> Flags {
    Flags {
        case_insensitive: false,
        fixed: false,
        multiline: false,
        word: false,
        invert: false,
        only_matching: false,
        smart_case: false,
        files_list: false,
        type_list: false,
        hidden: false,
        no_ignore: false,
        files_only: false,
        counts: false,
        json: false,
        stats: false,
        explain: false,
        no_index: false,
        no_auto_index: false,
        no_heading: false,
    }
}

/// An option without a value.
#[derive(Debug, Clone, Copy, PartialEq, Eq, Structural)]
pub enum Switch {
    CaseInsensitive,
    Fixed,
    Multiline,
    Word,
    Invert,
    OnlyMatching,
    SmartCase,
    FilesList,
    TypeList,
    Hidden,
    NoIgnore,
    Unrestricted,
    FilesOnly,
    Counts,
    Json,
    Stats,
    Explain,
    NoIndex,
    NoAutoIndex,
    NoHeading,
}

/// An option with a value.
#[derive(Debug, Clone, Copy, PartialEq, Eq, Structural)]
pub enum Setting {
    Replace,
    Pattern,
    MaxCount,
    After,
    Before,
    Context,
    Glob,
    Type,
    TypeNot,
    Color,
}

/// What an argument is.
#[derive(Debug, Clone, Copy, PartialEq, Eq, Structural)]
pub enum Arg {
    Help,
    Version,
    Flag(Switch),
    /// The value is the next argument.
    Takes(Setting),
    /// grep-style attached form: the value follows two characters.
    Attached(Setting),
    /// End of options.
    End,
    /// Searching binary files.
    Binary,
    Unknown,
    Plain,
}

/// What an argument is.
pub open spec fn arg_of(a: Seq<char>) -> Arg {
    if a == "-h"@ || a == "--help"@ {
        Arg::Help
    } else if a == "-V"@ || a == "--version"@ {
        Arg::Version
    } else if a == "-i"@ {
        Arg::Flag(Switch::CaseInsensitive)
    } else if a == "-F"@ {
        Arg::Flag(Switch::Fixed)
    } else if a == "-U"@ || a == "--multiline"@ {
        Arg::Flag(Switch::Multiline)
    } else if a == "-r"@ || a == "--replace"@ {
        Arg::Takes(Setting::Replace)
    } else if a == "--files"@ {
        Arg::Flag(Switch::FilesList)
    } else if a == "--type-list"@ {
        Arg::Flag(Switch::TypeList)
    } else if a == "--hidden"@ {
        Arg::Flag(Switch::Hidden)
    } else if a == "--no-ignore"@ || a == "-u"@ {
        Arg::Flag(Switch::NoIgnore)
    } else if a == "-uu"@ {
        Arg::Flag(Switch::Unrestricted)
    } else if a == "-uuu"@ {
        Arg::Binary
    } else if a == "-w"@ || a == "--word-regexp"@ {
        Arg::Flag(Switch::Word)
    } else if a == "-v"@ || a == "--invert-match"@ {
        Arg::Flag(Switch::Invert)
    } else if a == "-o"@ || a == "--only-matching"@ {
        Arg::Flag(Switch::OnlyMatching)
    } else if a == "-S"@ || a == "--smart-case"@ {
        Arg::Flag(Switch::SmartCase)
    } else if a == "-e"@ {
        Arg::Takes(Setting::Pattern)
    } else if a == "--"@ {
        Arg::End
    } else if a == "-l"@ {
        Arg::Flag(Switch::FilesOnly)
    } else if a == "-c"@ {
        Arg::Flag(Switch::Counts)
    } else if a == "-m"@ {
        Arg::Takes(Setting::MaxCount)
    } else {
        more_of(a)
    }
}

/// What an argument is, of the other ones.
pub open spec fn more_of(a: Seq<char>) -> Arg {
    if a == "-A"@ {
        Arg::Takes(Setting::After)
    } else if a == "-B"@ {
        Arg::Takes(Setting::Before)
    } else if a == "-C"@ {
        Arg::Takes(Setting::Context)
    } else if begins(a, "-A"@) {
        Arg::Attached(Setting::After)
    } else if begins(a, "-B"@) {
        Arg::Attached(Setting::Before)
    } else if begins(a, "-C"@) {
        Arg::Attached(Setting::Context)
    } else if a == "-g"@ {
        Arg::Takes(Setting::Glob)
    } else if a == "-t"@ {
        Arg::Takes(Setting::Type)
    } else if a == "-T"@ {
        Arg::Takes(Setting::TypeNot)
    } else if a == "--json"@ {
        Arg::Flag(Switch::Json)
    } else if a == "--stats"@ {
        Arg::Flag(Switch::Stats)
    } else if a == "--explain"@ {
        Arg::Flag(Switch::Explain)
    } else if a == "--no-index"@ {
        Arg::Flag(Switch::NoIndex)
    } else if a == "--no-auto-index"@ {
        Arg::Flag(Switch::NoAutoIndex)
    } else if a == "--no-heading"@ {
        Arg::Flag(Switch::NoHeading)
    } else if a == "--color"@ {
        Arg::Takes(Setting::Color)
    } else if a.len() > 1 && a[0] == '-' {
        Arg::Unknown
    } else {
        Arg::Plain
    }
}

fn kind_of(a: &str) -> (r: Arg)
    ensures
        r == arg_of(a@),
{
    if same_text(a, "-h") || same_text(a, "--help") {
        Arg::Help
    } else if same_text(a, "-V") || same_text(a, "--version") {
        Arg::Version
    } else if same_text(a, "-i") {
        Arg::Flag(Switch::CaseInsensitive)
    } else if same_text(a, "-F") {
        Arg::Flag(Switch::Fixed)
    } else if same_text(a, "-U") || same_text(a, "--multiline") {
        Arg::Flag(Switch::Multiline)
    } else if same_text(a, "-r") || same_text(a, "--replace") {
        Arg::Takes(Setting::Replace)
    } else if same_text(a, "--files") {
        Arg::Flag(Switch::FilesList)
    } else if same_text(a, "--type-list") {
        Arg::Flag(Switch::TypeList)
    } else if same_text(a, "--hidden") {
        Arg::Flag(Switch::Hidden)
    } else if same_text(a, "--no-ignore") || same_text(a, "-u") {
        Arg::Flag(Switch::NoIgnore)
    } else if same_text(a, "-uu") {
        Arg::Flag(Switch::Unrestricted)
    } else if same_text(a, "-uuu") {
        Arg::Binary
    } else if same_text(a, "-w") || same_text(a, "--word-regexp") {
        Arg::Flag(Switch::Word)
    } else if same_text(a, "-v") || same_text(a, "--invert-match") {
        Arg::Flag(Switch::Invert)
    } else if same_text(a, "-o") || same_text(a, "--only-matching") {
        Arg::Flag(Switch::OnlyMatching)
    } else if same_text(a, "-S") || same_text(a, "--smart-case") {
        Arg::Flag(Switch::SmartCase)
    } else if same_text(a, "-e") {
        Arg::Takes(Setting::Pattern)
    } else if same_text(a, "--") {
        Arg::End
    } else if same_text(a, "-l") {
        Arg::Flag(Switch::FilesOnly)
    } else if same_text(a, "-c") {
        Arg::Flag(Switch::Counts)
    } else if same_text(a, "-m") {
        Arg::Takes(Setting::MaxCount)
    } else {
        kind_of_more(a)
    }
}

fn kind_of_more(a: &str) -> (r: Arg)
    ensures
        r == more_of(a@),
{
    let s = chars_of(a);
    if same_text(a, "-A") {
        Arg::Takes(Setting::After)
    } else if same_text(a, "-B") {
        Arg::Takes(Setting::Before)
    } else if same_text(a, "-C") {
        Arg::Takes(Setting::Context)
    } else if starts_with(&s, &chars_of("-A")) {
        Arg::Attached(Setting::After)
    } else if starts_with(&s, &chars_of("-B")) {
        Arg::Attached(Setting::Before)
    } else if starts_with(&s, &chars_of("-C")) {
        Arg::Attached(Setting::Context)
    } else if same_text(a, "-g") {
        Arg::Takes(Setting::Glob)
    } else if same_text(a, "-t") {
        Arg::Takes(Setting::Type)
    } else if same_text(a, "-T") {
        Arg::Takes(Setting::TypeNot)
    } else if same_text(a, "--json") {
        Arg::Flag(Switch::Json)
    } else if same_text(a, "--stats") {
        Arg::Flag(Switch::Stats)
    } else if same_text(a, "--explain") {
        Arg::Flag(Switch::Explain)
    } else if same_text(a, "--no-index") {
        Arg::Flag(Switch::NoIndex)
    } else if same_text(a, "--no-auto-index") {
        Arg::Flag(Switch::NoAutoIndex)
    } else if same_text(a, "--no-heading") {
        Arg::Flag(Switch::NoHeading)
    } else if same_text(a, "--color") {
        Arg::Takes(Setting::Color)
    } else if s.len() > 1 && s[0] == '-' {
        Arg::Unknown
    } else {
        Arg::Plain
    }
}

/// The flags with one more switched on.
pub open spec fn switched(f: Flags, s: Switch) -> Flags {
    match s {
        Switch::CaseInsensitive => Flags { case_insensitive: true, ..f },
        Switch::Fixed => Flags { fixed: true, ..f },
        Switch::Multiline => Flags { multiline: true, ..f },
        Switch::Word => Flags { word: true, ..f },
        Switch::Invert => Flags { invert: true, ..f },
        Switch::OnlyMatching => Flags { only_matching: true, ..f },
        Switch::SmartCase => Flags { smart_case: true, ..f },
        Switch::FilesList => Flags { files_list: true, ..f },
        Switch::TypeList => Flags { type_list: true, ..f },
        Switch::Hidden => Flags { hidden: true, ..f },
        Switch::NoIgnore => Flags { no_ignore: true, ..f },
        Switch::Unrestricted => Flags { no_ignore: true, hidden: true, ..f },
        Switch::FilesOnly => Flags { files_only: true, ..f },
        Switch::Counts => Flags { counts: true, ..f },
        Switch::Json => Flags { json: true, ..f },
        Switch::Stats => Flags { stats: true, ..f },
        Switch::Explain => Flags { explain: true, ..f },
        Switch::NoIndex => Flags { no_index: true, ..f },
        Switch::NoAutoIndex => Flags { no_auto_index: true, ..f },
        Switch::NoHeading => Flags { no_heading: true, ..f },
    }
}

fn switch_on(f: Flags, s: Switch) -> (r: Flags)
    ensures
        r == switched(f, s),
{
    match s {
        Switch::CaseInsensitive => Flags { case_insensitive: true, ..f },
        Switch::Fixed => Flags { fixed: true, ..f },
        Switch::Multiline => Flags { multiline: true, ..f },
        Switch::Word => Flags { word: true, ..f },
        Switch::Invert => Flags { invert: true, ..f },
        Switch::OnlyMatching => Flags { only_matching: true, ..f },
        Switch::SmartCase => Flags { smart_case: true, ..f },
        Switch::FilesList => Flags { files_list: true, ..f },
        Switch::TypeList => Flags { type_list: true, ..f },
        Switch::Hidden => Flags { hidden: true, ..f },
        Switch::NoIgnore => Flags { no_ignore: true, ..f },
        Switch::Unrestricted => Flags { no_ignore: true, hidden: true, ..f },
        Switch::FilesOnly => Flags { files_only: true, ..f },
        Switch::Counts => Flags { counts: true, ..f },
        Switch::Json => Flags { json: true, ..f },
        Switch::Stats => Flags { stats: true, ..f },
        Switch::Explain => Flags { explain: true, ..f },
        Switch::NoIndex => Flags { no_index: true, ..f },
        Switch::NoAutoIndex => Flags { no_auto_index: true, ..f },
        Switch::NoHeading => Flags { no_heading: true, ..f },
    }
}

/// What options ask for.
#[derive(Debug)]
pub struct Choices {
    pub flags: Flags,
    pub color: ColorChoice,
    pub replace: Option<String>,
    pub max_count: Option<u64>,
    pub before: usize,
    pub after: usize,
    pub globs: Vec<String>,
    pub types_select: Vec<String>,
    pub types_negate: Vec<String>,
    /// Patterns given by option.
    pub e_patterns: Vec<String>,
}

/// The mathematical form of `Choices`.
#[verifier::ext_equal]
pub struct Chosen {
    pub flags: Flags,
    pub color: ColorChoice,
    pub replace: Option<Seq<char>>,
    pub max_count: Option<u64>,
    pub before: usize,
    pub after: usize,
    pub globs: Seq<Seq<char>>,
    pub types_select: Seq<Seq<char>>,
    pub types_negate: Seq<Seq<char>>,
    pub e_patterns: Seq<Seq<char>>,
}

pub open spec fn text_of(s: Option<String>) -> Option<Seq<char>> {
    match s {
        Some(s) => Some(s@),
        None => None,
    }
}

impl View for Choices {
    type V = Chosen;

    open spec fn view(&self) -> Chosen {
        Chosen {
            flags: self.flags,
            color: self.color,
            replace: text_of(self.replace),
            max_count: self.max_count,
            before: self.before,
            after: self.after,
            globs: texts(self.globs@),
            types_select: texts(self.types_select@),
            types_negate: texts(self.types_negate@),
            e_patterns: texts(self.e_patterns@),
        }
    }
}

/// Nothing chosen.
pub open spec fn nothing_chosen() -> Chosen {
    Chosen {
        flags: no_flags(),
        color: ColorChoice::Auto,
        replace: None,
        max_count: None,
        before: 0,
        after: 0,
        globs: Seq::empty(),
        types_select: Seq::empty(),
        types_negate: Seq::empty(),
        e_patterns: Seq::empty(),
    }
}

/// What is said when the value of an option is missing.
pub open spec fn missing_value(name: Seq<char>, s: Setting) -> Seq<char> {
    match s {
        Setting::Replace => "-r needs replacement text"@,
        Setting::Pattern => "-e needs a pattern"@,
        Setting::MaxCount => "-m needs a number"@,
        Setting::After | Setting::Before | Setting::Context => name + " needs a number"@,
        Setting::Glob => "-g needs a glob"@,
        Setting::Type => "-t needs a type name"@,
        Setting::TypeNot => "-T needs a type name"@,
        Setting::Color => "--color needs always|never|auto"@,
    }
}

pub open spec fn bad_value(name: Seq<char>, value: Seq<char>) -> Seq<char> {
    "bad "@ + name + " value: "@ + value
}

/// The choices with the value of an option, or what is wrong with it.
pub open spec fn with_value(c: Chosen, name: Seq<char>, s: Setting, value: Seq<char>) -> Result<
    Chosen,
    Seq<char>,
> {
    match s {
        Setting::Replace => Ok(Chosen { replace: Some(value), ..c }),
        Setting::Pattern => Ok(Chosen { e_patterns: c.e_patterns.push(value), ..c }),
        Setting::MaxCount => match number_in(value, u64::MAX as nat) {
            Some(n) => Ok(Chosen { max_count: Some(n as u64), ..c }),
            None => Err(bad_value("-m"@, value)),
        },
        Setting::After | Setting::Before | Setting::Context => match number_in(
            value,
            usize::MAX as nat,
        ) {
            Some(n) => Ok(
                Chosen {
                    before: if s == Setting::After {
                        c.before
                    } else {
                        n as usize
                    },
                    after: if s == Setting::Before {
                        c.after
                    } else {
                        n as usize
                    },
                    ..c
                },
            ),
            None => Err(bad_value(name, value)),
        },
        Setting::Glob => Ok(Chosen { globs: c.globs.push(value), ..c }),
        Setting::Type => Ok(Chosen { types_select: c.types_select.push(value), ..c }),
        Setting::TypeNot => Ok(Chosen { types_negate: c.types_negate.push(value), ..c }),
        Setting::Color => if value == "always"@ {
            Ok(Chosen { color: ColorChoice::Always, ..c })
        } else if value == "never"@ {
            Ok(Chosen { color: ColorChoice::Never, ..c })
        } else if value == "auto"@ {
            Ok(Chosen { color: ColorChoice::Auto, ..c })
        } else {
            Err(bad_value("--color"@, value))
        },
    }
}

fn bad_value_text(name: &str, value: &str) -> (r: String)
    ensures
        r@ == bad_value(name@, value@),
{
    let mut out = chars_of("bad ");
    push_str(&mut out, name);
    push_str(&mut out, " value: ");
    push_str(&mut out, value);
    string_of(&out)
}

fn missing_value_text(name: &str, s: Setting) -> (r: String)
    ensures
        r@ == missing_value(name@, s),
{
    let mut out: Vec<char> = Vec::new();
    match s {
        Setting::Replace => push_str(&mut out, "-r needs replacement text"),
        Setting::Pattern => push_str(&mut out, "-e needs a pattern"),
        Setting::MaxCount => push_str(&mut out, "-m needs a number"),
        Setting::After | Setting::Before | Setting::Context => {
            push_str(&mut out, name);
            push_str(&mut out, " needs a number");
        },
        Setting::Glob => push_str(&mut out, "-g needs a glob"),
        Setting::Type => push_str(&mut out, "-t needs a type name"),
        Setting::TypeNot => push_str(&mut out, "-T needs a type name"),
        Setting::Color => push_str(&mut out, "--color needs always|never|auto"),
    }
    assert(out@ =~= missing_value(name@, s));
    string_of(&out)
}

/// A number of lines.
fn parse_lines(value: &str) -> (r: Option<usize>)
    ensures
        match r {
            Some(n) => number_in(value@, usize::MAX as nat) == Some(n as nat),
            None => number_in(value@, usize::MAX as nat) is None,
        },
{
    let s = chars_of(value);
    match parse_u64(&s) {
        Some(n) => if n <= usize::MAX as u64 {
            Some(n as usize)
        } else {
            None
        },
        None => None,
    }
}

proof fn lemma_texts_push(v: Seq<String>, s: String)
    ensures
        texts(v.push(s)) == texts(v).push(s@),
{
    assert(texts(v.push(s)) =~= texts(v).push(s@));
}

fn set_value(c: &mut Choices, name: &str, s: Setting, value: String) -> (r: Result<(), String>)
    ensures
        match r {
            Ok(()) => with_value(old(c)@, name@, s, value@) == Ok::<Chosen, Seq<char>>(final(c)@),
            Err(e) => with_value(old(c)@, name@, s, value@) == Err::<Chosen, Seq<char>>(e@),
        },
{
    let ghost before = c@;
    match s {
        Setting::Replace => {
            c.replace = Some(value);
        },
        Setting::Pattern => {
            proof {
                lemma_texts_push(c.e_patterns@, value);
            }
            c.e_patterns.push(value);
        },
        Setting::MaxCount => {
            let digits = chars_of(value.as_str());
            match parse_u64(&digits) {
                Some(n) => {
                    c.max_count = Some(n);
                },
                None => {
                    return Err(bad_value_text("-m", value.as_str()));
                },
            }
        },
        Setting::After | Setting::Before | Setting::Context => {
            let n: usize = match parse_lines(value.as_str()) {
                Some(n) => n,
                None => {
                    return Err(bad_value_text(name, value.as_str()));
                },
            };
            match s {
                Setting::After => {
                    c.after = n;
                },
                Setting::Before => {
                    c.before = n;
                },
                _ => {
                    c.before = n;
                    c.after = n;
                },
            }
        },
        Setting::Glob => {
            proof {
                lemma_texts_push(c.globs@, value);
            }
            c.globs.push(value);
        },
        Setting::Type => {
            proof {
                lemma_texts_push(c.types_select@, value);
            }
            c.types_select.push(value);
        },
        Setting::TypeNot => {
            proof {
                lemma_texts_push(c.types_negate@, value);
            }
            c.types_negate.push(value);
        },
        Setting::Color => {
            if same_text(value.as_str(), "always") {
                c.color = ColorChoice::Always;
            } else if same_text(value.as_str(), "never") {
                c.color = ColorChoice::Never;
            } else if same_text(value.as_str(), "auto") {
                c.color = ColorChoice::Auto;
            } else {
                return Err(bad_value_text("--color", value.as_str()));
            }
        },
    }
    Ok(())
}

/// Where the parsing of arguments stands.
#[verifier::ext_equal]
pub struct Parsing {
    pub chosen: Chosen,
    pub positionals: Seq<Seq<char>>,
    /// A subcommand word is only recognized in the very first argument slot.
    /// Once any option precedes it, a leading positional is a pattern, so
    /// `grix -F index` searches for "index" instead of indexing.
    pub no_subcommand: bool,
}

/// How the arguments were read.
pub enum Reading {
    Help,
    Version,
    Fault(Seq<char>),
    Done(Parsing),
}

/// An option was read.
pub open spec fn after_option(p: Parsing, chosen: Chosen) -> Parsing {
    Parsing { chosen, no_subcommand: p.no_subcommand || p.positionals.len() == 0, ..p }
}

/// The arguments from `i` on.
pub open spec fn read_from(args: Seq<Seq<char>>, i: int, p: Parsing) -> Reading
    decreases args.len() - i,
{
    if i < 0 || i >= args.len() {
        Reading::Done(p)
    } else {
        let a = args[i];
        match arg_of(a) {
            Arg::Help => Reading::Help,
            Arg::Version => Reading::Version,
            Arg::Flag(s) => read_from(
                args,
                i + 1,
                after_option(p, Chosen { flags: switched(p.chosen.flags, s), ..p.chosen }),
            ),
            Arg::Takes(s) => if i + 1 >= args.len() {
                Reading::Fault(missing_value(a, s))
            } else {
                match with_value(p.chosen, a, s, args[i + 1]) {
                    Ok(c) => read_from(args, i + 2, after_option(p, c)),
                    Err(e) => Reading::Fault(e),
                }
            },
            Arg::Attached(s) => match with_value(p.chosen, a.take(2), s, a.skip(2)) {
                Ok(c) => read_from(args, i + 1, after_option(p, c)),
                Err(e) => Reading::Fault(e),
            },
            Arg::End => Reading::Done(
                Parsing {
                    positionals: p.positionals + args.skip(i + 1),
                    no_subcommand: p.no_subcommand || p.positionals.len() == 0,
                    ..p
                },
            ),
            Arg::Binary => Reading::Fault(
                "-uuu (searching binary files) is not supported; the closest is -uu"@,
            ),
            Arg::Unknown => Reading::Fault("unknown option: "@ + a),
            Arg::Plain => read_from(
                args,
                i + 1,
                Parsing { positionals: p.positionals.push(a), ..p },
            ),
        }
    }
}

/// A command line.
#[derive(Debug)]
pub struct Cli {
    /// Search patterns; more than one matches any of them.
    pub patterns: Vec<String>,
    pub path: Option<String>,
    /// Extra path arguments: files and directories to scope the search to.
    pub paths: Vec<String>,
    pub command: Cmd,
    pub choices: Choices,
}

/// The mathematical form of `Cli`.
#[verifier::ext_equal]
pub struct Line {
    pub patterns: Seq<Seq<char>>,
    pub path: Option<Seq<char>>,
    pub paths: Seq<Seq<char>>,
    pub command: Cmd,
    pub chosen: Chosen,
}

impl View for Cli {
    type V = Line;

    open spec fn view(&self) -> Line {
        Line {
            patterns: texts(self.patterns@),
            path: text_of(self.path),
            paths: texts(self.paths@),
            command: self.command,
            chosen: self.choices@,
        }
    }
}

/// The second positional.
pub open spec fn second(p: Seq<Seq<char>>) -> Option<Seq<char>> {
    if p.len() > 1 {
        Some(p[1])
    } else {
        None
    }
}

pub open spec fn command_line(
    p: Parsing,
    command: Cmd,
    path: Option<Seq<char>>,
) -> Line {
    Line { patterns: Seq::empty(), path, paths: Seq::empty(), command, chosen: p.chosen }
}

pub open spec fn search_line(p: Parsing, patterns: Seq<Seq<char>>, paths: Seq<Seq<char>>) -> Line {
    Line { patterns, path: None, paths, command: Cmd::Search, chosen: p.chosen }
}

/// The command line that was read: the first positional is a subcommand, or
/// the pattern; the rest are paths. With a pattern by option, or a list that
/// needs none, all are paths.
pub open spec fn line_of(p: Parsing) -> Result<Line, Seq<char>> {
    let e = p.chosen.e_patterns;
    let words = p.positionals;
    let listing = p.chosen.flags.files_list || p.chosen.flags.type_list;
    if e.len() > 0 || (p.no_subcommand && listing) {
        Ok(search_line(p, e, words))
    } else if words.len() == 0 {
        Err("missing pattern (try --help)"@)
    } else if p.no_subcommand {
        Ok(search_line(p, seq![words[0]], words.drop_first()))
    } else if words[0] == "index"@ {
        Ok(command_line(p, Cmd::Index, second(words)))
    } else if words[0] == "watch"@ {
        Ok(command_line(p, Cmd::Watch, second(words)))
    } else if words[0] == "mcp"@ {
        Ok(command_line(p, Cmd::Mcp, None))
    } else if words[0] == "status"@ {
        Ok(command_line(p, Cmd::Status, second(words)))
    } else if words[0] == "forget"@ {
        Ok(command_line(p, Cmd::Forget, second(words)))
    } else {
        Ok(search_line(p, seq![words[0]], words.drop_first()))
    }
}

pub open spec fn start_of_line() -> Parsing {
    Parsing { chosen: nothing_chosen(), positionals: Seq::empty(), no_subcommand: false }
}

/// What the arguments ask for.
#[derive(Debug)]
pub enum Parsed {
    Help,
    Version,
    Run(Cli),
}

fn no_choices() -> (c: Choices)
    ensures
        c@ == nothing_chosen(),
{
    let c = Choices {
        flags: Flags {
            case_insensitive: false,
            fixed: false,
            multiline: false,
            word: false,
            invert: false,
            only_matching: false,
            smart_case: false,
            files_list: false,
            type_list: false,
            hidden: false,
            no_ignore: false,
            files_only: false,
            counts: false,
            json: false,
            stats: false,
            explain: false,
            no_index: false,
            no_auto_index: false,
            no_heading: false,
        },
        color: ColorChoice::Auto,
        replace: None,
        max_count: None,
        before: 0,
        after: 0,
        globs: Vec::new(),
        types_select: Vec::new(),
        types_negate: Vec::new(),
        e_patterns: Vec::new(),
    };
    assert(c@ =~= nothing_chosen());
    c
}

/// The first words of a list, without the first.
fn rest_of(words: &Vec<String>) -> (r: Vec<String>)
    requires
        words@.len() > 0,
    ensures
        texts(r@) == texts(words@).drop_first(),
{
    let mut r: Vec<String> = Vec::new();
    for i in 1..words.len()
        invariant
            1 <= i <= words@.len(),
            r@.len() == i - 1,
            forall|k: int| 0 <= k < i - 1 ==> (#[trigger] r@[k])@ == words@[k + 1]@,
    {
        r.push(words[i].clone());
    }
    assert(texts(r@) =~= texts(words@).drop_first());
    r
}

fn second_word(words: &Vec<String>) -> (r: Option<String>)
    ensures
        text_of(r) == second(texts(words@)),
{
    if words.len() > 1 {
        Some(words[1].clone())
    } else {
        None
    }
}

fn finish_line(choices: Choices, words: Vec<String>, no_subcommand: bool) -> (r: Result<
    Cli,
    String,
>)
    ensures
        ({
            let p = Parsing { chosen: choices@, positionals: texts(words@), no_subcommand };
            match r {
                Ok(cli) => line_of(p) == Ok::<Line, Seq<char>>(cli@),
                Err(e) => line_of(p) == Err::<Line, Seq<char>>(e@),
            }
        }),
{
    let ghost p = Parsing { chosen: choices@, positionals: texts(words@), no_subcommand };
    let listing = choices.flags.files_list || choices.flags.type_list;
    let none: Vec<String> = Vec::new();
    assert(texts(none@) =~= Seq::<Seq<char>>::empty());
    if choices.e_patterns.len() > 0 || (no_subcommand && listing) {
        let mut patterns: Vec<String> = Vec::new();
        for i in 0..choices.e_patterns.len()
            invariant
                patterns@.len() == i,
                forall|k: int|
                    0 <= k < i ==> (#[trigger] patterns@[k])@ == choices.e_patterns@[k]@,
        {
            patterns.push(choices.e_patterns[i].clone());
        }
        assert(texts(patterns@) =~= texts(choices.e_patterns@));
        return Ok(
            Cli { patterns, path: None, paths: words, command: Cmd::Search, choices },
        );
    }
    if words.len() == 0 {
        let text = chars_of("missing pattern (try --help)");
        return Err(string_of(&text));
    }
    let first = words[0].as_str();
    let command = if no_subcommand {
        Cmd::Search
    } else if same_text(first, "index") {
        Cmd::Index
    } else if same_text(first, "watch") {
        Cmd::Watch
    } else if same_text(first, "mcp") {
        Cmd::Mcp
    } else if same_text(first, "status") {
        Cmd::Status
    } else if same_text(first, "forget") {
        Cmd::Forget
    } else {
        Cmd::Search
    };
    match command {
        Cmd::Search => {
            let patterns: Vec<String> = vec![words[0].clone()];
            assert(texts(patterns@) =~= seq![texts(words@)[0]]);
            let paths = rest_of(&words);
            Ok(Cli { patterns, path: None, paths, command, choices })
        },
        Cmd::Mcp => Ok(Cli { patterns: none, path: None, paths: Vec::new(), command, choices }),
        _ => {
            let path = second_word(&words);
            Ok(Cli { patterns: none, path, paths: Vec::new(), command, choices })
        },
    }
}

/// Parses the arguments behind the program's name.
pub fn parse_args(args: &Vec<String>) -> (r: Result<Parsed, String>)
    ensures
        match (r, read_from(texts(args@), 0, start_of_line())) {
            (Ok(Parsed::Help), Reading::Help) => true,
            (Ok(Parsed::Version), Reading::Version) => true,
            (Ok(Parsed::Run(cli)), Reading::Done(p)) => line_of(p) == Ok::<Line, Seq<char>>(cli@),
            (Err(e), Reading::Fault(f)) => e@ == f,
            (Err(e), Reading::Done(p)) => line_of(p) == Err::<Line, Seq<char>>(e@),
            _ => false,
        },
{
    let ghost all = texts(args@);
    let mut choices = no_choices();
    let mut words: Vec<String> = Vec::new();
    let mut no_subcommand = false;
    let mut i: usize = 0;
    let n: usize = args.len();
    assert(texts(words@) =~= Seq::<Seq<char>>::empty());
    loop
        invariant_except_break
            all == texts(args@),
            n == args@.len(),
            i <= n,
            read_from(all, 0, start_of_line()) == read_from(
                all,
                i as int,
                Parsing { chosen: choices@, positionals: texts(words@), no_subcommand },
            ),
        ensures
            all == texts(args@),
            read_from(all, 0, start_of_line()) == Reading::Done(
                Parsing { chosen: choices@, positionals: texts(words@), no_subcommand },
            ),
        decreases n - i,
    {
        if i >= n {
            break;
        }
        let a = args[i].as_str();
        assert(a@ == all[i as int]);
        let ghost p = Parsing { chosen: choices@, positionals: texts(words@), no_subcommand };
        match kind_of(a) {
            Arg::Help => {
                return Ok(Parsed::Help);
            },
            Arg::Version => {
                return Ok(Parsed::Version);
            },
            Arg::Binary => {
                let text = chars_of(
                    "-uuu (searching binary files) is not supported; the closest is -uu",
                );
                return Err(string_of(&text));
            },
            Arg::Unknown => {
                let mut text = chars_of("unknown option: ");
                push_str(&mut text, a);
                return Err(string_of(&text));
            },
            Arg::End => {
                no_subcommand = no_subcommand || words.len() == 0;
                let ghost before = words@;
                for k in i + 1..n
                    invariant
                        n == args@.len(),
                        all == texts(args@),
                        i + 1 <= k <= n,
                        texts(words@) == texts(before) + all.subrange(i + 1, k as int),
                {
                    proof {
                        lemma_texts_push(words@, args@[k as int]);
                    }
                    words.push(args[k].clone());
                    assert(texts(words@) =~= texts(before) + all.subrange(i + 1, k as int + 1));
                }
                assert(all.subrange(i + 1, n as int) =~= all.skip(i + 1));
                break;
            },
            Arg::Plain => {
                proof {
                    lemma_texts_push(words@, args@[i as int]);
                }
                words.push(args[i].clone());
                i = i + 1;
            },
            Arg::Flag(s) => {
                choices.flags = switch_on(choices.flags, s);
                no_subcommand = no_subcommand || words.len() == 0;
                i = i + 1;
            },
            Arg::Takes(s) => {
                if i + 1 >= n {
                    return Err(missing_value_text(a, s));
                }
                match set_value(&mut choices, a, s, args[i + 1].clone()) {
                    Ok(()) => {},
                    Err(e) => {
                        return Err(e);
                    },
                }
                no_subcommand = no_subcommand || words.len() == 0;
                i = i + 2;
            },
            Arg::Attached(s) => {
                let chars = chars_of(a);
                proof {
                    lemma_attached(a@);
                }
                let end: usize = chars.len();
                let name = string_of(&slice_of(&chars, 0, 2));
                let value = string_of(&slice_of(&chars, 2, end));
                assert(name@ =~= a@.take(2));
                assert(value@ =~= a@.skip(2));
                match set_value(&mut choices, name.as_str(), s, value) {
                    Ok(()) => {},
                    Err(e) => {
                        return Err(e);
                    },
                }
                no_subcommand = no_subcommand || words.len() == 0;
                i = i + 1;
            },
        }
    }
    match finish_line(choices, words, no_subcommand) {
        Ok(cli) => Ok(Parsed::Run(cli)),
        Err(e) => Err(e),
    }
}

/// An attached value has its option in front.
proof fn lemma_attached(a: Seq<char>)
    requires
        arg_of(a) is Attached,
    ensures
        a.len() >= 2,
{
    reveal_strlit("-A");
    reveal_strlit("-B");
    reveal_strlit("-C");
}

/// What was read first stays first.
proof fn lemma_first_stays(args: Seq<Seq<char>>, i: int, p: Parsing)
    requires
        0 <= i,
        read_from(args, i, p) is Done,
    ensures
        p.no_subcommand ==> read_from(args, i, p)->Done_0.no_subcommand,
        p.positionals.len() > 0 ==> read_from(args, i, p)->Done_0.positionals.len() > 0
            && read_from(args, i, p)->Done_0.positionals[0] == p.positionals[0],
    decreases args.len() - i,
{
    if i < args.len() {
        let a = args[i];
        match arg_of(a) {
            Arg::Flag(s) => {
                lemma_first_stays(
                    args,
                    i + 1,
                    after_option(p, Chosen { flags: switched(p.chosen.flags, s), ..p.chosen }),
                );
            },
            Arg::Takes(s) => {
                let c = with_value(p.chosen, a, s, args[i + 1])->Ok_0;
                lemma_first_stays(args, i + 2, after_option(p, c));
            },
            Arg::Attached(s) => {
                let c = with_value(p.chosen, a.take(2), s, a.skip(2))->Ok_0;
                lemma_first_stays(args, i + 1, after_option(p, c));
            },
            Arg::Plain => {
                lemma_first_stays(
                    args,
                    i + 1,
                    Parsing { positionals: p.positionals.push(a), ..p },
                );
            },
            _ => {},
        }
    }
}

/// A subcommand is the very first argument: once any option precedes it, the
/// word is a pattern.
pub proof fn law_subcommand_is_first(args: Seq<Seq<char>>)
    requires
        read_from(args, 0, start_of_line()) matches Reading::Done(p) && (line_of(p) matches Ok(line)
            && line.command != Cmd::Search),
    ensures
        args.len() > 0,
        ({
            let line = line_of(read_from(args, 0, start_of_line())->Done_0)->Ok_0;
            args[0] == match line.command {
                Cmd::Index => "index"@,
                Cmd::Watch => "watch"@,
                Cmd::Mcp => "mcp"@,
                Cmd::Status => "status"@,
                _ => "forget"@,
            }
        }),
{
    let p = start_of_line();
    let done = read_from(args, 0, p)->Done_0;
    assert(!done.no_subcommand && done.positionals.len() > 0);
    if args.len() > 0 {
        let a = args[0];
        match arg_of(a) {
            Arg::Flag(s) => {
                lemma_first_stays(
                    args,
                    1,
                    after_option(p, Chosen { flags: switched(p.chosen.flags, s), ..p.chosen }),
                );
            },
            Arg::Takes(s) => {
                let c = with_value(p.chosen, a, s, args[1])->Ok_0;
                lemma_first_stays(args, 2, after_option(p, c));
            },
            Arg::Attached(s) => {
                let c = with_value(p.chosen, a.take(2), s, a.skip(2))->Ok_0;
                lemma_first_stays(args, 1, after_option(p, c));
            },
            Arg::Plain => {
                lemma_first_stays(args, 1, Parsing { positionals: p.positionals.push(a), ..p });
            },
            _ => {},
        }
    }
}

} // verus!
