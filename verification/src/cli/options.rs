//! What options and words on the command line ask for.

use crate::cli::args::{
    line_of, read_from, start_of_line, Chosen, Cmd, ColorChoice, Flags, Line, Parsing, Reading,
};
use crate::numbers::number_in;
use vstd::prelude::*;

verus! {

/// An option was read: what it chose stands, and a word behind it is no
/// subcommand.
pub open spec fn chose(p: Parsing, chosen: Chosen) -> Parsing {
    Parsing {
        chosen,
        positionals: p.positionals,
        no_subcommand: p.no_subcommand || p.positionals.len() == 0,
    }
}

/// An option without a value was read.
pub open spec fn set(p: Parsing, flags: Flags) -> Parsing {
    chose(p, Chosen { flags, ..p.chosen })
}

/// Whether a name has `n` characters: a dash, `a`, and `b` if there is a third.
spec fn is_named(s: Seq<char>, n: nat, a: char, b: char) -> bool {
    s.len() == n && s[0] == '-' && s[1] == a && (n > 2 ==> s[2] == b)
}

/// How the names of options differ.
proof fn lemma_names()
    ensures
        is_named("-h"@, 2, 'h', 'h'),
        is_named("--help"@, 6, '-', 'h'),
        is_named("-V"@, 2, 'V', 'V'),
        is_named("--version"@, 9, '-', 'v'),
        is_named("-i"@, 2, 'i', 'i'),
        is_named("-F"@, 2, 'F', 'F'),
        is_named("-U"@, 2, 'U', 'U'),
        is_named("--multiline"@, 11, '-', 'm'),
        is_named("-r"@, 2, 'r', 'r'),
        is_named("--replace"@, 9, '-', 'r'),
        is_named("--files"@, 7, '-', 'f'),
        is_named("--type-list"@, 11, '-', 't'),
        is_named("--hidden"@, 8, '-', 'h'),
        is_named("--no-ignore"@, 11, '-', 'n'),
        is_named("-u"@, 2, 'u', 'u'),
        is_named("-uu"@, 3, 'u', 'u'),
        is_named("-uuu"@, 4, 'u', 'u'),
        is_named("-w"@, 2, 'w', 'w'),
        is_named("--word-regexp"@, 13, '-', 'w'),
        is_named("-v"@, 2, 'v', 'v'),
        is_named("--invert-match"@, 14, '-', 'i'),
        is_named("-o"@, 2, 'o', 'o'),
        is_named("--only-matching"@, 15, '-', 'o'),
        is_named("-S"@, 2, 'S', 'S'),
        is_named("--smart-case"@, 12, '-', 's'),
        is_named("-e"@, 2, 'e', 'e'),
        is_named("--"@, 2, '-', '-'),
        is_named("-l"@, 2, 'l', 'l'),
        is_named("-c"@, 2, 'c', 'c'),
        is_named("-m"@, 2, 'm', 'm'),
        is_named("-A"@, 2, 'A', 'A'),
        is_named("-B"@, 2, 'B', 'B'),
        is_named("-C"@, 2, 'C', 'C'),
        is_named("-g"@, 2, 'g', 'g'),
        is_named("-t"@, 2, 't', 't'),
        is_named("-T"@, 2, 'T', 'T'),
        is_named("--json"@, 6, '-', 'j'),
        is_named("--stats"@, 7, '-', 's'),
        is_named("--explain"@, 9, '-', 'e'),
        is_named("--no-index"@, 10, '-', 'n'),
        is_named("--no-auto-index"@, 15, '-', 'n'),
        is_named("--no-heading"@, 12, '-', 'n'),
        is_named("--color"@, 7, '-', 'c'),
{
    reveal_strlit("-h");
    reveal_strlit("--help");
    reveal_strlit("-V");
    reveal_strlit("--version");
    reveal_strlit("-i");
    reveal_strlit("-F");
    reveal_strlit("-U");
    reveal_strlit("--multiline");
    reveal_strlit("-r");
    reveal_strlit("--replace");
    reveal_strlit("--files");
    reveal_strlit("--type-list");
    reveal_strlit("--hidden");
    reveal_strlit("--no-ignore");
    reveal_strlit("-u");
    reveal_strlit("-uu");
    reveal_strlit("-uuu");
    reveal_strlit("-w");
    reveal_strlit("--word-regexp");
    reveal_strlit("-v");
    reveal_strlit("--invert-match");
    reveal_strlit("-o");
    reveal_strlit("--only-matching");
    reveal_strlit("-S");
    reveal_strlit("--smart-case");
    reveal_strlit("-e");
    reveal_strlit("--");
    reveal_strlit("-l");
    reveal_strlit("-c");
    reveal_strlit("-m");
    reveal_strlit("-A");
    reveal_strlit("-B");
    reveal_strlit("-C");
    reveal_strlit("-g");
    reveal_strlit("-t");
    reveal_strlit("-T");
    reveal_strlit("--json");
    reveal_strlit("--stats");
    reveal_strlit("--explain");
    reveal_strlit("--no-index");
    reveal_strlit("--no-auto-index");
    reveal_strlit("--no-heading");
    reveal_strlit("--color");
}

/// Each of these options switches on what it is named after, and leaves the
/// rest as it is.
pub proof fn law_options_on_matching_switch_one_thing(args: Seq<Seq<char>>, i: int, p: Parsing)
    requires
        0 <= i < args.len(),
    ensures
        args[i] == "-i"@ ==> read_from(
            args,
            i,
            p,
        ) == read_from(
            args,
            i + 1,
            set(p, Flags { case_insensitive: true, ..p.chosen.flags }),
        ),
        args[i] == "-F"@ ==> read_from(
            args,
            i,
            p,
        ) == read_from(
            args,
            i + 1,
            set(p, Flags { fixed: true, ..p.chosen.flags }),
        ),
        (args[i] == "-U"@ || args[i] == "--multiline"@) ==> read_from(
            args,
            i,
            p,
        ) == read_from(
            args,
            i + 1,
            set(p, Flags { multiline: true, ..p.chosen.flags }),
        ),
        (args[i] == "-w"@ || args[i] == "--word-regexp"@) ==> read_from(
            args,
            i,
            p,
        ) == read_from(
            args,
            i + 1,
            set(p, Flags { word: true, ..p.chosen.flags }),
        ),
        (args[i] == "-v"@ || args[i] == "--invert-match"@) ==> read_from(
            args,
            i,
            p,
        ) == read_from(
            args,
            i + 1,
            set(p, Flags { invert: true, ..p.chosen.flags }),
        ),
        (args[i] == "-o"@ || args[i] == "--only-matching"@) ==> read_from(
            args,
            i,
            p,
        ) == read_from(
            args,
            i + 1,
            set(p, Flags { only_matching: true, ..p.chosen.flags }),
        ),
        (args[i] == "-S"@ || args[i] == "--smart-case"@) ==> read_from(
            args,
            i,
            p,
        ) == read_from(
            args,
            i + 1,
            set(p, Flags { smart_case: true, ..p.chosen.flags }),
        ),
        args[i] == "--files"@ ==> read_from(
            args,
            i,
            p,
        ) == read_from(
            args,
            i + 1,
            set(p, Flags { files_list: true, ..p.chosen.flags }),
        ),
        args[i] == "--type-list"@ ==> read_from(
            args,
            i,
            p,
        ) == read_from(
            args,
            i + 1,
            set(p, Flags { type_list: true, ..p.chosen.flags }),
        ),
        args[i] == "--hidden"@ ==> read_from(
            args,
            i,
            p,
        ) == read_from(
            args,
            i + 1,
            set(p, Flags { hidden: true, ..p.chosen.flags }),
        ),
{
    lemma_names();
}

/// Each of these options switches on what it is named after, and leaves the
/// rest as it is.
pub proof fn law_options_on_output_switch_one_thing(args: Seq<Seq<char>>, i: int, p: Parsing)
    requires
        0 <= i < args.len(),
    ensures
        (args[i] == "-u"@ || args[i] == "--no-ignore"@) ==> read_from(
            args,
            i,
            p,
        ) == read_from(
            args,
            i + 1,
            set(p, Flags { no_ignore: true, ..p.chosen.flags }),
        ),
        args[i] == "-uu"@ ==> read_from(
            args,
            i,
            p,
        ) == read_from(
            args,
            i + 1,
            set(p, Flags { no_ignore: true, hidden: true, ..p.chosen.flags }),
        ),
        args[i] == "-l"@ ==> read_from(
            args,
            i,
            p,
        ) == read_from(
            args,
            i + 1,
            set(p, Flags { files_only: true, ..p.chosen.flags }),
        ),
        args[i] == "-c"@ ==> read_from(
            args,
            i,
            p,
        ) == read_from(
            args,
            i + 1,
            set(p, Flags { counts: true, ..p.chosen.flags }),
        ),
        args[i] == "--json"@ ==> read_from(
            args,
            i,
            p,
        ) == read_from(
            args,
            i + 1,
            set(p, Flags { json: true, ..p.chosen.flags }),
        ),
        args[i] == "--stats"@ ==> read_from(
            args,
            i,
            p,
        ) == read_from(
            args,
            i + 1,
            set(p, Flags { stats: true, ..p.chosen.flags }),
        ),
        args[i] == "--explain"@ ==> read_from(
            args,
            i,
            p,
        ) == read_from(
            args,
            i + 1,
            set(p, Flags { explain: true, ..p.chosen.flags }),
        ),
        args[i] == "--no-index"@ ==> read_from(
            args,
            i,
            p,
        ) == read_from(
            args,
            i + 1,
            set(p, Flags { no_index: true, ..p.chosen.flags }),
        ),
        args[i] == "--no-auto-index"@ ==> read_from(
            args,
            i,
            p,
        ) == read_from(
            args,
            i + 1,
            set(p, Flags { no_auto_index: true, ..p.chosen.flags }),
        ),
        args[i] == "--no-heading"@ ==> read_from(
            args,
            i,
            p,
        ) == read_from(
            args,
            i + 1,
            set(p, Flags { no_heading: true, ..p.chosen.flags }),
        ),
{
    lemma_names();
}

/// An option with a text takes the next argument: it is added to the texts
/// given before, and a replacement takes the place of one.
pub proof fn law_options_take_the_next_text(args: Seq<Seq<char>>, i: int, p: Parsing)
    requires
        0 <= i < args.len(),
    ensures
        args[i] == "-e"@ && i + 1 < args.len() ==> read_from(
            args,
            i,
            p,
        ) == read_from(
            args,
            i + 2,
            chose(p, Chosen { e_patterns: p.chosen.e_patterns.push(args[i + 1]), ..p.chosen }),
        ),
        args[i] == "-g"@ && i + 1 < args.len() ==> read_from(
            args,
            i,
            p,
        ) == read_from(
            args,
            i + 2,
            chose(p, Chosen { globs: p.chosen.globs.push(args[i + 1]), ..p.chosen }),
        ),
        args[i] == "-t"@ && i + 1 < args.len() ==> read_from(
            args,
            i,
            p,
        ) == read_from(
            args,
            i + 2,
            chose(p, Chosen { types_select: p.chosen.types_select.push(args[i + 1]), ..p.chosen }),
        ),
        args[i] == "-T"@ && i + 1 < args.len() ==> read_from(
            args,
            i,
            p,
        ) == read_from(
            args,
            i + 2,
            chose(p, Chosen { types_negate: p.chosen.types_negate.push(args[i + 1]), ..p.chosen }),
        ),
        (args[i] == "-r"@ || args[i] == "--replace"@) && i + 1 < args.len() ==> read_from(
            args,
            i,
            p,
        ) == read_from(
            args,
            i + 2,
            chose(p, Chosen { replace: Some(args[i + 1]), ..p.chosen }),
        ),
        args[i] == "--color"@ && i + 1 < args.len() && args[i + 1] == "always"@ ==> read_from(
            args,
            i,
            p,
        ) == read_from(
            args,
            i + 2,
            chose(p, Chosen { color: ColorChoice::Always, ..p.chosen }),
        ),
        args[i] == "--color"@ && i + 1 < args.len() && args[i + 1] == "never"@ ==> read_from(
            args,
            i,
            p,
        ) == read_from(
            args,
            i + 2,
            chose(p, Chosen { color: ColorChoice::Never, ..p.chosen }),
        ),
        args[i] == "--color"@ && i + 1 < args.len() && args[i + 1] == "auto"@ ==> read_from(
            args,
            i,
            p,
        ) == read_from(
            args,
            i + 2,
            chose(p, Chosen { color: ColorChoice::Auto, ..p.chosen }),
        ),
{
    lemma_names();
    reveal_strlit("always");
    reveal_strlit("never");
    reveal_strlit("auto");
}

/// -m, -A, -B and -C take the next argument as a number: -A of lines behind a
/// match, -B of lines in front, -C of both.
pub proof fn law_options_take_the_next_number(args: Seq<Seq<char>>, i: int, p: Parsing, n: usize)
    requires
        0 <= i < args.len() - 1,
        number_in(args[i + 1], usize::MAX as nat) == Some(n as nat),
    ensures
        args[i] == "-A"@ ==> read_from(args, i, p) == read_from(
            args,
            i + 2,
            chose(p, Chosen { after: n, ..p.chosen }),
        ),
        args[i] == "-B"@ ==> read_from(args, i, p) == read_from(
            args,
            i + 2,
            chose(p, Chosen { before: n, ..p.chosen }),
        ),
        args[i] == "-C"@ ==> read_from(args, i, p) == read_from(
            args,
            i + 2,
            chose(p, Chosen { before: n, after: n, ..p.chosen }),
        ),
{
    lemma_names();
}

/// -A, -B and -C take a number that is attached to them in the same way.
pub proof fn law_options_take_an_attached_number(args: Seq<Seq<char>>, i: int, p: Parsing, n: usize)
    requires
        0 <= i < args.len(),
        args[i].len() > 2,
        number_in(args[i].skip(2), usize::MAX as nat) == Some(n as nat),
    ensures
        args[i].take(2) == "-A"@ ==> read_from(args, i, p) == read_from(
            args,
            i + 1,
            chose(p, Chosen { after: n, ..p.chosen }),
        ),
        args[i].take(2) == "-B"@ ==> read_from(args, i, p) == read_from(
            args,
            i + 1,
            chose(p, Chosen { before: n, ..p.chosen }),
        ),
        args[i].take(2) == "-C"@ ==> read_from(args, i, p) == read_from(
            args,
            i + 1,
            chose(p, Chosen { before: n, after: n, ..p.chosen }),
        ),
{
    lemma_names();
    assert(args[i].take(2)[0] == args[i][0] && args[i].take(2)[1] == args[i][1]);
}

/// -m takes the next argument as the number of matched lines of a file.
pub proof fn law_max_count_is_the_next_number(args: Seq<Seq<char>>, i: int, p: Parsing, m: u64)
    requires
        0 <= i < args.len() - 1,
        args[i] == "-m"@,
        number_in(args[i + 1], u64::MAX as nat) == Some(m as nat),
    ensures
        read_from(args, i, p) == read_from(
            args,
            i + 2,
            chose(p, Chosen { max_count: Some(m), ..p.chosen }),
        ),
{
    lemma_names();
}

/// What cannot be read is a fault: an option that is not known, a value that is
/// missing, or one that is no number or no choice of colors.
pub proof fn law_bad_arguments_are_faults(args: Seq<Seq<char>>, i: int, p: Parsing)
    requires
        0 <= i < args.len(),
    ensures
        i + 1 == args.len() && (args[i] == "-e"@ || args[i] == "-g"@ || args[i] == "-t"@ || args[i]
            == "-T"@ || args[i] == "-r"@ || args[i] == "-m"@ || args[i] == "-A"@ || args[i]
            == "-B"@ || args[i] == "-C"@ || args[i] == "--color"@) ==> read_from(
            args,
            i,
            p,
        ) is Fault,
        i + 1 < args.len() && args[i] == "-m"@ && number_in(args[i + 1], u64::MAX as nat) is None
            ==> read_from(args, i, p) is Fault,
        i + 1 < args.len() && (args[i] == "-A"@ || args[i] == "-B"@ || args[i] == "-C"@)
            && number_in(args[i + 1], usize::MAX as nat) is None ==> read_from(args, i, p) is Fault,
        i + 1 < args.len() && args[i] == "--color"@ && args[i + 1] != "always"@ && args[i + 1]
            != "never"@ && args[i + 1] != "auto"@ ==> read_from(args, i, p) is Fault,
        args[i] == "-uuu"@ ==> read_from(args, i, p) is Fault,
{
    lemma_names();
}

/// An option by one of its names.
pub open spec fn is_option(a: Seq<char>) -> bool {
    ||| a == "-h"@
    ||| a == "--help"@
    ||| a == "-V"@
    ||| a == "--version"@
    ||| a == "-i"@
    ||| a == "-F"@
    ||| a == "-U"@
    ||| a == "--multiline"@
    ||| a == "-r"@
    ||| a == "--replace"@
    ||| a == "--files"@
    ||| a == "--type-list"@
    ||| a == "--hidden"@
    ||| a == "--no-ignore"@
    ||| a == "-u"@
    ||| a == "-uu"@
    ||| a == "-uuu"@
    ||| a == "-w"@
    ||| a == "--word-regexp"@
    ||| a == "-v"@
    ||| a == "--invert-match"@
    ||| a == "-o"@
    ||| a == "--only-matching"@
    ||| a == "-S"@
    ||| a == "--smart-case"@
    ||| a == "-e"@
    ||| a == "--"@
    ||| a == "-l"@
    ||| a == "-c"@
    ||| a == "-m"@
    ||| a == "-A"@
    ||| a == "-B"@
    ||| a == "-C"@
    ||| a == "-g"@
    ||| a == "-t"@
    ||| a == "-T"@
    ||| a == "--json"@
    ||| a == "--stats"@
    ||| a == "--explain"@
    ||| a == "--no-index"@
    ||| a == "--no-auto-index"@
    ||| a == "--no-heading"@
    ||| a == "--color"@
    ||| a.len() > 2 && (a.take(2) == "-A"@ || a.take(2) == "-B"@ || a.take(2) == "-C"@)
}

/// What looks like an option and is none is a fault that names it.
pub proof fn law_unknown_option_is_named(args: Seq<Seq<char>>, i: int, p: Parsing)
    requires
        0 <= i < args.len(),
        args[i].len() > 1 && args[i][0] == '-',
        !is_option(args[i]),
    ensures
        read_from(args, i, p) == Reading::Fault("unknown option: "@ + args[i]),
{
    let a = args[i];
    lemma_names();
    assert(a.subrange(0, 2) =~= a.take(2));
    if a.len() == 2 {
        assert(a.take(2) =~= a);
    }
}

/// -h and --help ask for help, -V and --version for the version, whatever
/// follows.
pub proof fn law_help_and_version(args: Seq<Seq<char>>, i: int, p: Parsing)
    requires
        0 <= i < args.len(),
    ensures
        args[i] == "-h"@ || args[i] == "--help"@ ==> read_from(args, i, p) == Reading::Help,
        args[i] == "-V"@ || args[i] == "--version"@ ==> read_from(args, i, p) == Reading::Version,
{
    lemma_names();
}

/// A word: anything but a dash with something behind it.
pub open spec fn is_word(a: Seq<char>) -> bool {
    a.len() <= 1 || a[0] != '-'
}

/// A word is kept as it is, behind those before; behind "--" everything is a
/// word.
pub proof fn law_words_are_kept(args: Seq<Seq<char>>, i: int, p: Parsing)
    requires
        0 <= i < args.len(),
    ensures
        is_word(args[i]) ==> read_from(args, i, p) == read_from(
            args,
            i + 1,
            Parsing { positionals: p.positionals.push(args[i]), ..p },
        ),
        args[i] == "--"@ ==> read_from(args, i, p) == Reading::Done(
            Parsing {
                positionals: p.positionals + args.skip(i + 1),
                ..chose(p, p.chosen)
            },
        ),
{
    lemma_names();
}

proof fn lemma_words(args: Seq<Seq<char>>, i: int, p: Parsing)
    requires
        0 <= i <= args.len(),
        forall|k: int| 0 <= k < args.len() ==> is_word(#[trigger] args[k]),
    ensures
        read_from(args, i, p) == Reading::Done(
            Parsing { positionals: p.positionals + args.skip(i), ..p },
        ),
    decreases args.len() - i,
{
    if i < args.len() {
        assert(is_word(args[i]));
        law_words_are_kept(args, i, p);
        let q = Parsing { positionals: p.positionals.push(args[i]), ..p };
        lemma_words(args, i + 1, q);
        assert(q.positionals + args.skip(i + 1) =~= p.positionals + args.skip(i));
    } else {
        assert(p.positionals + args.skip(i) =~= p.positionals);
    }
}

/// Without options nothing is chosen: every switch is off, there is no context
/// and no maximum, and every file counts.
pub proof fn law_words_choose_nothing(args: Seq<Seq<char>>)
    requires
        forall|k: int| 0 <= k < args.len() ==> is_word(#[trigger] args[k]),
    ensures
        read_from(args, 0, start_of_line()) matches Reading::Done(p) && {
            let f = p.chosen.flags;
            &&& p.positionals == args
            &&& !p.no_subcommand
            &&& !f.case_insensitive && !f.fixed && !f.multiline && !f.word && !f.invert
            &&& !f.only_matching && !f.smart_case && !f.files_list && !f.type_list && !f.hidden
            &&& !f.no_ignore && !f.files_only && !f.counts && !f.json && !f.stats && !f.explain
            &&& !f.no_index && !f.no_auto_index && !f.no_heading
            &&& p.chosen.color == ColorChoice::Auto
            &&& p.chosen.replace is None && p.chosen.max_count is None
            &&& p.chosen.before == 0 && p.chosen.after == 0
            &&& p.chosen.globs.len() == 0 && p.chosen.types_select.len() == 0
            &&& p.chosen.types_negate.len() == 0 && p.chosen.e_patterns.len() == 0
        },
{
    lemma_words(args, 0, start_of_line());
    assert(start_of_line().positionals + args.skip(0) =~= args);
}

/// The words of a search: with patterns by option all are paths, and without
/// the first is the pattern. What was chosen stands.
pub proof fn law_first_word_is_the_pattern(p: Parsing)
    ensures
        p.chosen.e_patterns.len() > 0 ==> (line_of(p) matches Ok(line) && line == (Line {
            patterns: p.chosen.e_patterns,
            path: None,
            paths: p.positionals,
            command: Cmd::Search,
            chosen: p.chosen,
        })),
        p.chosen.e_patterns.len() == 0 && p.no_subcommand && (p.chosen.flags.files_list
            || p.chosen.flags.type_list) ==> (line_of(p) matches Ok(line) && line == (Line {
            patterns: Seq::empty(),
            path: None,
            paths: p.positionals,
            command: Cmd::Search,
            chosen: p.chosen,
        })),
        p.chosen.e_patterns.len() == 0 && p.no_subcommand && !p.chosen.flags.files_list
            && !p.chosen.flags.type_list && p.positionals.len() > 0 ==> (line_of(p) matches Ok(
            line,
        ) && line == (Line {
            patterns: seq![p.positionals[0]],
            path: None,
            paths: p.positionals.skip(1),
            command: Cmd::Search,
            chosen: p.chosen,
        })),
        p.chosen.e_patterns.len() == 0 && p.positionals.len() == 0 && !(p.no_subcommand && (
        p.chosen.flags.files_list || p.chosen.flags.type_list)) ==> line_of(p) is Err,
{
    if p.chosen.e_patterns.len() == 0 {
        assert(p.chosen.e_patterns =~= Seq::empty());
    }
    if p.positionals.len() > 0 {
        assert(p.positionals.drop_first() =~= p.positionals.skip(1));
    }
}

/// The command that a first word names, if it names one.
pub open spec fn command_named(w: Seq<char>) -> Option<Cmd> {
    if w == "index"@ {
        Some(Cmd::Index)
    } else if w == "watch"@ {
        Some(Cmd::Watch)
    } else if w == "mcp"@ {
        Some(Cmd::Mcp)
    } else if w == "status"@ {
        Some(Cmd::Status)
    } else if w == "forget"@ {
        Some(Cmd::Forget)
    } else {
        None
    }
}

/// A first word with no option in front of it is a command where it names one,
/// with the path behind it, and else the pattern of a search.
pub proof fn law_first_word_may_be_a_command(p: Parsing)
    requires
        p.chosen.e_patterns.len() == 0 && !p.no_subcommand && p.positionals.len() > 0,
    ensures
        line_of(p) matches Ok(line) && line.chosen == p.chosen && match command_named(
            p.positionals[0],
        ) {
            Some(command) => {
                &&& line.command == command
                &&& line.patterns.len() == 0 && line.paths.len() == 0
                &&& command != Cmd::Mcp && p.positionals.len() > 1 ==> line.path == Some(
                    p.positionals[1],
                )
                &&& command == Cmd::Mcp || p.positionals.len() == 1 ==> line.path is None
            },
            None => {
                &&& line.command == Cmd::Search && line.path is None
                &&& line.patterns == seq![p.positionals[0]]
                &&& line.paths == p.positionals.skip(1)
            },
        },
{
    assert(p.positionals.drop_first() =~= p.positionals.skip(1));
}

} // verus!
