//! Reports on builds, searches and the index.

use crate::index::builder::BuildStats;
use crate::numbers::{decimal, human_count, readable, to_decimal};
use crate::search::options::SearchStats;
use crate::text::{push_str, string_of};
use vstd::prelude::*;

verus! {

/// Texts one after the other.
pub open spec fn together(parts: Seq<Seq<char>>) -> Seq<char>
    decreases parts.len(),
{
    if parts.len() == 0 {
        Seq::empty()
    } else {
        together(parts.drop_last()) + parts.last()
    }
}

spec fn shown(parts: Seq<&str>) -> Seq<Seq<char>> {
    Seq::new(parts.len(), |i: int| parts[i]@)
}

fn join(parts: &Vec<&str>) -> (r: String)
    ensures
        r@ == together(shown(parts@)),
{
    let ghost all = shown(parts@);
    let mut out: Vec<char> = Vec::new();
    assert(all.take(0) =~= Seq::<Seq<char>>::empty());
    for i in 0..parts.len()
        invariant
            all == shown(parts@),
            out@ == together(all.take(i as int)),
    {
        push_str(&mut out, parts[i]);
        assert(all.take(i as int + 1).drop_last() =~= all.take(i as int));
    }
    assert(all.take(all.len() as int) =~= all);
    string_of(&out)
}

/// The parts of what is said of a finished build.
pub open spec fn build_parts(
    root: Seq<char>,
    s: BuildStats,
    time: Seq<char>,
    size: Seq<char>,
) -> Seq<Seq<char>> {
    seq![
        "indexed "@,
        root,
        " ("@,
        readable(s.files_total as nat),
        " files: "@,
        readable(s.files_indexed as nat),
        " indexed, "@,
        readable(s.files_reused as nat),
        " reused, "@,
        readable(s.files_binary as nat),
        " binary, "@,
        readable(s.files_scan_always as nat),
        " too large) in "@,
        time,
        "s -> "@,
        size,
    ]
}

/// What is said of a finished build. The time is in seconds.
pub fn build_report(root: &str, s: &BuildStats, time: &str, size: &str) -> (r: String)
    ensures
        r@ == together(build_parts(root@, *s, time@, size@)),
{
    let total = human_count(s.files_total);
    let indexed = human_count(s.files_indexed);
    let reused = human_count(s.files_reused);
    let binary = human_count(s.files_binary);
    let large = human_count(s.files_scan_always);
    let parts: Vec<&str> = vec![
        "indexed ",
        root,
        " (",
        total.as_str(),
        " files: ",
        indexed.as_str(),
        " indexed, ",
        reused.as_str(),
        " reused, ",
        binary.as_str(),
        " binary, ",
        large.as_str(),
        " too large) in ",
        time,
        "s -> ",
        size,
    ];
    assert(shown(parts@) =~= build_parts(root@, *s, time@, size@));
    join(&parts)
}

/// The parts of what is said of a refresh.
pub open spec fn refresh_parts(s: BuildStats, time: Seq<char>) -> Seq<Seq<char>> {
    seq![
        "refresh:     "@,
        readable(s.files_extracted as nat),
        " changed/new, "@,
        readable(s.files_reused as nat),
        " reused in "@,
        time,
        "s"@,
    ]
}

/// What is said of a refresh before a search.
pub fn refresh_report(s: &BuildStats, time: &str) -> (r: String)
    ensures
        r@ == together(refresh_parts(*s, time@)),
{
    let extracted = human_count(s.files_extracted);
    let reused = human_count(s.files_reused);
    let parts: Vec<&str> = vec![
        "refresh:     ",
        extracted.as_str(),
        " changed/new, ",
        reused.as_str(),
        " reused in ",
        time,
        "s",
    ];
    assert(shown(parts@) =~= refresh_parts(*s, time@));
    join(&parts)
}

/// The line on candidates: how many the index left of its files, or that
/// there was a full scan.
fn candidates_line(s: &SearchStats, percent: &str) -> (r: String)
    ensures
        r@ == together(candidates_parts(*s, percent@)),
{
    let candidates = human_count(s.candidates);
    if s.files_in_index > 0 {
        let files = human_count(s.files_in_index);
        let parts: Vec<&str> = vec![
            "index:       ",
            files.as_str(),
            " files; candidates after planning: ",
            candidates.as_str(),
            " (",
            percent,
            "%)",
        ];
        assert(shown(parts@) =~= candidates_parts(*s, percent@));
        join(&parts)
    } else {
        let parts: Vec<&str> = vec!["candidates:  ", candidates.as_str(), " (full scan)"];
        assert(shown(parts@) =~= candidates_parts(*s, percent@));
        join(&parts)
    }
}

/// The parts of the line on candidates.
pub open spec fn candidates_parts(s: SearchStats, percent: Seq<char>) -> Seq<Seq<char>> {
    if s.files_in_index > 0 {
        seq![
            "index:       "@,
            readable(s.files_in_index as nat),
            " files; candidates after planning: "@,
            readable(s.candidates as nat),
            " ("@,
            percent,
            "%)"@,
        ]
    } else {
        seq!["candidates:  "@, readable(s.candidates as nat), " (full scan)"@]
    }
}

/// The parts of what is said of a search.
pub open spec fn search_parts(
    s: SearchStats,
    percent: Seq<char>,
    lookup: Seq<char>,
    scan: Seq<char>,
    total: Seq<char>,
) -> Seq<Seq<char>> {
    seq![
        "query plan:  "@,
        s.query_display@,
        "\n"@,
        together(candidates_parts(s, percent)),
        "\nscanned:     "@,
        readable(s.files_scanned as nat),
        " files; matched "@,
        readable(s.lines_matched as nat),
        " lines in "@,
        readable(s.files_matched as nat),
        " files\ntiming:      postings "@,
        lookup,
        "µs · scan "@,
        scan,
        "µs · total "@,
        total,
        "ms"@,
    ]
}

/// What is said of a search. The share of the candidates is in percent, the
/// times in microseconds but for the total, in milliseconds.
pub fn search_report(
    s: &SearchStats,
    percent: &str,
    lookup: &str,
    scan: &str,
    total: &str,
) -> (r: String)
    ensures
        r@ == together(search_parts(*s, percent@, lookup@, scan@, total@)),
{
    let candidates = candidates_line(s, percent);
    let scanned = human_count(s.files_scanned);
    let lines = human_count(s.lines_matched);
    let files = human_count(s.files_matched);
    let parts: Vec<&str> = vec![
        "query plan:  ",
        s.query_display.as_str(),
        "\n",
        candidates.as_str(),
        "\nscanned:     ",
        scanned.as_str(),
        " files; matched ",
        lines.as_str(),
        " lines in ",
        files.as_str(),
        " files\ntiming:      postings ",
        lookup,
        "µs · scan ",
        scan,
        "µs · total ",
        total,
        "ms",
    ];
    assert(shown(parts@) =~= search_parts(*s, percent@, lookup@, scan@, total@));
    join(&parts)
}

/// What is known of an index.
#[derive(Debug)]
pub enum Known {
    /// It is of an older version.
    Old(u32),
    /// The number of its files and trigrams, and its size as text.
    Current { files: usize, trigrams: usize, size: String },
}

/// What is known of an overlay.
#[derive(Debug)]
pub struct KnownOverlay {
    pub files: usize,
    pub superseded: usize,
    pub size: String,
}

/// The parts of the line on an overlay, if there is one.
pub open spec fn overlay_parts(overlay: Option<KnownOverlay>) -> Seq<Seq<char>> {
    match overlay {
        None => Seq::empty(),
        Some(o) => seq![
            "overlay:  "@,
            readable(o.files as nat),
            " changed files, "@,
            readable(o.superseded as nat),
            " superseded ("@,
            o.size@,
            ") since the base was built\n"@,
        ],
    }
}

fn overlay_line(overlay: &Option<KnownOverlay>) -> (r: String)
    ensures
        r@ == together(overlay_parts(*overlay)),
{
    match overlay {
        None => String::new(),
        Some(o) => {
            let files = human_count(o.files);
            let superseded = human_count(o.superseded);
            let parts: Vec<&str> = vec![
                "overlay:  ",
                files.as_str(),
                " changed files, ",
                superseded.as_str(),
                " superseded (",
                o.size.as_str(),
                ") since the base was built\n",
            ];
            assert(shown(parts@) =~= overlay_parts(*overlay));
            join(&parts)
        },
    }
}

/// The parts of what is said of an index.
pub open spec fn status_parts(
    root: Seq<char>,
    path: Seq<char>,
    index: Known,
    overlay: Option<KnownOverlay>,
    live: bool,
) -> Seq<Seq<char>> {
    match index {
        Known::Old(v) => seq![
            "root:     "@,
            root,
            "\nindex:    "@,
            path,
            " (old format v"@,
            decimal(v as nat),
            ")\n          the next search rebuilds it automatically (or run: grix index)\n"@,
        ],
        Known::Current { files, trigrams, size } => seq![
            "root:     "@,
            root,
            "\nindex:    "@,
            path,
            "\nfiles:    "@,
            readable(files as nat),
            "\ntrigrams: "@,
            readable(trigrams as nat),
            "\nsize:     "@,
            size@,
            "\n"@,
            together(overlay_parts(overlay)),
            "watch:    "@,
                if live {
                "live (index kept fresh in the background)"@
                } else {
                "off (searches refresh the index themselves)"@
            },
            "\n"@,
        ],
    }
}

/// What is said of an index.
pub fn status_report(
    root: &str,
    path: &str,
    index: &Known,
    overlay: &Option<KnownOverlay>,
    live: bool,
) -> (r: String)
    ensures
        r@ == together(status_parts(root@, path@, *index, *overlay, live)),
{
    match index {
        Known::Old(v) => {
            let version = to_decimal(*v as u64);
            let parts: Vec<&str> = vec![
                "root:     ",
                root,
                "\nindex:    ",
                path,
                " (old format v",
                version.as_str(),
                ")\n          the next search rebuilds it automatically (or run: grix index)\n",
            ];
            assert(shown(parts@) =~= status_parts(root@, path@, *index, *overlay, live));
            join(&parts)
        },
        Known::Current { files, trigrams, size } => {
            let files = human_count(*files);
            let trigrams = human_count(*trigrams);
            let changes = overlay_line(overlay);
            let watch = if live {
                "live (index kept fresh in the background)"
            } else {
                "off (searches refresh the index themselves)"
            };
            let parts: Vec<&str> = vec![
                "root:     ",
                root,
                "\nindex:    ",
                path,
                "\nfiles:    ",
                files.as_str(),
                "\ntrigrams: ",
                trigrams.as_str(),
                "\nsize:     ",
                size.as_str(),
                "\n",
                changes.as_str(),
                "watch:    ",
                watch,
                "\n",
            ];
            assert(shown(parts@) =~= status_parts(root@, path@, *index, *overlay, live));
            join(&parts)
        },
    }
}

} // verus!
