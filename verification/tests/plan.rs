use grix::plan::{plan, Query};
use grix::trigram::pack_str;

fn q(pattern: &str) -> String {
    plan(pattern, false).unwrap().display()
}

fn qi(pattern: &str) -> String {
    plan(pattern, true).unwrap().display()
}

#[test]
fn literals() {
    assert_eq!(q("abc"), r#""abc""#);
    assert_eq!(q("Abcdef"), r#""Abc" "bcd" "cde" "def""#);
    // Too short to constrain.
    assert_eq!(q("ab"), "ALL");
    assert_eq!(q("a"), "ALL");
    assert_eq!(q(""), "ALL");
}

#[test]
fn concat_groups() {
    assert_eq!(q("(abc)(def)"), r#""abc" "bcd" "cde" "def""#);
    assert_eq!(q("abc.*def"), r#""abc" "def""#);
    assert_eq!(q("abc.def"), r#""abc" "def""#);
}

#[test]
fn alternations() {
    assert_eq!(q("abc|def"), r#"("abc"|"def")"#);
    assert_eq!(
        q("abcdef|ghijkl"),
        r#"("abc" "bcd" "cde" "def"|"ghi" "hij" "ijk" "jkl")"#
    );
    // One branch unconstrained poisons the whole alternation -> ALL.
    assert_eq!(q("abc|a"), "ALL");
}

#[test]
fn repetitions() {
    assert_eq!(q("(abc)*"), "ALL");
    assert_eq!(q("(abcd)+"), r#""abc" "bcd""#);
    assert_eq!(q("(abc)+"), r#""abc""#);
    assert_eq!(q("(abc)?def"), r#""def""#);
    // x{2,} behaves like x+
    assert_eq!(q("(abcd){2,}"), r#""abc" "bcd""#);
}

#[test]
fn anchors_and_boundaries() {
    assert_eq!(q("^abc$"), r#""abc""#);
    assert_eq!(q(r"\babcd\b"), r#""abc" "bcd""#);
}

#[test]
fn classes() {
    // [ab]cde -> acd|bcd plus shared tail
    assert_eq!(q("[ab]cde"), r#"("acd" "cde"|"bcd" "cde")"#);
    // Big classes give up on the class but keep neighbors.
    assert_eq!(q("[a-z]abcd"), r#""abc" "bcd""#);
    assert_eq!(q(r"\wabcd"), r#""abc" "bcd""#);
    assert_eq!(q(r"\d+foobar"), r#""bar" "foo" "oba" "oob""#);
}

#[test]
fn case_insensitive() {
    // (?i)abcd explodes into case variants; all still constrain.
    let plan = qi("abcd");
    assert!(plan.contains("abc") || plan.contains("ABC"), "{plan}");
    assert_ne!(plan, "ALL");
    // Long case-insensitive literals must not blow up.
    let plan = qi("intermediate_representation");
    assert_ne!(plan, "ALL");
}

#[test]
fn pathological_degrade_to_all() {
    assert_eq!(q(".*"), "ALL");
    assert_eq!(q("a.*b"), "ALL");
    assert_eq!(q(r"\w+"), "ALL");
    assert_eq!(q("[^a]xyz[^b]"), r#""xyz""#);
}

#[test]
fn never_none_for_matchable() {
    // A planner bug that yields NONE would silently hide results.
    for p in ["abc", "a|b", "x{0,3}", "(a)(b)(c)", "^$", "[0-9]+"] {
        let query = plan(p, false).unwrap();
        assert_ne!(query, Query::Nothing, "pattern {p} planned to NONE");
    }
}

#[test]
fn bad_syntax_is_an_error() {
    assert!(plan("f(oo", false).is_err());
    assert!(plan("[z-a]", true).is_err());
}

#[test]
fn combining_queries() {
    let t = |s: &[u8]| Query::Tri(pack_str(s));
    assert_eq!(Query::All.and(t(b"abc")), t(b"abc"));
    assert_eq!(Query::All.or(t(b"abc")), Query::All);
    assert_eq!(Query::Nothing.and(t(b"abc")), Query::Nothing);
    assert_eq!(Query::Nothing.or(t(b"abc")), t(b"abc"));
    assert_eq!(t(b"abc").and(t(b"abc")), t(b"abc"));
    assert_eq!(t(b"def").and(t(b"abc")).display(), r#""abc" "def""#);
    assert_eq!(t(b"def").or(t(b"abc")).display(), r#"("abc"|"def")"#);
    assert_eq!(Query::Nothing.display(), "NONE");
    assert_eq!(Query::All.display(), "ALL");
}

#[test]
fn a_small_class_between_literals_is_enumerated() {
    assert_eq!(
        q("a[0-9]z"),
        r#"("a0z"|"a1z"|"a2z"|"a3z"|"a4z"|"a5z"|"a6z"|"a7z"|"a8z"|"a9z")"#
    );
}

#[test]
fn display_does_not_depend_on_the_order_of_parts() {
    let t = |s: &[u8]| Query::Tri(pack_str(s));
    let ab = Query::Or(vec![Query::And(vec![t(b"abc"), t(b"bcd")]), t(b"xyz")]);
    let ba = Query::Or(vec![t(b"xyz"), Query::And(vec![t(b"bcd"), t(b"abc")])]);
    assert_eq!(ab.display(), ba.display());
    assert_eq!(ab.display(), r#"("abc" "bcd"|"xyz")"#);
}
