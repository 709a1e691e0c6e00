//! Filename-based filtering.

use crate::search::options::{SearchError, SearchOptions};
use crate::text::{chars_of, push_str, string_of, texts};
use ignore::overrides::{Override, OverrideBuilder};
use ignore::types::{Types, TypesBuilder};
use vstd::prelude::*;

verus! {

/// A set of globs in the making.
#[verifier::external_type_specification]
#[verifier::external_body]
pub struct ExOverrideBuilder(ignore::overrides::OverrideBuilder);

/// A set of globs.
#[verifier::external_type_specification]
#[verifier::external_body]
pub struct ExOverride(ignore::overrides::Override);

/// A set of file types in the making.
#[verifier::external_type_specification]
#[verifier::external_body]
pub struct ExTypesBuilder(ignore::types::TypesBuilder);

/// A set of file types.
#[verifier::external_type_specification]
#[verifier::external_body]
pub struct ExTypes(ignore::types::Types);

/// The globs that were added.
pub uninterp spec fn added_globs(b: OverrideBuilder) -> Seq<Seq<char>>;

/// The globs of a set.
pub uninterp spec fn globs_of(o: Override) -> Seq<Seq<char>>;

/// The file types that were asked for, in order, with whether each is
/// selected or else negated.
pub uninterp spec fn added_types(b: TypesBuilder) -> Seq<(bool, Seq<char>)>;

/// The file types of a set.
pub uninterp spec fn types_of(t: Types) -> Seq<(bool, Seq<char>)>;

/// What is wrong with a glob, if anything.
pub uninterp spec fn glob_fault(glob: Seq<char>) -> Option<Seq<char>>;

/// What is wrong with globs together, if anything.
pub uninterp spec fn globs_fault(globs: Seq<Seq<char>>) -> Option<Seq<char>>;

/// Whether globs leave a file out.
pub uninterp spec fn globs_ignore(globs: Seq<Seq<char>>, path: Seq<char>) -> bool;

/// What is wrong with a choice of file types, if anything.
pub uninterp spec fn types_fault(types: Seq<(bool, Seq<char>)>) -> Option<Seq<char>>;

/// Whether file types leave a file out.
pub uninterp spec fn types_ignore(types: Seq<(bool, Seq<char>)>, path: Seq<char>) -> bool;

/// A text as Rust's `Debug` shows it.
pub uninterp spec fn quoted(s: Seq<char>) -> Seq<char>;

/// `OverrideBuilder::new` for the current directory holds no globs.
#[verifier::external_body]
fn new_globs() -> (b: OverrideBuilder)
    ensures
        added_globs(b) == Seq::<Seq<char>>::empty(),
{
    OverrideBuilder::new(".")
}

/// `OverrideBuilder::add` adds a glob, or gives the text of the glob's error.
#[verifier::external_body]
fn add_glob(b: &mut OverrideBuilder, glob: &str) -> (r: Result<(), String>)
    ensures
        match r {
            Ok(_) => glob_fault(glob@) is None && added_globs(*final(b)) == added_globs(
                *old(b),
            ).push(glob@),
            Err(e) => glob_fault(glob@) == Some(e@),
        },
{
    b.add(glob).map(|_| ()).map_err(|e| e.to_string())
}

/// `OverrideBuilder::build` gives the set of the globs added, or the text of
/// the error.
#[verifier::external_body]
fn build_globs(b: &OverrideBuilder) -> (r: Result<Override, String>)
    ensures
        match r {
            Ok(o) => globs_fault(added_globs(*b)) is None && globs_of(o) == added_globs(*b),
            Err(e) => globs_fault(added_globs(*b)) == Some(e@),
        },
{
    b.build().map_err(|e| e.to_string())
}

/// `Override::matched` for a file, and whether that says to leave it out.
#[verifier::external_body]
fn ignored_by_globs(o: &Override, path: &str) -> (r: bool)
    ensures
        r == globs_ignore(globs_of(*o), path@),
{
    o.matched(path, false).is_ignore()
}

/// `TypesBuilder::new` with `add_defaults`: the known file types, none asked
/// for yet.
#[verifier::external_body]
fn new_types() -> (b: TypesBuilder)
    ensures
        added_types(b) == Seq::<(bool, Seq<char>)>::empty(),
{
    let mut b = TypesBuilder::new();
    b.add_defaults();
    b
}

/// `TypesBuilder::select` asks for a file type.
#[verifier::external_body]
fn select_type(b: &mut TypesBuilder, name: &str)
    ensures
        added_types(*final(b)) == added_types(*old(b)).push((true, name@)),
{
    b.select(name);
}

/// `TypesBuilder::negate` asks for a file type to be left out.
#[verifier::external_body]
fn negate_type(b: &mut TypesBuilder, name: &str)
    ensures
        added_types(*final(b)) == added_types(*old(b)).push((false, name@)),
{
    b.negate(name);
}

/// `TypesBuilder::build` gives the set of the types asked for, or the text of
/// the error.
#[verifier::external_body]
fn build_types(b: &TypesBuilder) -> (r: Result<Types, String>)
    ensures
        match r {
            Ok(t) => types_fault(added_types(*b)) is None && types_of(t) == added_types(*b),
            Err(e) => types_fault(added_types(*b)) == Some(e@),
        },
{
    b.build().map_err(|e| e.to_string())
}

/// `Types::matched` for a file, and whether that says to leave it out.
#[verifier::external_body]
fn ignored_by_types(t: &Types, path: &str) -> (r: bool)
    ensures
        r == types_ignore(types_of(*t), path@),
{
    t.matched(path, false).is_ignore()
}

/// A file type and the globs that it is known by.
#[derive(Debug)]
pub struct TypeDef {
    pub name: String,
    pub globs: Vec<String>,
}

/// The file types that a set knows, whether or not they are asked for.
pub uninterp spec fn types_known(types: Seq<(bool, Seq<char>)>) -> Seq<(Seq<char>, Seq<Seq<char>>)>;

/// The mathematical form of file types.
pub open spec fn type_defs(defs: Seq<TypeDef>) -> Seq<(Seq<char>, Seq<Seq<char>>)> {
    Seq::new(defs.len(), |i: int| (defs[i].name@, texts(defs[i].globs@)))
}

/// `Types::definitions`: the known file types in the order of their names,
/// each with its name and globs. Only that they are a function of what the set
/// was made from is claimed.
#[verifier::external_body]
fn known_types(t: &Types) -> (r: Vec<TypeDef>)
    ensures
        type_defs(r@) == types_known(types_of(*t)),
{
    let defs = t.definitions().iter();
    defs.map(|d| TypeDef { name: d.name().to_owned(), globs: d.globs().to_vec() }).collect()
}

/// The `Debug` form of a string.
#[verifier::external_body]
fn quote(s: &str) -> (r: String)
    ensures
        r@ == quoted(s@),
{
    format!("{s:?}")
}

/// The types asked for: those selected, then those negated.
pub open spec fn asked_types(select: Seq<Seq<char>>, negate: Seq<Seq<char>>) -> Seq<
    (bool, Seq<char>),
> {
    Seq::new(select.len(), |i: int| (true, select[i])) + Seq::new(
        negate.len(),
        |i: int| (false, negate[i]),
    )
}

/// Filename-based filtering (-g / -t / -T), built from `SearchOptions` once
/// per search. Reuses the same glob and type machinery as ripgrep.
pub struct FileFilter {
    overrides: Option<Override>,
    types: Option<Types>,
}

/// Texts with a separator between them.
pub open spec fn listed(items: Seq<Seq<char>>, separator: Seq<char>) -> Seq<char>
    decreases items.len(),
{
    if items.len() == 0 {
        Seq::empty()
    } else if items.len() == 1 {
        items[0]
    } else {
        listed(items.drop_last(), separator) + separator + items.last()
    }
}

/// The first `n` file types, one on each line.
pub open spec fn type_lines(defs: Seq<(Seq<char>, Seq<Seq<char>>)>, n: int) -> Seq<char>
    decreases n,
{
    if n <= 0 {
        Seq::empty()
    } else {
        type_lines(defs, n - 1) + defs[n - 1].0 + ": "@ + listed(defs[n - 1].1, ", "@) + "\n"@
    }
}

fn push_globs(out: &mut Vec<char>, globs: &Vec<String>)
    ensures
        final(out)@ == old(out)@ + listed(texts(globs@), ", "@),
{
    let ghost all = texts(globs@);
    let ghost before = out@;
    assert(all.take(0) =~= Seq::<Seq<char>>::empty());
    for i in 0..globs.len()
        invariant
            all == texts(globs@),
            out@ == before + listed(all.take(i as int), ", "@),
    {
        if i > 0 {
            push_str(out, ", ");
        }
        push_str(out, globs[i].as_str());
        assert(all.take(i as int + 1).drop_last() =~= all.take(i as int));
        assert(out@ =~= before + listed(all.take(i as int + 1), ", "@));
    }
    assert(all.take(all.len() as int) =~= all);
}

/// File types as text, one on each line.
pub fn format_types(defs: &Vec<TypeDef>) -> (r: String)
    ensures
        r@ == type_lines(type_defs(defs@), defs@.len() as int),
{
    let ghost all = type_defs(defs@);
    let mut out: Vec<char> = Vec::new();
    for i in 0..defs.len()
        invariant
            all == type_defs(defs@),
            out@ == type_lines(all, i as int),
    {
        let d = &defs[i];
        push_str(&mut out, d.name.as_str());
        push_str(&mut out, ": ");
        push_globs(&mut out, &d.globs);
        push_str(&mut out, "\n");
    }
    string_of(&out)
}

/// The file types that can be asked for, one on each line, like rg.
pub fn type_list() -> (r: Result<String, String>)
    ensures
        ({
            let none = Seq::<(bool, Seq<char>)>::empty();
            match r {
                Ok(text) => types_fault(none) is None && text@ == type_lines(
                    types_known(none),
                    types_known(none).len() as int,
                ),
                Err(e) => types_fault(none) == Some(e@),
            }
        }),
{
    match build_types(&new_types()) {
        Ok(t) => {
            let defs = known_types(&t);
            Ok(format_types(&defs))
        },
        Err(e) => Err(e),
    }
}

/// What a filter leaves out.
pub struct FilterRules {
    /// Globs, if there are any.
    pub globs: Option<Seq<Seq<char>>>,
    /// File types, if any are asked for.
    pub types: Option<Seq<(bool, Seq<char>)>>,
}

/// The rules that options ask for.
pub open spec fn rules_of(opts: SearchOptions) -> FilterRules {
    FilterRules {
        globs: if opts.globs@.len() == 0 {
            None
        } else {
            Some(texts(opts.globs@))
        },
        types: if opts.types_select@.len() == 0 && opts.types_negate@.len() == 0 {
            None
        } else {
            Some(asked_types(texts(opts.types_select@), texts(opts.types_negate@)))
        },
    }
}

/// Whether a file passes the glob and type filters.
pub open spec fn accepted(rules: FilterRules, path: Seq<char>) -> bool {
    (rules.globs matches Some(globs) ==> !globs_ignore(globs, path)) && (rules.types matches Some(
        types,
    ) ==> !types_ignore(types, path))
}

/// What is wrong with the rules, if anything: the first bad glob, the globs
/// together, or the types.
pub open spec fn rules_fault(rules: FilterRules) -> Option<Seq<char>> {
    match globs_message(rules.globs) {
        Some(message) => Some(message),
        None => match rules.types {
            Some(types) => match types_fault(types) {
                Some(e) => Some("unknown file type: "@ + e),
                None => None,
            },
            None => None,
        },
    }
}

/// What is wrong with globs, if anything.
pub open spec fn globs_message(globs: Option<Seq<Seq<char>>>) -> Option<Seq<char>> {
    match globs {
        Some(globs) => match bad_glob(globs, globs.len() as int) {
            Some(message) => Some(message),
            None => match globs_fault(globs) {
                Some(e) => Some("bad glob: "@ + e),
                None => None,
            },
        },
        None => None,
    }
}

/// The message on the first bad glob among the first `n`, if there is one.
pub open spec fn bad_glob(globs: Seq<Seq<char>>, n: int) -> Option<Seq<char>>
    decreases n,
{
    if n <= 0 {
        None
    } else {
        match bad_glob(globs, n - 1) {
            Some(message) => Some(message),
            None => match glob_fault(globs[n - 1]) {
                Some(e) => Some("bad glob "@ + quoted(globs[n - 1]) + ": "@ + e),
                None => None,
            },
        }
    }
}

proof fn lemma_bad_glob_stays(globs: Seq<Seq<char>>, k: int, n: int)
    requires
        0 <= k <= n,
        bad_glob(globs, k) is Some,
    ensures
        bad_glob(globs, n) == bad_glob(globs, k),
    decreases n,
{
    if k < n {
        lemma_bad_glob_stays(globs, k, n - 1);
    }
}

/// Two texts, one after the other.
fn joined_text(a: &str, b: &str) -> (r: String)
    ensures
        r@ == a@ + b@,
{
    let mut t: Vec<char> = Vec::new();
    push_str(&mut t, a);
    push_str(&mut t, b);
    assert(t@ =~= a@ + b@);
    string_of(&t)
}

fn build_overrides(globs: &Vec<String>) -> (r: Result<Override, String>)
    ensures
        match r {
            Ok(o) => globs_message(Some(texts(globs@))) is None && globs_of(o) == texts(globs@),
            Err(e) => globs_message(Some(texts(globs@))) == Some(e@),
        },
{
    let ghost all = texts(globs@);
    let mut b = new_globs();
    assert(all.take(0) =~= Seq::<Seq<char>>::empty());
    for i in 0..globs.len()
        invariant
            all == texts(globs@),
            added_globs(b) == all.take(i as int),
            bad_glob(all, i as int) is None,
    {
        assert(all[i as int] == globs@[i as int]@);
        match add_glob(&mut b, globs[i].as_str()) {
            Ok(_) => {
                assert(all.take(i as int).push(all[i as int]) =~= all.take(i as int + 1));
            },
            Err(e) => {
                let mut t: Vec<char> = Vec::new();
                push_str(&mut t, "bad glob ");
                push_str(&mut t, quote(globs[i].as_str()).as_str());
                push_str(&mut t, ": ");
                push_str(&mut t, e.as_str());
                assert(t@ =~= "bad glob "@ + quoted(all[i as int]) + ": "@ + e@);
                proof {
                    lemma_bad_glob_stays(all, i as int + 1, all.len() as int);
                }
                return Err(string_of(&t));
            },
        }
    }
    assert(all.take(all.len() as int) =~= all);
    match build_globs(&b) {
        Ok(o) => Ok(o),
        Err(e) => Err(joined_text("bad glob: ", e.as_str())),
    }
}

fn build_type_set(select: &Vec<String>, negate: &Vec<String>) -> (r: Result<Types, String>)
    ensures
        ({
            let asked = asked_types(texts(select@), texts(negate@));
            match r {
                Ok(t) => types_fault(asked) is None && types_of(t) == asked,
                Err(e) => types_fault(asked) matches Some(f) && e@ == "unknown file type: "@ + f,
            }
        }),
{
    let ghost asked = asked_types(texts(select@), texts(negate@));
    let mut b = new_types();
    assert(asked.take(0) =~= Seq::<(bool, Seq<char>)>::empty());
    for i in 0..select.len()
        invariant
            asked == asked_types(texts(select@), texts(negate@)),
            added_types(b) == asked.take(i as int),
    {
        select_type(&mut b, select[i].as_str());
        assert(asked[i as int] == (true, select@[i as int]@));
        assert(asked.take(i as int).push(asked[i as int]) =~= asked.take(i as int + 1));
    }
    for i in 0..negate.len()
        invariant
            asked == asked_types(texts(select@), texts(negate@)),
            added_types(b) == asked.take(select@.len() + i),
    {
        negate_type(&mut b, negate[i].as_str());
        let ghost k = select@.len() + i;
        assert(asked[k] == (false, negate@[i as int]@));
        assert(asked.take(k).push(asked[k]) =~= asked.take(k + 1));
    }
    assert(asked.take(asked.len() as int) =~= asked);
    match build_types(&b) {
        Ok(t) => Ok(t),
        Err(e) => Err(joined_text("unknown file type: ", e.as_str())),
    }
}

impl FileFilter {
    /// The rules of the filter.
    pub closed spec fn rules(&self) -> FilterRules {
        FilterRules {
            globs: match self.overrides {
                Some(o) => Some(globs_of(o)),
                None => None,
            },
            types: match self.types {
                Some(t) => Some(types_of(t)),
                None => None,
            },
        }
    }

    pub fn build(opts: &SearchOptions) -> (r: Result<FileFilter, SearchError>)
        ensures
            match r {
                Ok(f) => rules_fault(rules_of(*opts)) is None && f.rules() == rules_of(*opts),
                Err(SearchError::BadPattern(e)) => rules_fault(rules_of(*opts)) == Some(e@),
                Err(_) => false,
            },
            r matches Ok(f) ==> {
                &&& opts.globs@.len() > 0 ==> f.rules().globs == Some(texts(opts.globs@))
                &&& opts.types_select@.len() > 0 || opts.types_negate@.len() > 0
                    ==> f.rules().types == Some(
                    asked_types(texts(opts.types_select@), texts(opts.types_negate@)),
                )
            },
    {
        let overrides = if opts.globs.len() == 0 {
            None
        } else {
            match build_overrides(&opts.globs) {
                Ok(o) => Some(o),
                Err(e) => {
                    return Err(SearchError::BadPattern(e));
                },
            }
        };
        let types = if opts.types_select.len() == 0 && opts.types_negate.len() == 0 {
            None
        } else {
            match build_type_set(&opts.types_select, &opts.types_negate) {
                Ok(t) => Some(t),
                Err(e) => {
                    return Err(SearchError::BadPattern(e));
                },
            }
        };
        Ok(FileFilter { overrides, types })
    }

    /// True when a file at `rel` (a `/`-separated relative path) passes the
    /// glob and type filters.
    pub fn accept(&self, rel: &str) -> (r: bool)
        ensures
            r == accepted(self.rules(), rel@),
            r ==> (self.rules().globs matches Some(globs) ==> !globs_ignore(globs, rel@)),
            r ==> (self.rules().types matches Some(types) ==> !types_ignore(types, rel@)),
    {
        match &self.overrides {
            Some(o) => {
                if ignored_by_globs(o, rel) {
                    return false;
                }
            },
            None => {},
        }
        match &self.types {
            Some(t) => {
                if ignored_by_types(t, rel) {
                    return false;
                }
            },
            None => {},
        }
        true
    }
}

/// Whether a path is a scope or sits under it.
pub open spec fn under(path: Seq<char>, scope: Seq<char>) -> bool {
    path == scope || (path.len() > scope.len() && path[scope.len() as int] == '/' && path.take(
        scope.len() as int,
    ) == scope)
}

/// Whether a path is in scope: no scopes means everything.
pub open spec fn scoped(path: Seq<char>, scopes: Seq<Seq<char>>) -> bool {
    scopes.len() == 0 || exists|i: int| 0 <= i < scopes.len() && #[trigger] under(path, scopes[i])
}

fn is_under(path: &Vec<char>, scope: &str) -> (r: bool)
    ensures
        r == under(path@, scope@),
{
    let s = chars_of(scope);
    if path.len() < s.len() {
        return false;
    }
    for i in 0..s.len()
        invariant
            s@ == scope@,
            s@.len() <= path@.len(),
            forall|k: int| 0 <= k < i ==> path@[k] == s@[k],
    {
        if path[i] != s[i] {
            assert(path@.take(s@.len() as int)[i as int] != s@[i as int]);
            return false;
        }
    }
    assert(path@.take(s@.len() as int) =~= s@);
    if path.len() == s.len() {
        assert(path@ =~= s@);
        true
    } else {
        path[s.len()] == '/'
    }
}

/// True when `rel` is in scope: no scopes means everything, otherwise the
/// path must equal one scope (file) or be nested under one (directory).
pub fn in_scope(rel: &str, scopes: &[String]) -> (r: bool)
    ensures
        r == scoped(rel@, texts(scopes@)),
{
    if scopes.len() == 0 {
        return true;
    }
    let path = chars_of(rel);
    for i in 0..scopes.len()
        invariant
            path@ == rel@,
            forall|k: int| 0 <= k < i ==> !under(rel@, #[trigger] texts(scopes@)[k]),
    {
        assert(texts(scopes@)[i as int] == scopes@[i as int]@);
        if is_under(&path, scopes[i].as_str()) {
            assert(under(rel@, texts(scopes@)[i as int]));
            return true;
        }
    }
    false
}

/// The types asked for are those selected and those negated, each as such.
pub proof fn law_types_are_asked_for_as_given(
    select: Seq<Seq<char>>,
    negate: Seq<Seq<char>>,
    name: Seq<char>,
)
    ensures
        asked_types(select, negate).contains((true, name)) <==> select.contains(name),
        asked_types(select, negate).contains((false, name)) <==> negate.contains(name),
        asked_types(select, negate).len() == select.len() + negate.len(),
{
    let all = asked_types(select, negate);
    if select.contains(name) {
        let i = choose|i: int| 0 <= i < select.len() && select[i] == name;
        assert(all[i] == (true, name));
    }
    if negate.contains(name) {
        let i = choose|i: int| 0 <= i < negate.len() && negate[i] == name;
        assert(all[select.len() + i] == (false, name));
    }
    if all.contains((true, name)) {
        let i = choose|i: int| 0 <= i < all.len() && all[i] == (true, name);
        assert(select[i] == name);
    }
    if all.contains((false, name)) {
        let i = choose|i: int| 0 <= i < all.len() && all[i] == (false, name);
        assert(negate[i - select.len()] == name);
    }
}

/// --type-list: each type stands on a line of its own, with its globs behind
/// it, commas between them.
pub proof fn law_each_type_has_a_line(
    defs: Seq<(Seq<char>, Seq<Seq<char>>)>,
    name: Seq<char>,
    globs: Seq<Seq<char>>,
    last: Seq<char>,
)
    ensures
        type_lines(defs.push((name, globs.push(last))), defs.len() as int + 1) == type_lines(
            defs,
            defs.len() as int,
        ) + name + ": "@ + (if globs.len() == 0 {
            last
        } else {
            listed(globs, ", "@) + ", "@ + last
        }) + "\n"@,
{
    lemma_same_types(defs, defs.push((name, globs.push(last))), defs.len() as int);
    assert(globs.push(last).drop_last() =~= globs);
}

proof fn lemma_same_types(
    a: Seq<(Seq<char>, Seq<Seq<char>>)>,
    b: Seq<(Seq<char>, Seq<Seq<char>>)>,
    n: int,
)
    requires
        n <= a.len() <= b.len(),
        forall|i: int| 0 <= i < a.len() ==> a[i] == b[i],
    ensures
        type_lines(a, n) == type_lines(b, n),
    decreases n,
{
    if n > 0 {
        lemma_same_types(a, b, n - 1);
    }
}

} // verus!
