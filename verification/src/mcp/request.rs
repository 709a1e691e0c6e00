//! Requests: what each asks for.

use crate::cli::route::{below, rel_below};
use crate::mcp::json::{
    copy_json, count_in, count_member, flag_in, flag_member, json_at, json_in, json_of, member,
    member_of, parse_json, text_in, text_member, Json,
};
use crate::search::options::SearchOptions;
use crate::text::{
    chars_of, forward, forward_slashes, push_str, same_text, string_of, texts, trim, trimmed,
};
use serde_json::Value;
use vstd::prelude::*;

verus! {

/// The protocol version for a client that names none.
pub const DEFAULT_PROTOCOL: &'static str = "2025-06-18";

/// How many matched lines are returned by default.
pub const DEFAULT_MAX_RESULTS: usize = 200;

/// The arguments of a tool.
#[derive(Debug)]
pub struct Args {
    pub pattern: Option<String>,
    pub path: Option<String>,
    pub glob: Option<String>,
    pub file_type: Option<String>,
    pub ignore_case: bool,
    pub fixed: bool,
    pub context: u64,
    pub max_results: Option<u64>,
}

/// The mathematical form of `Args`.
pub struct Given {
    pub pattern: Option<Seq<char>>,
    pub path: Option<Seq<char>>,
    pub glob: Option<Seq<char>>,
    pub file_type: Option<Seq<char>>,
    pub ignore_case: bool,
    pub fixed: bool,
    pub context: u64,
    pub max_results: Option<u64>,
}

pub open spec fn text_view(s: Option<String>) -> Option<Seq<char>> {
    match s {
        Some(s) => Some(s@),
        None => None,
    }
}

impl View for Args {
    type V = Given;

    open spec fn view(&self) -> Given {
        Given {
            pattern: text_view(self.pattern),
            path: text_view(self.path),
            glob: text_view(self.glob),
            file_type: text_view(self.file_type),
            ignore_case: self.ignore_case,
            fixed: self.fixed,
            context: self.context,
            max_results: self.max_results,
        }
    }
}

/// The arguments in a JSON value.
pub open spec fn given_in(j: Option<Json>) -> Given {
    Given {
        pattern: text_in(member(j, "pattern"@)),
        path: text_in(member(j, "path"@)),
        glob: text_in(member(j, "glob"@)),
        file_type: text_in(member(j, "type"@)),
        ignore_case: flag_in(member(j, "ignore_case"@)) == Some(true),
        fixed: flag_in(member(j, "fixed"@)) == Some(true),
        context: match count_in(member(j, "context"@)) {
            Some(n) => n,
            None => 0,
        },
        max_results: count_in(member(j, "max_results"@)),
    }
}

fn read_args(v: Option<&Value>) -> (r: Args)
    ensures
        r@ == given_in(json_at(v)),
{
    Args {
        pattern: text_member(v, "pattern"),
        path: text_member(v, "path"),
        glob: text_member(v, "glob"),
        file_type: text_member(v, "type"),
        ignore_case: match flag_member(v, "ignore_case") {
            Some(b) => b,
            None => false,
        },
        fixed: match flag_member(v, "fixed") {
            Some(b) => b,
            None => false,
        },
        context: match count_member(v, "context") {
            Some(n) => n,
            None => 0,
        },
        max_results: count_member(v, "max_results"),
    }
}

/// What a request asks for.
#[derive(Debug)]
pub enum Step {
    /// Say hello, in this version of the protocol.
    Initialize(String),
    /// Nothing to tell.
    Nothing,
    /// Tell the tools.
    Tools,
    /// Search and return matched lines.
    CodeSearch(Args),
    /// Search and return the files that match.
    ListMatchingFiles(Args),
    /// Refuse, with a code and a message.
    Refuse(i64, String),
}

/// The mathematical form of `Step`.
pub enum Asked {
    Initialize(Seq<char>),
    Nothing,
    Tools,
    CodeSearch(Given),
    ListMatchingFiles(Given),
    Refuse(int, Seq<char>),
}

impl View for Step {
    type V = Asked;

    open spec fn view(&self) -> Asked {
        match self {
            Step::Initialize(s) => Asked::Initialize(s@),
            Step::Nothing => Asked::Nothing,
            Step::Tools => Asked::Tools,
            Step::CodeSearch(a) => Asked::CodeSearch(a@),
            Step::ListMatchingFiles(a) => Asked::ListMatchingFiles(a@),
            Step::Refuse(code, message) => Asked::Refuse(*code as int, message@),
        }
    }
}

/// What a tool call asks for.
pub open spec fn call_asked(params: Option<Json>) -> Asked {
    if params is None {
        Asked::Refuse(-32602, "missing params"@)
    } else {
        match text_in(member(params, "name"@)) {
            None => Asked::Refuse(-32602, "missing tool name"@),
            Some(name) => if name == "code_search"@ {
                Asked::CodeSearch(given_in(member(params, "arguments"@)))
            } else if name == "list_matching_files"@ {
                Asked::ListMatchingFiles(given_in(member(params, "arguments"@)))
            } else {
                Asked::Refuse(-32602, "unknown tool: "@ + name)
            },
        }
    }
}

/// What a method asks for.
pub open spec fn asked(method: Seq<char>, params: Option<Json>) -> Asked {
    if method == "initialize"@ {
        match text_in(member(params, "protocolVersion"@)) {
            Some(protocol) => Asked::Initialize(protocol),
            None => Asked::Initialize(DEFAULT_PROTOCOL@),
        }
    } else if method == "ping"@ || method == "notifications/initialized"@ {
        Asked::Nothing
    } else if method == "tools/list"@ {
        Asked::Tools
    } else if method == "tools/call"@ {
        call_asked(params)
    } else {
        Asked::Refuse(-32601, "method not found: "@ + method)
    }
}

fn refusal(code: i64, what: &str, name: &str) -> (r: Step)
    ensures
        r@ == Asked::Refuse(code as int, what@ + name@),
{
    let mut text = chars_of(what);
    push_str(&mut text, name);
    Step::Refuse(code, string_of(&text))
}

fn tools_call(params: Option<&Value>) -> (r: Step)
    ensures
        r@ == call_asked(json_at(params)),
{
    if params.is_none() {
        return Step::Refuse(-32602, "missing params".to_owned());
    }
    let name = match text_member(params, "name") {
        Some(name) => name,
        None => {
            return Step::Refuse(-32602, "missing tool name".to_owned());
        },
    };
    let args = member_of(params, "arguments");
    if same_text(name.as_str(), "code_search") {
        Step::CodeSearch(read_args(args))
    } else if same_text(name.as_str(), "list_matching_files") {
        Step::ListMatchingFiles(read_args(args))
    } else {
        refusal(-32602, "unknown tool: ", name.as_str())
    }
}

/// What a method asks for.
pub fn handle(method: &str, params: Option<&Value>) -> (r: Step)
    ensures
        r@ == asked(method@, json_at(params)),
{
    if same_text(method, "initialize") {
        match text_member(params, "protocolVersion") {
            Some(protocol) => Step::Initialize(protocol),
            None => Step::Initialize(DEFAULT_PROTOCOL.to_owned()),
        }
    } else if same_text(method, "ping") || same_text(method, "notifications/initialized") {
        Step::Nothing
    } else if same_text(method, "tools/list") {
        Step::Tools
    } else if same_text(method, "tools/call") {
        tools_call(params)
    } else {
        refusal(-32601, "method not found: ", method)
    }
}

/// A line of the client: what it asks for, and the id to reply to. Requests
/// (with an id) get a reply; notifications do not.
#[derive(Debug)]
pub struct Request {
    pub id: Option<Value>,
    pub step: Step,
}

/// Reads a line; none where it is blank or not JSON.
pub fn read_request(line: &str) -> (r: Option<Request>)
    ensures
        match r {
            None => trimmed(line@).len() == 0 || json_of(trimmed(line@)) is None,
            Some(q) => trimmed(line@).len() > 0 && (json_of(trimmed(line@)) matches Some(j) && ({
                &&& q.step@ == asked(
                    match text_in(member(Some(j), "method"@)) {
                        Some(method) => method,
                        None => Seq::empty(),
                    },
                    member(Some(j), "params"@),
                )
                &&& member(Some(j), "id"@) == match q.id {
                    Some(id) => Some(json_in(id)),
                    None => None,
                }
            })),
        },
{
    let text = trim(&chars_of(line));
    if text.len() == 0 {
        return None;
    }
    let v = match parse_json(string_of(&text).as_str()) {
        Some(v) => v,
        None => {
            return None;
        },
    };
    let method = match text_member(Some(&v), "method") {
        Some(method) => method,
        None => String::new(),
    };
    let step = handle(method.as_str(), member_of(Some(&v), "params"));
    let id = match member_of(Some(&v), "id") {
        Some(id) => Some(copy_json(id)),
        None => None,
    };
    Some(Request { id, step })
}

/// The pattern to search for, which has to be there.
pub fn require_pattern(args: &Args) -> (r: Result<&str, String>)
    ensures
        match args@.pattern {
            Some(p) if p.len() > 0 => r matches Ok(s) && s@ == p,
            _ => r matches Err(e) && e@ == "missing required argument: pattern"@,
        },
{
    match &args.pattern {
        Some(p) => if !p.as_str().is_empty() {
            return Ok(p.as_str());
        },
        None => {},
    }
    Err("missing required argument: pattern".to_owned())
}

/// How many matched lines to return, at least one.
pub fn max_results(args: &Args) -> (r: usize)
    ensures
        r == ({
            let n = match args.max_results {
                Some(n) => n as usize,
                None => DEFAULT_MAX_RESULTS,
            };
            if n == 0 {
                1
            } else {
                n
            }
        }),
        args.max_results is None ==> r == 200,
        r >= 1,
{
    let n: usize = match args.max_results {
        Some(n) => n as usize,
        None => DEFAULT_MAX_RESULTS,
    };
    if n == 0 {
        1
    } else {
        n
    }
}

/// The scope of a resolved path: none for the whole tree, or outside it.
pub open spec fn scope_of(path: Option<Seq<char>>, root: Seq<char>) -> Option<Seq<char>> {
    match path {
        None => None,
        Some(p) => match below(p, root) {
            Some(rel) if rel.len() > 0 => Some(forward(rel)),
            _ => None,
        },
    }
}

/// The scope of a path argument, which was resolved where that was possible.
pub fn path_to_scope(resolved: Option<&str>, root: &str) -> (r: Option<String>)
    ensures
        text_view(r) == scope_of(
            match resolved {
                Some(p) => Some(p@),
                None => None,
            },
            root@,
        ),
{
    match resolved {
        None => None,
        Some(p) => match rel_below(p, root) {
            None => None,
            Some(rel) => {
                if rel.as_str().is_empty() {
                    None
                } else {
                    Some(forward_slashes(rel.as_str()))
                }
            },
        },
    }
}

/// The one text there is, or none.
pub open spec fn one_or_none(s: Option<Seq<char>>) -> Seq<Seq<char>> {
    match s {
        Some(s) => seq![s],
        None => Seq::empty(),
    }
}

fn list_of(s: Option<&String>) -> (r: Vec<String>)
    ensures
        texts(r@) == one_or_none(
            match s {
                Some(s) => Some(s@),
                None => None,
            },
        ),
{
    let mut r: Vec<String> = Vec::new();
    match s {
        Some(s) => {
            r.push(s.clone());
            assert(texts(r@) =~= seq![s@]);
        },
        None => {
            assert(texts(r@) =~= Seq::<Seq<char>>::empty());
        },
    }
    r
}

/// The options of a search. `matches_only` stops each file at its first
/// match.
pub fn build_opts(args: &Args, scope: Option<String>, matches_only: bool) -> (r: SearchOptions)
    ensures
        r.case_insensitive == args.ignore_case,
        r.fixed_string == args.fixed,
        r.matches_only == matches_only,
        r.before == args.context as usize,
        r.after == args.context as usize,
        texts(r.globs@) == one_or_none(text_view(args.glob)),
        texts(r.types_select@) == one_or_none(text_view(args.file_type)),
        texts(r.path_scopes@) == one_or_none(text_view(scope)),
        r.types_negate@.len() == 0,
        r.threads is None,
        r.max_count is None,
        !r.multiline && !r.word && !r.invert && !r.only_matching && !r.smart_case && !r.hidden
            && !r.no_ignore,
{
    let context: usize = args.context as usize;
    let mut r = SearchOptions::default();
    r.case_insensitive = args.ignore_case;
    r.fixed_string = args.fixed;
    r.matches_only = matches_only;
    r.before = context;
    r.after = context;
    r.globs = list_of(args.glob.as_ref());
    r.types_select = list_of(args.file_type.as_ref());
    r.path_scopes = list_of(scope.as_ref());
    r
}

} // verus!
