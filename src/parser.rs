//! Reads the configuration language into target declarations.
//!
//! The grammar, over the tokens of the text:
//! `file := ('path' IDENT ('deps' NUM+ | 'run' IDENT+ | 'always' IDENT+)*)*`.
//! `deps` names earlier or later targets by their zero-based position.
use vstd::prelude::*;

use crate::lexer::{tokens_of, Lexer};
use crate::graph::Graph;
use crate::target::{strings_view, HashedCommand, Target};
use crate::token::{Token, TokenView};

verus! {

/// A command as written: a program and its arguments.
#[derive(Debug)]
pub struct Cmd {
    pub program: String,
    pub args: Vec<String>,
}

pub struct CmdView {
    pub program: Seq<char>,
    pub args: Seq<Seq<char>>,
}

impl View for Cmd {
    type V = CmdView;

    open spec fn view(&self) -> CmdView {
        CmdView { program: self.program@, args: strings_view(self.args@) }
    }
}

/// One target as declared: its path, the positions of its inputs, its
/// gated commands and its always-commands.
#[derive(Debug)]
pub struct TargetDecl {
    pub path: String,
    pub deps: Vec<usize>,
    pub cmds: Vec<Cmd>,
    pub always: Vec<Cmd>,
}

pub struct DeclView {
    pub path: Seq<char>,
    pub deps: Seq<usize>,
    pub cmds: Seq<CmdView>,
    pub always: Seq<CmdView>,
}

pub open spec fn cmds_view(v: Seq<Cmd>) -> Seq<CmdView> {
    v.map_values(|c: Cmd| c@)
}

impl View for TargetDecl {
    type V = DeclView;

    open spec fn view(&self) -> DeclView {
        DeclView {
            path: self.path@,
            deps: self.deps@,
            cmds: cmds_view(self.cmds@),
            always: cmds_view(self.always@),
        }
    }
}

pub open spec fn decls_view(v: Seq<TargetDecl>) -> Seq<DeclView> {
    v.map_values(|d: TargetDecl| d@)
}

/// Where the reader stands in the grammar.
#[derive(Debug, Clone, Copy, PartialEq, Eq, Structural)]
pub enum Mode {
    /// No target declared yet.
    Start,
    /// After `path`: a path must follow.
    ExpectPath,
    /// Inside a target, between clauses.
    InDecl,
    /// After `deps`: a number must follow.
    DepsFirst,
    /// Inside a `deps` clause.
    InDeps,
    /// After `run` (false) or `always` (true): a program must follow.
    RunFirst(bool),
    /// Inside a `run` (false) or `always` (true) clause.
    InRun(bool),
}

/// Why a configuration text was refused.
#[derive(Debug, PartialEq, Eq, Clone)]
pub enum ConfigError {
    /// A token stands where a keyword must.
    UnexpectedToken,
    /// `path` is not followed by a path.
    ExpectedPath,
    /// `deps`, `run` or `always` has no value.
    DanglingKeyword,
    /// `deps`, `run` or `always` comes before any `path`.
    KeywordBeforePath,
    /// A quoted identifier is never closed.
    UnterminatedQuote,
    /// A dependency names no declared target.
    UndefinedDependency(usize),
    /// Two targets have the same path.
    DuplicatePath(String),
}

pub enum ConfigErrorView {
    UnexpectedToken,
    ExpectedPath,
    DanglingKeyword,
    KeywordBeforePath,
    UnterminatedQuote,
    UndefinedDependency(usize),
    DuplicatePath(Seq<char>),
}

impl View for ConfigError {
    type V = ConfigErrorView;

    open spec fn view(&self) -> ConfigErrorView {
        match self {
            ConfigError::UnexpectedToken => ConfigErrorView::UnexpectedToken,
            ConfigError::ExpectedPath => ConfigErrorView::ExpectedPath,
            ConfigError::DanglingKeyword => ConfigErrorView::DanglingKeyword,
            ConfigError::KeywordBeforePath => ConfigErrorView::KeywordBeforePath,
            ConfigError::UnterminatedQuote => ConfigErrorView::UnterminatedQuote,
            ConfigError::UndefinedDependency(d) => ConfigErrorView::UndefinedDependency(*d),
            ConfigError::DuplicatePath(p) => ConfigErrorView::DuplicatePath(p@),
        }
    }
}

pub struct ParseState {
    pub mode: Mode,
    pub decls: Seq<DeclView>,
}

pub open spec fn new_decl(p: Seq<char>) -> DeclView {
    DeclView { path: p, deps: Seq::empty(), cmds: Seq::empty(), always: Seq::empty() }
}

pub open spec fn add_dep(ds: Seq<DeclView>, n: usize) -> Seq<DeclView> {
    let d = ds.last();
    ds.update(ds.len() - 1, DeclView { deps: d.deps.push(n), ..d })
}

pub open spec fn add_cmd(ds: Seq<DeclView>, always: bool, p: Seq<char>) -> Seq<DeclView> {
    let d = ds.last();
    let c = CmdView { program: p, args: Seq::empty() };
    if always {
        ds.update(ds.len() - 1, DeclView { always: d.always.push(c), ..d })
    } else {
        ds.update(ds.len() - 1, DeclView { cmds: d.cmds.push(c), ..d })
    }
}

pub open spec fn last_arg_pushed(cs: Seq<CmdView>, x: Seq<char>) -> Seq<CmdView> {
    let c = cs.last();
    cs.update(cs.len() - 1, CmdView { args: c.args.push(x), ..c })
}

pub open spec fn add_arg(ds: Seq<DeclView>, always: bool, x: Seq<char>) -> Seq<DeclView> {
    let d = ds.last();
    if always {
        ds.update(ds.len() - 1, DeclView { always: last_arg_pushed(d.always, x), ..d })
    } else {
        ds.update(ds.len() - 1, DeclView { cmds: last_arg_pushed(d.cmds, x), ..d })
    }
}

/// A token where a keyword is expected.
pub open spec fn keyword_step(st: ParseState, t: TokenView) -> Result<ParseState, ConfigErrorView> {
    match t {
        TokenView::Path => Ok(ParseState { mode: Mode::ExpectPath, ..st }),
        TokenView::Deps => if st.mode == Mode::Start {
            Err(ConfigErrorView::KeywordBeforePath)
        } else {
            Ok(ParseState { mode: Mode::DepsFirst, ..st })
        },
        TokenView::Run => if st.mode == Mode::Start {
            Err(ConfigErrorView::KeywordBeforePath)
        } else {
            Ok(ParseState { mode: Mode::RunFirst(false), ..st })
        },
        TokenView::Always => if st.mode == Mode::Start {
            Err(ConfigErrorView::KeywordBeforePath)
        } else {
            Ok(ParseState { mode: Mode::RunFirst(true), ..st })
        },
        _ => Err(ConfigErrorView::UnexpectedToken),
    }
}

/// How one token moves the reader.
pub open spec fn step(st: ParseState, t: TokenView) -> Result<ParseState, ConfigErrorView> {
    if t is Unterminated {
        Err(ConfigErrorView::UnterminatedQuote)
    } else {
        match st.mode {
            Mode::ExpectPath => match t {
                TokenView::Ident(p) => Ok(
                    ParseState { mode: Mode::InDecl, decls: st.decls.push(new_decl(p)) },
                ),
                _ => Err(ConfigErrorView::ExpectedPath),
            },
            Mode::DepsFirst => match t {
                TokenView::Num(n) => Ok(
                    ParseState { mode: Mode::InDeps, decls: add_dep(st.decls, n) },
                ),
                _ => Err(ConfigErrorView::DanglingKeyword),
            },
            Mode::RunFirst(a) => match t {
                TokenView::Ident(p) => Ok(
                    ParseState { mode: Mode::InRun(a), decls: add_cmd(st.decls, a, p) },
                ),
                _ => Err(ConfigErrorView::DanglingKeyword),
            },
            Mode::InDeps => match t {
                TokenView::Num(n) => Ok(
                    ParseState { mode: Mode::InDeps, decls: add_dep(st.decls, n) },
                ),
                _ => keyword_step(st, t),
            },
            Mode::InRun(a) => match t {
                TokenView::Ident(x) => Ok(
                    ParseState { mode: Mode::InRun(a), decls: add_arg(st.decls, a, x) },
                ),
                _ => keyword_step(st, t),
            },
            _ => keyword_step(st, t),
        }
    }
}

/// The reader's state after the tokens `ts`, or the first error.
pub open spec fn parse_fold(ts: Seq<TokenView>) -> Result<ParseState, ConfigErrorView>
    decreases ts.len(),
{
    if ts.len() == 0 {
        Ok(ParseState { mode: Mode::Start, decls: Seq::empty() })
    } else {
        match parse_fold(ts.drop_last()) {
            Ok(st) => step(st, ts.last()),
            Err(e) => Err(e),
        }
    }
}

/// The declarations that the tokens `ts` make, or why they make none.
pub open spec fn parse_spec(ts: Seq<TokenView>) -> Result<Seq<DeclView>, ConfigErrorView> {
    match parse_fold(ts) {
        Ok(st) => match st.mode {
            Mode::ExpectPath => Err(ConfigErrorView::ExpectedPath),
            Mode::DepsFirst => Err(ConfigErrorView::DanglingKeyword),
            Mode::RunFirst(_) => Err(ConfigErrorView::DanglingKeyword),
            _ => Ok(st.decls),
        },
        Err(e) => Err(e),
    }
}

/// The declarations of a configuration text, or why it has none.
pub open spec fn parse_text(text: Seq<char>) -> Result<Seq<DeclView>, ConfigErrorView> {
    parse_spec(tokens_of(text))
}

/// The reader's state is consistent: inside a target there is one, and
/// inside a command there is one.
pub open spec fn mode_ok(st: ParseState) -> bool {
    &&& (st.mode != Mode::Start && st.mode != Mode::ExpectPath) ==> st.decls.len() > 0
    &&& st.mode matches Mode::InRun(a) ==> if a {
        st.decls.last().always.len() > 0
    } else {
        st.decls.last().cmds.len() > 0
    }
}

proof fn lemma_decls_push(v: Seq<TargetDecl>, d: TargetDecl)
    ensures
        decls_view(v.push(d)) == decls_view(v).push(d@),
{
    assert(decls_view(v.push(d)) =~= decls_view(v).push(d@));
}

proof fn lemma_decls_replace_last(v: Seq<TargetDecl>, d: TargetDecl)
    requires
        v.len() > 0,
    ensures
        decls_view(v.drop_last().push(d)) == decls_view(v).update(v.len() - 1, d@),
{
    assert(decls_view(v.drop_last().push(d)) =~= decls_view(v).update(v.len() - 1, d@));
}

proof fn lemma_cmds_replace_last(v: Seq<Cmd>, c: Cmd)
    requires
        v.len() > 0,
    ensures
        cmds_view(v.drop_last().push(c)) == cmds_view(v).update(v.len() - 1, c@),
{
    assert(cmds_view(v.drop_last().push(c)) =~= cmds_view(v).update(v.len() - 1, c@));
}

proof fn lemma_cmds_push(v: Seq<Cmd>, c: Cmd)
    ensures
        cmds_view(v.push(c)) == cmds_view(v).push(c@),
{
    assert(cmds_view(v.push(c)) =~= cmds_view(v).push(c@));
}

fn push_dep(decls: &mut Vec<TargetDecl>, n: usize)
    requires
        old(decls)@.len() > 0,
    ensures
        decls_view(final(decls)@) == add_dep(decls_view(old(decls)@), n),
{
    let mut d = decls.pop().unwrap();
    d.deps.push(n);
    proof {
        lemma_decls_replace_last(old(decls)@, d);
        assert(decls@ =~= old(decls)@.drop_last());
    }
    decls.push(d);
}

fn push_cmd(decls: &mut Vec<TargetDecl>, always: bool, p: String)
    requires
        old(decls)@.len() > 0,
    ensures
        decls_view(final(decls)@) == add_cmd(decls_view(old(decls)@), always, p@),
{
    let mut d = decls.pop().unwrap();
    let ghost d0 = d;
    let c = Cmd { program: p, args: Vec::new() };
    proof {
        assert(c@ == CmdView { program: p@, args: Seq::empty() }) by {
            assert(strings_view(c.args@) =~= Seq::empty());
        }
    }
    if always {
        d.always.push(c);
        proof {
            lemma_cmds_push(d0.always@, c);
        }
    } else {
        d.cmds.push(c);
        proof {
            lemma_cmds_push(d0.cmds@, c);
        }
    }
    proof {
        lemma_decls_replace_last(old(decls)@, d);
        assert(decls@ =~= old(decls)@.drop_last());
    }
    decls.push(d);
}

fn append_arg(decls: &mut Vec<TargetDecl>, always: bool, x: String)
    requires
        old(decls)@.len() > 0,
        if always {
            old(decls)@.last().always@.len() > 0
        } else {
            old(decls)@.last().cmds@.len() > 0
        },
    ensures
        decls_view(final(decls)@) == add_arg(decls_view(old(decls)@), always, x@),
{
    let mut d = decls.pop().unwrap();
    let ghost d0 = d;
    if always {
        let mut c = d.always.pop().unwrap();
        let ghost c0 = c;
        c.args.push(x);
        proof {
            assert(strings_view(c.args@) =~= strings_view(c0.args@).push(x@));
            lemma_cmds_replace_last(d0.always@, c);
            assert(d.always@ =~= d0.always@.drop_last());
        }
        d.always.push(c);
    } else {
        let mut c = d.cmds.pop().unwrap();
        let ghost c0 = c;
        c.args.push(x);
        proof {
            assert(strings_view(c.args@) =~= strings_view(c0.args@).push(x@));
            lemma_cmds_replace_last(d0.cmds@, c);
            assert(d.cmds@ =~= d0.cmds@.drop_last());
        }
        d.cmds.push(c);
    }
    proof {
        lemma_decls_replace_last(old(decls)@, d);
        assert(decls@ =~= old(decls)@.drop_last());
    }
    decls.push(d);
}

fn keyword(mode: Mode, t: &Token) -> (r: Result<Mode, ConfigError>)
    ensures
        forall|ds: Seq<DeclView>|
            match #[trigger] keyword_step(ParseState { mode, decls: ds }, t@) {
                Ok(st) => r == Ok::<Mode, ConfigError>(st.mode) && st.decls == ds,
                Err(e) => r matches Err(e2) && e2@ == e,
            },
{
    match t {
        Token::Path => Ok(Mode::ExpectPath),
        Token::Deps => if mode == Mode::Start {
            Err(ConfigError::KeywordBeforePath)
        } else {
            Ok(Mode::DepsFirst)
        },
        Token::Run => if mode == Mode::Start {
            Err(ConfigError::KeywordBeforePath)
        } else {
            Ok(Mode::RunFirst(false))
        },
        Token::Always => if mode == Mode::Start {
            Err(ConfigError::KeywordBeforePath)
        } else {
            Ok(Mode::RunFirst(true))
        },
        _ => Err(ConfigError::UnexpectedToken),
    }
}

/// Moves the reader by one token.
fn apply(mode: Mode, decls: &mut Vec<TargetDecl>, t: &Token) -> (r: Result<Mode, ConfigError>)
    requires
        mode_ok(ParseState { mode, decls: decls_view(old(decls)@) }),
    ensures
        match step(ParseState { mode, decls: decls_view(old(decls)@) }, t@) {
            Ok(st) => r == Ok::<Mode, ConfigError>(st.mode) && decls_view(final(decls)@) == st.decls
                && mode_ok(st),
            Err(e) => r matches Err(e2) && e2@ == e,
        },
{
    let ghost ds = decls_view(decls@);
    if let Token::Unterminated(_) = t {
        return Err(ConfigError::UnterminatedQuote);
    }
    match mode {
        Mode::ExpectPath => match t {
            Token::Ident(p) => {
                let d = TargetDecl {
                    path: p.clone(),
                    deps: Vec::new(),
                    cmds: Vec::new(),
                    always: Vec::new(),
                };
                proof {
                    lemma_decls_push(decls@, d);
                    assert(d@ == new_decl(p@)) by {
                        assert(cmds_view(d.cmds@) =~= Seq::empty());
                        assert(cmds_view(d.always@) =~= Seq::empty());
                    }
                }
                decls.push(d);
                Ok(Mode::InDecl)
            },
            _ => Err(ConfigError::ExpectedPath),
        },
        Mode::DepsFirst => match t {
            Token::Num(n) => {
                push_dep(decls, *n);
                Ok(Mode::InDeps)
            },
            _ => Err(ConfigError::DanglingKeyword),
        },
        Mode::RunFirst(a) => match t {
            Token::Ident(p) => {
                push_cmd(decls, a, p.clone());
                Ok(Mode::InRun(a))
            },
            _ => Err(ConfigError::DanglingKeyword),
        },
        Mode::InDeps => match t {
            Token::Num(n) => {
                push_dep(decls, *n);
                Ok(Mode::InDeps)
            },
            _ => keyword(mode, t),
        },
        Mode::InRun(a) => match t {
            Token::Ident(x) => {
                append_arg(decls, a, x.clone());
                Ok(Mode::InRun(a))
            },
            _ => keyword(mode, t),
        },
        _ => keyword(mode, t),
    }
}

/// Every dependency names a declared target.
pub open spec fn deps_defined(ds: Seq<DeclView>) -> bool {
    forall|i: int, k: int|
        0 <= i < ds.len() && 0 <= k < ds[i].deps.len() ==> #[trigger] ds[i].deps[k] < ds.len()
}

/// No two targets share a path.
pub open spec fn paths_distinct(ds: Seq<DeclView>) -> bool {
    forall|i: int, j: int| 0 <= i < j < ds.len() ==> #[trigger] ds[i].path != #[trigger] ds[j].path
}

/// A fingerprinted command built from a declared one, with nothing cached.
pub open spec fn command_from(h: HashedCommand, c: CmdView) -> bool {
    &&& h.wf()
    &&& h.program@ == c.program
    &&& strings_view(h.args@) == c.args
    &&& h.cached_fingerprint is None
}

pub open spec fn commands_from(hs: Seq<HashedCommand>, cs: Seq<CmdView>) -> bool {
    hs.len() == cs.len() && forall|k: int| 0 <= k < hs.len() ==> command_from(#[trigger] hs[k], cs[k])
}

/// The graph holds the declarations: node `i` is the `i`-th target, with its
/// commands and with its declared dependencies as inputs.
pub open spec fn graph_from(g: Graph, ds: Seq<DeclView>) -> bool {
    &&& g.wf()
    &&& g.targets@.len() == ds.len()
    &&& forall|i: int| 0 <= i < ds.len() ==> {
        &&& (#[trigger] g.targets@[i]).path@ == ds[i].path
        &&& commands_from(g.targets@[i].cmds@, ds[i].cmds)
        &&& commands_from(g.targets@[i].always_cmds@, ds[i].always)
        &&& forall|v: usize| g.pv()[i].contains(v) <==> ds[i].deps.contains(v)
    }
}

/// A text makes a graph: it parses, every dependency it names is
/// declared, and no two of its targets share a path.
pub open spec fn config_ok(text: Seq<char>) -> bool {
    parse_text(text) matches Ok(ds) && deps_defined(ds) && paths_distinct(ds)
}

fn hash_commands(v: Vec<Cmd>) -> (r: Vec<HashedCommand>)
    ensures
        commands_from(r@, cmds_view(v@)),
{
    let mut v = v;
    let ghost v0 = v@;
    let mut r: Vec<HashedCommand> = Vec::new();
    while v.len() > 0
        invariant
            r@.len() + v@.len() == v0.len(),
            v@ == v0.subrange(r@.len() as int, v0.len() as int),
            commands_from(r@, cmds_view(v0).take(r@.len() as int)),
        decreases v.len(),
    {
        let c = v.remove(0);
        let ghost k = r@.len();
        assert(c == v0[k as int]);
        let h = HashedCommand::new(c.program, c.args);
        r.push(h);
        proof {
            assert(v@ =~= v0.subrange(r@.len() as int, v0.len() as int));
            assert forall|j: int| 0 <= j < r@.len() implies command_from(
                #[trigger] r@[j],
                cmds_view(v0).take(r@.len() as int)[j],
            ) by {
                if j < k {
                    assert(cmds_view(v0).take(k as int)[j] == cmds_view(v0).take(r@.len() as int)[j]);
                }
            }
        }
    }
    proof {
        assert(cmds_view(v0).take(r@.len() as int) =~= cmds_view(v0));
    }
    r
}

/// A configuration text, split into tokens.
pub struct Parser {
    pub tokens: Vec<Token>,
}

impl Parser {
    pub open spec fn token_views(&self) -> Seq<TokenView> {
        self.tokens@.map_values(|t: Token| t@)
    }

    pub fn new(config: &str) -> (r: Parser)
        ensures
            r.token_views() == tokens_of(config@),
    {
        let mut lexer = Lexer::new(config);
        Parser { tokens: lexer.tokenize() }
    }

    /// The declarations that the tokens make.
    pub fn parse_decls(&self) -> (r: Result<Vec<TargetDecl>, ConfigError>)
        ensures
            match parse_spec(self.token_views()) {
                Ok(ds) => r matches Ok(v) && decls_view(v@) == ds,
                Err(e) => r matches Err(e2) && e2@ == e,
            },
    {
        let ghost ts = self.token_views();
        let mut mode = Mode::Start;
        let mut decls: Vec<TargetDecl> = Vec::new();
        let mut i: usize = 0;
        proof {
            assert(ts.take(0) =~= Seq::<TokenView>::empty());
            assert(decls_view(decls@) =~= Seq::<DeclView>::empty());
        }
        while i < self.tokens.len()
            invariant
                ts == self.token_views(),
                i <= self.tokens.len(),
                parse_fold(ts.take(i as int)) == Ok::<ParseState, ConfigErrorView>(
                    ParseState { mode, decls: decls_view(decls@) },
                ),
                mode_ok(ParseState { mode, decls: decls_view(decls@) }),
            decreases self.tokens.len() - i,
        {
            proof {
                assert(ts.take(i + 1).drop_last() =~= ts.take(i as int));
                assert(ts.take(i + 1).last() == self.tokens@[i as int]@);
            }
            match apply(mode, &mut decls, &self.tokens[i]) {
                Ok(m) => {
                    mode = m;
                },
                Err(e) => {
                    proof {
                        lemma_fold_error_sticks(ts, i as int + 1);
                    }
                    return Err(e);
                },
            }
            i = i + 1;
        }
        proof {
            assert(ts.take(i as int) =~= ts);
        }
        match mode {
            Mode::ExpectPath => Err(ConfigError::ExpectedPath),
            Mode::DepsFirst => Err(ConfigError::DanglingKeyword),
            Mode::RunFirst(_) => Err(ConfigError::DanglingKeyword),
            _ => Ok(decls),
        }
    }

    /// The graph that the text declares.
    pub fn parse(&self) -> (r: Result<Graph, ConfigError>)
        ensures
            r is Ok <==> (parse_spec(self.token_views()) matches Ok(ds) && deps_defined(ds)
                && paths_distinct(ds)),
            parse_spec(self.token_views()) matches Err(e) ==> r matches Err(e2) && e2@ == e,
            parse_spec(self.token_views()) matches Ok(ds) ==> {
                &&& !deps_defined(ds) ==> (r matches Err(ConfigError::UndefinedDependency(d))
                    && exists|i: int, k: int|
                    0 <= i < ds.len() && 0 <= k < ds[i].deps.len() && ds[i].deps[k] == d && d
                        >= ds.len())
                &&& deps_defined(ds) && !paths_distinct(ds) ==> (r matches Err(
                    ConfigError::DuplicatePath(p),
                ) && exists|i: int, j: int| 0 <= i < j < ds.len() && ds[i].path == p@ && ds[j].path == p@)
                &&& r matches Ok(g) ==> graph_from(g, ds)
            },
    {
        let mut decls = match self.parse_decls() {
            Ok(d) => d,
            Err(e) => {
                return Err(e);
            },
        };
        let ghost ds = decls_view(decls@);
        let ghost ts = self.token_views();
        let n = decls.len();
        let mut i: usize = 0;
        while i < n
            invariant
                n == decls@.len(),
                ds == decls_view(decls@),
                parse_spec(ts) == Ok::<Seq<DeclView>, ConfigErrorView>(ds),
                ts == self.token_views(),
                i <= n,
                forall|a: int, k: int|
                    0 <= a < i && 0 <= k < ds[a].deps.len() ==> #[trigger] ds[a].deps[k] < n,
            decreases n - i,
        {
            let deps = &decls[i].deps;
            assert(deps@ == ds[i as int].deps);
            let mut k: usize = 0;
            while k < deps.len()
                invariant
                    n == decls@.len(),
                    ds == decls_view(decls@),
                    parse_spec(ts) == Ok::<Seq<DeclView>, ConfigErrorView>(ds),
                    ts == self.token_views(),
                    i < n,
                    deps@ == ds[i as int].deps,
                    k <= deps.len(),
                    forall|a: int, q: int|
                        0 <= a < i && 0 <= q < ds[a].deps.len() ==> #[trigger] ds[a].deps[q] < n,
                    forall|q: int| 0 <= q < k ==> #[trigger] deps@[q] < n,
                decreases deps.len() - k,
            {
                if deps[k] >= n {
                    return Err(ConfigError::UndefinedDependency(deps[k]));
                }
                k = k + 1;
            }
            i = i + 1;
        }
        let mut g = Graph::new();
        let mut inputs: Vec<Vec<usize>> = Vec::new();
        let empty: Vec<usize> = Vec::new();
        while decls.len() > 0
            invariant
                deps_defined(ds),
                parse_spec(ts) == Ok::<Seq<DeclView>, ConfigErrorView>(ds),
                ts == self.token_views(),
                n == ds.len(),
                g.wf(),
                g.targets@.len() == inputs@.len(),
                g.targets@.len() + decls@.len() == n,
                decls_view(decls@) == ds.subrange(g.targets@.len() as int, n as int),
                forall|a: int| 0 <= a < g.targets@.len() ==> #[trigger] inputs@[a]@ == ds[a].deps,
                forall|a: int| 0 <= a < g.targets@.len() ==> {
                    &&& (#[trigger] g.targets@[a]).path@ == ds[a].path
                    &&& commands_from(g.targets@[a].cmds@, ds[a].cmds)
                    &&& commands_from(g.targets@[a].always_cmds@, ds[a].always)
                },
                forall|a: int, b: int| 0 <= a < b < g.targets@.len() ==> #[trigger] ds[a].path != #[trigger] ds[b].path,
                empty@.len() == 0,
            decreases decls.len(),
        {
            let ghost m: int = g.targets@.len() as int;
            let ghost decls0 = decls@;
            let d = decls.remove(0);
            proof {
                assert(d@ == decls_view(decls0)[0]);
                assert forall|j: int| 0 <= j < decls@.len() implies decls_view(decls@)[j] == ds.subrange(
                    m + 1,
                    n as int,
                )[j] by {
                    assert(decls@[j] == decls0[j + 1]);
                    assert(decls_view(decls0)[j + 1] == ds.subrange(m, n as int)[j + 1]);
                }
                assert(decls_view(decls@) =~= ds.subrange(m + 1, n as int));
            }
            match g.get_index(d.path.as_str()) {
                Some(j) => {
                    proof {
                        assert(ds[j as int].path == ds[m as int].path);
                        assert(!paths_distinct(ds));
                    }
                    return Err(ConfigError::DuplicatePath(d.path));
                },
                None => {},
            }
            let cmds = hash_commands(d.cmds);
            let always = hash_commands(d.always);
            let t = Target::new(d.path, cmds, always);
            proof {
                assert forall|k: int| 0 <= k < t.cmds@.len() implies (#[trigger] t.cmds@[k]).wf() by {
                    assert(command_from(t.cmds@[k], ds[m as int].cmds[k]));
                }
            }
            let ghost g0 = g;
            g.add(t, &empty);
            inputs.push(d.deps);
            proof {
                assert forall|a: int| 0 <= a < g.targets@.len() implies #[trigger] inputs@[a]@
                    == ds[a].deps by {
                    if a < m {
                        assert(inputs@[a] == inputs@.drop_last()[a]);
                    }
                }
                assert forall|a: int, b: int| 0 <= a < b < g.targets@.len() implies #[trigger] ds[a].path
                    != #[trigger] ds[b].path by {
                    if b == m {
                        assert(g0.targets@[a].path@ == ds[a].path);
                    }
                }
            }
        }
        let mut u: usize = 0;
        while u < n
            invariant
                deps_defined(ds),
                paths_distinct(ds),
                parse_spec(ts) == Ok::<Seq<DeclView>, ConfigErrorView>(ds),
                ts == self.token_views(),
                n == ds.len(),
                g.wf(),
                g.targets@.len() == n,
                inputs@.len() == n,
                u <= n,
                forall|a: int| 0 <= a < n ==> #[trigger] inputs@[a]@ == ds[a].deps,
                forall|a: int| 0 <= a < n ==> {
                    &&& (#[trigger] g.targets@[a]).path@ == ds[a].path
                    &&& commands_from(g.targets@[a].cmds@, ds[a].cmds)
                    &&& commands_from(g.targets@[a].always_cmds@, ds[a].always)
                },
                forall|a: int, v: usize| 0 <= a < u ==> (#[trigger] g.pv()[a].contains(v) <==> ds[a].deps.contains(v)),
            decreases n - u,
        {
            let ghost g0 = g;
            proof {
                assert forall|k: int| 0 <= k < inputs@[u as int]@.len() implies #[trigger] inputs@[u as int]@[k]
                    < g.targets@.len() by {
                    assert(ds[u as int].deps[k] < n);
                }
            }
            g.set_inputs(u, &inputs[u]);
            proof {
                assert forall|a: int, v: usize| 0 <= a < u + 1 implies (#[trigger] g.pv()[a].contains(v)
                    <==> ds[a].deps.contains(v)) by {
                    if a < u {
                        assert(g.preds@[a] == g0.preds@[a]);
                        assert(g.pv()[a] == g0.pv()[a]);
                    }
                }
            }
            u = u + 1;
        }
        Ok(g)
    }
}

proof fn lemma_fold_error_sticks(ts: Seq<TokenView>, i: int)
    requires
        0 <= i <= ts.len(),
        parse_fold(ts.take(i)) is Err,
    ensures
        parse_fold(ts) == parse_fold(ts.take(i)),
    decreases ts.len() - i,
{
    if i < ts.len() {
        assert(ts.take(i + 1).drop_last() =~= ts.take(i));
        lemma_fold_error_sticks(ts, i + 1);
    } else {
        assert(ts.take(i) =~= ts);
    }
}

impl Graph {
    /// Reads a configuration text into a graph: one node per `path`, in
    /// order, with its commands, and with the targets that its `deps` name
    /// as inputs.
    pub fn from_config(config: &str) -> (r: Result<Graph, ConfigError>)
        ensures
            r is Ok <==> config_ok(config@),
            parse_text(config@) matches Err(e) ==> r matches Err(e2) && e2@ == e,
            parse_text(config@) matches Ok(ds) ==> {
                &&& !deps_defined(ds) ==> (r matches Err(ConfigError::UndefinedDependency(d))
                    && exists|i: int, k: int|
                    0 <= i < ds.len() && 0 <= k < ds[i].deps.len() && ds[i].deps[k] == d && d
                        >= ds.len())
                &&& deps_defined(ds) && !paths_distinct(ds) ==> (r matches Err(
                    ConfigError::DuplicatePath(p),
                ) && exists|i: int, j: int| 0 <= i < j < ds.len() && ds[i].path == p@ && ds[j].path == p@)
                &&& r matches Ok(g) ==> graph_from(g, ds)
            },
    {
        let p = Parser::new(config);
        p.parse()
    }
}

} // verus!
