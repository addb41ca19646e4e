//! Building a layout: the shell text run in panes, working-directory
//! resolution, and the sequence of backend calls that creates a workspace.
use vstd::prelude::*;
use crate::backend::{
    ratio_view, BackendCall, BackendError, HerdrBackend, SplitOpts, TabOpts, Traced, WorkspaceCreated,
    WorkspaceOpts,
};
use crate::config::{LayoutNode, LayoutSplit, Pane, Ratio, SpreadFile, Workspace};
use crate::plan::{
    before_tab, chosen_workspace, file_steps, first_cwd, leaf_actions, focus_slot, in_tab, keeps_others,
    lemma_focus_slot_owner, lemma_prefix_trans, lemma_tabs_focus_shape, lemma_tabs_prefix,
    lemma_workspaces_prefix, slot_owner, tabs_focus, tabs_steps, workspace_opts_of, workspace_steps,
    workspaces_steps, keeps_tab, lemma_calls_concat, lemma_panes_focus_shape,
    lemma_panes_prefix, lemma_prefix_append, lemma_record, lemma_replay_append,
    lemma_replay_stopped_prefix, pane_actions, pane_steps, panes_focus, panes_steps, replay,
    split_opts_of, tab_header, tab_opts_of, tab_steps, Replay, Slot, Step, chain_steps,
    children_focus, children_steps, first_leaf, in_range, keeps_range, layout_focus,
    layout_split_opts, layout_steps, leaf_count, leaves_of, lemma_chain_prefix,
    lemma_children_prefix, lemma_children_focus_shape, lemma_leaf_count_positive,
    lemma_leaves_take, read_step, tab_body, tab_focus, is_prefix, builds_inside, call_follows,
    lemma_replay_follows, lemma_replay_inside, lemma_tabs_inside,
};
use crate::env::{keys_ascending, EnvMap};
use crate::paths::{is_absolute, joined_path, normal_form, join_path, path_is_absolute};
use crate::text::{opt_clone, opt_str, opt_text, opt_view, chars_of, concat, string_of};

pub use crate::paths::normalize_path;

verus! {

/// An existing herdr workspace that a layout is applied to: its first tab
/// and that tab's root pane.
#[derive(Debug, Clone, PartialEq)]
pub struct ExistingWorkspace {
    pub workspace_id: String,
    pub tab_id: String,
    pub root_pane_id: String,
}

/// Why a layout could not be built.
#[derive(Debug, PartialEq)]
pub enum EngineError {
    Backend(BackendError),
    WaitForWithoutCommand,
}

impl ExistingWorkspace {
    /// A copy of this target.
    pub fn duplicate(&self) -> (r: ExistingWorkspace)
        ensures
            r == *self,
    {
        ExistingWorkspace {
            workspace_id: self.workspace_id.clone(),
            tab_id: self.tab_id.clone(),
            root_pane_id: self.root_pane_id.clone(),
        }
    }
}

/// The working directory `overlay` gives relative to `base`, in normal form:
/// an absolute overlay replaces the base, a relative one is joined onto it,
/// and a missing one leaves the base.
pub open spec fn combined_cwd(base: Option<Seq<char>>, overlay: Option<Seq<char>>) -> Option<
    Seq<char>,
> {
    match overlay {
        Some(o) => match base {
            Some(b) => if is_absolute(o) {
                Some(normal_form(o))
            } else {
                Some(normal_form(joined_path(b, o)))
            },
            None => Some(normal_form(o)),
        },
        None => match base {
            Some(b) => Some(normal_form(b)),
            None => None,
        },
    }
}

/// The working directory of a pane: root, then tab directory, then pane directory.
pub open spec fn resolved_cwd(
    root: Option<Seq<char>>,
    tab_cwd: Option<Seq<char>>,
    pane_cwd: Option<Seq<char>>,
) -> Option<Seq<char>> {
    combined_cwd(combined_cwd(root, tab_cwd), pane_cwd)
}

/// `v` with each single quote written as `'\''`.
pub open spec fn quote_escaped(v: Seq<char>) -> Seq<char>
    decreases v.len(),
{
    if v.len() == 0 {
        Seq::empty()
    } else if v.last() == '\'' {
        quote_escaped(v.drop_last()) + seq!['\'', '\\', '\'', '\'']
    } else {
        quote_escaped(v.drop_last()).push(v.last())
    }
}

/// `v` as one single-quoted shell word.
pub open spec fn shell_quoted(v: Seq<char>) -> Seq<char> {
    seq!['\''] + quote_escaped(v) + seq!['\'']
}

/// Characters that a POSIX shell treats specially when they stand unquoted:
/// blanks, which end a word, and the operator, expansion, pattern and
/// quoting characters.
pub open spec fn shell_special(c: char) -> bool {
    c == ' ' || c == '\t' || c == '\n' || c == '|' || c == '&' || c == ';' || c == '<' || c
        == '>' || c == '(' || c == ')' || c == '$' || c == '`' || c == '"' || c == '*' || c
        == '?' || c == '[' || c == '#' || c == '~' || c == '='
}

/// How a POSIX shell reads `s` as one word made of single-quoted spans,
/// backslash-escaped characters and plain characters (`quoted`: whether a
/// single-quoted span is open). `None` when `s` is not such a word: an
/// unquoted special character, a trailing backslash or an unclosed quote.
pub open spec fn shell_read(s: Seq<char>, quoted: bool) -> Option<Seq<char>>
    decreases s.len(),
{
    if s.len() == 0 {
        if quoted {
            None
        } else {
            Some(Seq::empty())
        }
    } else if quoted {
        if s[0] == '\'' {
            shell_read(s.drop_first(), false)
        } else {
            match shell_read(s.drop_first(), true) {
                Some(t) => Some(seq![s[0]] + t),
                None => None,
            }
        }
    } else if s[0] == '\'' {
        shell_read(s.drop_first(), true)
    } else if s[0] == '\\' {
        if s.len() < 2 {
            None
        } else {
            match shell_read(s.skip(2), false) {
                Some(t) => Some(seq![s[1]] + t),
                None => None,
            }
        }
    } else if shell_special(s[0]) {
        None
    } else {
        match shell_read(s.drop_first(), false) {
            Some(t) => Some(seq![s[0]] + t),
            None => None,
        }
    }
}

/// The word a POSIX shell reads from `s`, if `s` is one word.
pub open spec fn shell_word(s: Seq<char>) -> Option<Seq<char>> {
    shell_read(s, false)
}

/// How one character is written inside a single-quoted word.
pub open spec fn escaped_char(c: char) -> Seq<char> {
    if c == '\'' {
        seq!['\'', '\\', '\'', '\'']
    } else {
        seq![c]
    }
}

proof fn lemma_quote_escaped_step(v: Seq<char>)
    requires
        v.len() > 0,
    ensures
        quote_escaped(v) == quote_escaped(v.drop_last()) + escaped_char(v.last()),
{
    if v.last() != '\'' {
        assert(quote_escaped(v.drop_last()).push(v.last()) == quote_escaped(v.drop_last())
            + seq![v.last()]);
    }
}

proof fn lemma_quote_escaped_front(c: char, v: Seq<char>)
    ensures
        quote_escaped(seq![c] + v) == escaped_char(c) + quote_escaped(v),
    decreases v.len(),
{
    let w = seq![c] + v;
    lemma_quote_escaped_step(w);
    if v.len() == 0 {
        assert(w.drop_last() == Seq::<char>::empty());
        assert(w.last() == c);
        assert(quote_escaped(Seq::<char>::empty()) == Seq::<char>::empty());
        assert(Seq::<char>::empty() + escaped_char(c) == escaped_char(c));
        assert(escaped_char(c) + Seq::<char>::empty() == escaped_char(c));
    } else {
        assert(w.drop_last() == seq![c] + v.drop_last());
        assert(w.last() == v.last());
        lemma_quote_escaped_front(c, v.drop_last());
        lemma_quote_escaped_step(v);
        assert(escaped_char(c) + quote_escaped(v.drop_last()) + escaped_char(v.last())
            == escaped_char(c) + (quote_escaped(v.drop_last()) + escaped_char(v.last())));
    }
}

proof fn lemma_shell_reads_escaped(v: Seq<char>, rest: Seq<char>)
    ensures
        shell_read(quote_escaped(v) + seq!['\''] + rest, true) == match shell_read(rest, false) {
            Some(t) => Some(v + t),
            None => None::<Seq<char>>,
        },
    decreases v.len(),
{
    let r = shell_read(rest, false);
    if v.len() == 0 {
        let s0 = seq!['\''] + rest;
        assert(quote_escaped(v) + seq!['\''] + rest == s0);
        assert(s0[0] == '\'');
        assert(s0.drop_first() == rest);
        assert(shell_read(s0, true) == r);
        match r {
            Some(t) => assert(v + t == t),
            None => {},
        }
    } else {
        let c = v[0];
        let w = v.drop_first();
        assert(v == seq![c] + w);
        lemma_quote_escaped_front(c, w);
        lemma_shell_reads_escaped(w, rest);
        let tail = quote_escaped(w) + seq!['\''] + rest;
        let rt = shell_read(tail, true);
        assert(quote_escaped(v) + seq!['\''] + rest == escaped_char(c) + tail);
        if c == '\'' {
            let s0 = seq!['\'', '\\', '\'', '\''] + tail;
            assert(escaped_char(c) + tail == s0);
            let s1 = seq!['\\', '\'', '\''] + tail;
            assert(s0[0] == '\'');
            assert(s0.drop_first() == s1);
            assert(shell_read(s0, true) == shell_read(s1, false));
            let s2 = seq!['\''] + tail;
            assert(s1[0] == '\\' && s1[1] == '\'');
            assert(s1.skip(2) == s2);
            assert(s2[0] == '\'');
            assert(s2.drop_first() == tail);
            assert(shell_read(s2, false) == rt);
            assert(shell_read(s1, false) == match rt {
                Some(t) => Some(seq!['\''] + t),
                None => None::<Seq<char>>,
            });
        } else {
            let s0 = seq![c] + tail;
            assert(escaped_char(c) + tail == s0);
            assert(s0[0] == c);
            assert(s0.drop_first() == tail);
            assert(shell_read(s0, true) == match rt {
                Some(t) => Some(seq![c] + t),
                None => None::<Seq<char>>,
            });
        }
        match r {
            Some(t) => assert(seq![c] + (w + t) == v + t),
            None => {},
        }
    }
}

/// A POSIX shell reads a quoted value back as exactly one word: the value.
pub proof fn law_shell_reads_quoted_value(v: Seq<char>)
    ensures
        shell_word(shell_quoted(v)) == Some(v),
{
    let s = shell_quoted(v);
    assert(s.drop_first() == quote_escaped(v) + seq!['\''] + Seq::<char>::empty());
    lemma_shell_reads_escaped(v, Seq::empty());
    assert(v + Seq::<char>::empty() == v);
}

/// `export KEY='VALUE'` for each variable, in key order.
pub open spec fn export_parts(env: Seq<(Seq<char>, Seq<char>)>) -> Seq<Seq<char>>
    decreases env.len(),
{
    if env.len() == 0 {
        Seq::empty()
    } else {
        export_parts(env.drop_last()).push(
            "export "@ + env.last().0 + "="@ + shell_quoted(env.last().1),
        )
    }
}

/// Shell commands joined by ` && `.
pub open spec fn and_joined(parts: Seq<Seq<char>>) -> Seq<char>
    decreases parts.len(),
{
    if parts.len() == 0 {
        Seq::empty()
    } else if parts.len() == 1 {
        parts[0]
    } else {
        and_joined(parts.drop_last()) + " && "@ + parts.last()
    }
}

/// The commands that put a shell in `cwd` with `env` exported: `cd` first,
/// then one `export` per variable.
pub open spec fn setup_parts(cwd: Option<Seq<char>>, env: Seq<(Seq<char>, Seq<char>)>) -> Seq<
    Seq<char>,
> {
    match cwd {
        Some(c) => seq!["cd "@ + shell_quoted(c)] + export_parts(env),
        None => export_parts(env),
    }
}

/// The setup commands joined by ` && `, or none when there is nothing to set up.
pub open spec fn setup_prefix(cwd: Option<Seq<char>>, env: Seq<(Seq<char>, Seq<char>)>) -> Option<
    Seq<char>,
> {
    let parts = setup_parts(cwd, env);
    if parts.len() == 0 {
        None
    } else {
        Some(and_joined(parts))
    }
}

/// `command`, preceded by the setup for `cwd` and `env` when there is any.
pub open spec fn wrapped_command(
    command: Seq<char>,
    cwd: Option<Seq<char>>,
    env: Seq<(Seq<char>, Seq<char>)>,
) -> Seq<char> {
    match setup_prefix(cwd, env) {
        Some(p) => p + " && "@ + command,
        None => command,
    }
}

/// An absolute directory at any level replaces everything above it: a pane
/// whose directory is absolute works there, whatever the root and tab say.
pub proof fn law_absolute_cwd_replaces(
    root: Option<Seq<char>>,
    tab_cwd: Option<Seq<char>>,
    pane_cwd: Seq<char>,
)
    requires
        is_absolute(pane_cwd),
    ensures
        resolved_cwd(root, tab_cwd, Some(pane_cwd)) == Some(normal_form(pane_cwd)),
{
}

/// Relative directories compose top-down: root, then tab, then pane.
pub proof fn law_relative_cwds_compose(root: Seq<char>, tab_cwd: Seq<char>, pane_cwd: Seq<char>)
    requires
        !is_absolute(tab_cwd),
        !is_absolute(pane_cwd),
    ensures
        resolved_cwd(Some(root), Some(tab_cwd), Some(pane_cwd)) == Some(
            normal_form(joined_path(normal_form(joined_path(root, tab_cwd)), pane_cwd)),
        ),
{
}

proof fn lemma_export_parts_len(env: Seq<(Seq<char>, Seq<char>)>)
    ensures
        export_parts(env).len() == env.len(),
    decreases env.len(),
{
    if env.len() > 0 {
        lemma_export_parts_len(env.drop_last());
    }
}

pub proof fn lemma_and_joined_push(parts: Seq<Seq<char>>, x: Seq<char>)
    ensures
        and_joined(parts.push(x)) == (if parts.len() == 0 {
            x
        } else {
            and_joined(parts) + " && "@ + x
        }),
{
    assert(parts.push(x).drop_last() == parts);
    if parts.len() == 0 {
        assert(parts.push(x)[0] == x);
    }
}

/// The working directory `overlay` gives relative to `base`, normalized.
pub fn combine_cwd(base: Option<&str>, overlay: Option<&str>) -> (r: Option<String>)
    ensures
        opt_text(r) == combined_cwd(opt_view(base), opt_view(overlay)),
{
    match (base, overlay) {
        (Some(b), Some(o)) => {
            if path_is_absolute(o) {
                Some(normalize_path(o))
            } else {
                let j = join_path(b, o);
                Some(normalize_path(j.as_str()))
            }
        },
        (Some(b), None) => Some(normalize_path(b)),
        (None, Some(o)) => Some(normalize_path(o)),
        (None, None) => None,
    }
}

/// The working directory of a pane: root, then tab directory, then pane directory.
pub fn resolve_cwd(root: Option<&str>, tab_cwd: Option<&str>, pane_cwd: Option<&str>) -> (r: Option<
    String,
>)
    ensures
        opt_text(r) == resolved_cwd(opt_view(root), opt_view(tab_cwd), opt_view(pane_cwd)),
{
    let base = combine_cwd(root, tab_cwd);
    match base {
        Some(b) => combine_cwd(Some(b.as_str()), pane_cwd),
        None => combine_cwd(None, pane_cwd),
    }
}

/// `value` as one single-quoted shell word.
pub fn shell_quote(value: &str) -> (r: String)
    ensures
        r@ == shell_quoted(value@),
{
    let v = chars_of(value);
    let mut out: Vec<char> = Vec::new();
    out.push('\'');
    let mut i: usize = 0;
    while i < v.len()
        invariant
            i <= v.len(),
            v@ == value@,
            out@ == seq!['\''] + quote_escaped(v@.take(i as int)),
        decreases v.len() - i,
    {
        assert(v@.take(i + 1).drop_last() == v@.take(i as int));
        if v[i] == '\'' {
            out.push('\'');
            out.push('\\');
            out.push('\'');
            out.push('\'');
        } else {
            out.push(v[i]);
        }
        i = i + 1;
    }
    assert(v@.take(v.len() as int) == v@);
    out.push('\'');
    string_of(&out)
}

/// The `cd` and `export` commands for `cwd` and `env`, joined by ` && `, or
/// none when there is nothing to set up. The exports follow the entries of
/// `env`, whose keys strictly ascend.
pub fn cwd_env_prefix(cwd: Option<&str>, env: &EnvMap) -> (r: Option<String>)
    ensures
        opt_text(r) == setup_prefix(opt_view(cwd), env@),
        keys_ascending(env@),
        r is None <==> (cwd is None && env@.len() == 0),
{
    let ghost cwd_view = opt_view(cwd);
    let ghost lead: Seq<Seq<char>> = match cwd {
        Some(c) => seq!["cd "@ + shell_quoted(c@)],
        None => Seq::empty(),
    };
    let mut out = String::new();
    let mut started = false;
    if let Some(c) = cwd {
        let q = shell_quote(c);
        out = concat("cd ", q.as_str());
        started = true;
        proof {
            lemma_and_joined_push(Seq::empty(), "cd "@ + shell_quoted(c@));
            assert(seq!["cd "@ + shell_quoted(c@)] == Seq::<Seq<char>>::empty().push(
                "cd "@ + shell_quoted(c@),
            ));
        }
    }
    assert(env@.take(0) == Seq::<(Seq<char>, Seq<char>)>::empty());
    assert(lead + export_parts(env@.take(0)) == lead);
    let n = env.len();
    let mut i: usize = 0;
    while i < n
        invariant
            i <= n,
            n == env@.len(),
            started == ((lead + export_parts(env@.take(i as int))).len() > 0),
            out@ == and_joined(lead + export_parts(env@.take(i as int))),
        decreases n - i,
    {
        let (k, v) = env.entry(i);
        let q = shell_quote(v.as_str());
        let mut part = concat("export ", k.as_str());
        part.append("=");
        part.append(q.as_str());
        let ghost prev = lead + export_parts(env@.take(i as int));
        proof {
            assert(env@.take(i + 1).drop_last() == env@.take(i as int));
            assert(env@.take(i + 1).last() == env@[i as int]);
            assert(lead + export_parts(env@.take(i + 1)) == prev.push(part@));
            lemma_and_joined_push(prev, part@);
        }
        if started {
            out.append(" && ");
        }
        out.append(part.as_str());
        started = true;
        i = i + 1;
    }
    assert(env@.take(n as int) == env@);
    assert(setup_parts(cwd_view, env@) == lead + export_parts(env@));
    proof {
        lemma_export_parts_len(env@);
    }
    if !started {
        None
    } else {
        Some(out)
    }
}

/// `command`, preceded by the `cd`/`export` setup for `cwd` and `env` when
/// there is any.
pub fn wrap_command_with_cwd_and_env(command: &str, cwd: Option<&str>, env: &EnvMap) -> (r: String)
    ensures
        r@ == wrapped_command(
            command@,
            opt_view(cwd),
            env@,
        ),
{
    match cwd_env_prefix(cwd, env) {
        Some(prefix) => {
            let mut r = concat(prefix.as_str(), " && ");
            r.append(command);
            r
        },
        None => command.to_owned(),
    }
}

/// A copy of an optional ratio.
fn ratio_copy(r: &Option<Ratio>) -> (c: Option<Ratio>)
    ensures
        ratio_view(c) == ratio_view(*r),
{
    match r {
        Some(x) => Some(Ratio { bits: x.bits, text: x.text.clone() }),
        None => None,
    }
}

/// The calls made on `b` since it held `start`.
pub open spec fn calls_since<B: HerdrBackend>(b: Traced<B>, start: Seq<BackendCall>) -> Seq<BackendCall> {
    b.calls().skip(start.len() as int)
}

/// `b` holds every call of `start`, then more.
pub open spec fn extends<B: HerdrBackend>(b: Traced<B>, start: Seq<BackendCall>) -> bool {
    b.calls().len() >= start.len() && b.calls().take(start.len() as int) == start
}

/// Makes pane `pj` of tab `ti`: splits it off `previous` unless it is the
/// tab's first pane, then runs its command and waits for its output.
fn build_pane<B: HerdrBackend>(
    ws: &Workspace,
    ti: usize,
    pj: usize,
    previous: &str,
    backend: &mut Traced<B>,
    Ghost(w): Ghost<int>,
    Ghost(ids): Ghost<Map<Slot, Seq<char>>>,
) -> (r: Result<String, EngineError>)
    requires
        ti < ws.tabs@.len(),
        pj < ws.tabs@[ti as int].panes@.len(),
        ids.contains_key(Slot::Pane(w, ti as int, if pj == 0 { 0 } else { pj - 1 })),
        previous@ == ids[Slot::Pane(w, ti as int, if pj == 0 { 0 } else { pj - 1 })],
    ensures
        extends(*final(backend), old(backend).calls()),
        match replay(
            pane_steps(*ws, w, ti as int, pj as int),
            calls_since(*final(backend), old(backend).calls()),
            ids,
        ) {
            Replay::Completed(next) => (r matches Ok(id) && next == (if pj > 0 {
                ids.insert(Slot::Pane(w, ti as int, pj as int), id@)
            } else {
                ids
            }) && next.contains_key(Slot::Pane(w, ti as int, pj as int)) && id@ == next[Slot::Pane(
                w,
                ti as int,
                pj as int,
            )]),
            Replay::Stopped(e) => r == Err::<String, EngineError>(e),
            Replay::Diverged => false,
        },
{
    let ghost start = backend.calls();
    let ghost whole = pane_steps(*ws, w, ti as int, pj as int);
    let ghost mut done: Seq<Step> = Seq::empty();
    let ghost mut cur = ids;
    assert(start.take(start.len() as int) == start);
    assert(start.skip(start.len() as int) == Seq::<BackendCall>::empty());
    let tab = &ws.tabs[ti];
    let pane = &tab.panes[pj];
    let pane_id: String;
    if pj == 0 {
        pane_id = previous.to_owned();
    } else {
        let sopts = SplitOpts {
            direction: pane.split,
            ratio: ratio_copy(&pane.ratio),
            cwd: resolve_cwd(opt_str(&ws.root), opt_str(&tab.cwd), opt_str(&pane.cwd)),
            env: pane.env.duplicate(),
            focus: false,
        };
        let ghost before = backend.calls();
        let ghost step = Step::SplitPane {
            w,
            i: ti as int,
            j: pj as int,
            opts: split_opts_of(*ws, ti as int, pj as int),
        };
        let res = backend.split_pane(previous, &sopts);
        proof {
            lemma_record(done, before, start, step, backend.calls().last(), ids);
            done = done.push(step);
            assert(whole == done + pane_actions(*ws, w, ti as int, pj as int));
        }
        match res {
            Ok(id) => {
                proof {
                    cur = cur.insert(Slot::Pane(w, ti as int, pj as int), id@);
                }
                pane_id = id;
            },
            Err(e) => {
                proof {
                    assert(whole.take(done.len() as int) =~= done);
                    lemma_replay_stopped_prefix(done, whole, calls_since(*backend, start), ids);
                }
                return Err(EngineError::Backend(e));
            },
        }
    }
    assert(whole == done + pane_actions(*ws, w, ti as int, pj as int));
    assert(replay(done, calls_since(*backend, start), ids) == Replay::Completed(cur));
    let ghost slot = Slot::Pane(w, ti as int, pj as int);
    assert(cur.contains_key(slot) && pane_id@ == cur[slot]);
    let ghost mid = backend.calls();
    let res = run_pane(ws, ti, pane, pj == 0, pane_id.as_str(), backend, Ghost(slot), Ghost(cur));
    proof {
        lemma_calls_concat(start, mid, backend.calls());
        lemma_replay_append(
            done,
            pane_actions(*ws, w, ti as int, pj as int),
            mid.skip(start.len() as int),
            calls_since(*backend, mid),
            ids,
        );
    }
    match res {
        Ok(()) => Ok(pane_id),
        Err(e) => Err(e),
    }
}

/// Runs the command of `pane` of tab `ti`, bound to `slot`, and waits for its
/// output; the tab's first pane (`first`) first changes directory and exports
/// its variables.
fn run_pane<B: HerdrBackend>(
    ws: &Workspace,
    ti: usize,
    pane: &Pane,
    first: bool,
    pane_id: &str,
    backend: &mut Traced<B>,
    Ghost(slot): Ghost<Slot>,
    Ghost(ids): Ghost<Map<Slot, Seq<char>>>,
) -> (r: Result<(), EngineError>)
    requires
        ti < ws.tabs@.len(),
        ids.contains_key(slot),
        pane_id@ == ids[slot],
    ensures
        extends(*final(backend), old(backend).calls()),
        match replay(
            leaf_actions(*ws, ti as int, *pane, first, slot),
            calls_since(*final(backend), old(backend).calls()),
            ids,
        ) {
            Replay::Completed(next) => r is Ok && next == ids,
            Replay::Stopped(e) => r == Err::<(), EngineError>(e),
            Replay::Diverged => false,
        },
{
    let ghost start = backend.calls();
    let ghost whole = leaf_actions(*ws, ti as int, *pane, first, slot);
    let ghost mut done: Seq<Step> = Seq::empty();
    let ghost cur = ids;
    assert(start.take(start.len() as int) == start);
    assert(start.skip(start.len() as int) == Seq::<BackendCall>::empty());
    let tab = &ws.tabs[ti];
    let needs_cwd_override = pane.cwd.is_some() || (ti == 0 && tab.cwd.is_some());
    let resolved = if first && needs_cwd_override {
        resolve_cwd(opt_str(&ws.root), opt_str(&tab.cwd), opt_str(&pane.cwd))
    } else {
        None
    };
    assert(opt_text(resolved) == first_cwd(*ws, ti as int, *pane, first));
    match &pane.command {
        Some(command) => {
            let command_to_run = if first {
                wrap_command_with_cwd_and_env(command.as_str(), opt_str(&resolved), &pane.env)
            } else {
                command.clone()
            };
            let ghost before = backend.calls();
            let ghost step = Step::Run { pane: slot, command: command_to_run@ };
            let res = backend.run(pane_id, command_to_run.as_str());
            proof {
                lemma_record(done, before, start, step, backend.calls().last(), ids);
                done = done.push(step);
            }
            if let Err(e) = res {
                proof {
                    assert(whole.take(done.len() as int) =~= done);
                    lemma_replay_stopped_prefix(done, whole, calls_since(*backend, start), ids);
                }
                return Err(EngineError::Backend(e));
            }
            if let Some(wait_for) = &pane.wait_for {
                let ghost before = backend.calls();
                let ghost step = Step::WaitOutput { pane: slot, wait: wait_for@ };
                let res = backend.wait_output(pane_id, wait_for);
                proof {
                    lemma_record(done, before, start, step, backend.calls().last(), ids);
                    done = done.push(step);
                    assert(whole == done);
                }
                if let Err(e) = res {
                    return Err(EngineError::Backend(e));
                }
            } else {
                assert(whole == done);
            }
        },
        None => {
            if pane.wait_for.is_some() {
                proof {
                    assert(whole == done.push(Step::Abort));
                    assert(replay(seq![Step::Abort], Seq::empty(), cur) == Replay::Stopped(
                        EngineError::WaitForWithoutCommand,
                    ));
                    lemma_replay_append(
                        done,
                        seq![Step::Abort],
                        calls_since(*backend, start),
                        Seq::empty(),
                        ids,
                    );
                    assert(calls_since(*backend, start) + Seq::<BackendCall>::empty()
                        == calls_since(*backend, start));
                    assert(done + seq![Step::Abort] == done.push(Step::Abort));
                }
                return Err(EngineError::WaitForWithoutCommand);
            }
            if first {
                if let Some(prefix) = cwd_env_prefix(opt_str(&resolved), &pane.env) {
                    let ghost before = backend.calls();
                    let ghost step = Step::Run { pane: slot, command: prefix@ };
                    let res = backend.run(pane_id, prefix.as_str());
                    proof {
                        lemma_record(done, before, start, step, backend.calls().last(), ids);
                        done = done.push(step);
                        assert(whole == done);
                    }
                    if let Err(e) = res {
                        return Err(EngineError::Backend(e));
                    }
                } else {
                    assert(whole == done);
                }
            } else {
                assert(whole == done);
            }
        },
    }
    Ok(())
}

/// The slot of the pane of child `u` of a split whose pane is slot `k`.
pub open spec fn child_slot(w: int, i: int, k: int, children: Seq<LayoutNode>, u: int) -> Slot {
    Slot::Pane(w, i, k + leaves_of(children.take(u)))
}

/// The first leaf of a layout tree, if it has one.
fn first_leaf_of(node: &LayoutNode) -> (r: Option<&Pane>)
    ensures
        r matches Some(p) ==> first_leaf(*node) == Some(*p),
        r is None ==> first_leaf(*node) is None,
    decreases node,
{
    match node {
        LayoutNode::Pane(leaf) => Some(&leaf.pane),
        LayoutNode::Split(split) => {
            if split.children.len() == 0 {
                None
            } else {
                proof {
                    assert(decreases_to!(*node => split));
                    assert(decreases_to!(split => split.children));
                    assert(decreases_to!(split.children => split.children@));
                    assert(decreases_to!(split.children@ => split.children@[0]));
                }
                first_leaf_of(&split.children[0])
            }
        },
    }
}

/// The options the pane of `child`, a child of `split` in tab `ti`, is split
/// off with.
fn layout_split_options(ws: &Workspace, ti: usize, split: &LayoutSplit, child: &LayoutNode) -> (r:
    SplitOpts)
    requires
        ti < ws.tabs@.len(),
    ensures
        r@ == layout_split_opts(*ws, ti as int, *split, *child),
{
    let tab = &ws.tabs[ti];
    match first_leaf_of(child) {
        Some(p) => SplitOpts {
            direction: split.split,
            ratio: ratio_copy(&split.ratio),
            cwd: resolve_cwd(opt_str(&ws.root), opt_str(&tab.cwd), opt_str(&p.cwd)),
            env: p.env.duplicate(),
            focus: false,
        },
        None => {
            let env = EnvMap::new();
            SplitOpts {
                direction: split.split,
                ratio: ratio_copy(&split.ratio),
                cwd: resolve_cwd(opt_str(&ws.root), opt_str(&tab.cwd), None),
                env,
                focus: false,
            }
        },
    }
}

/// Builds the layout tree `node` of tab `ti` from the pane `pane_id`, bound
/// to slot `k` (the tab's root pane when `first`): a leaf gets its command; a
/// split first splits off a pane for each later child, each from the pane of
/// the child before it, then builds its children in order. `focus` follows
/// the last leaf marked for focus.
fn build_layout<B: HerdrBackend>(
    ws: &Workspace,
    ti: usize,
    node: &LayoutNode,
    first: bool,
    pane_id: &str,
    focus: &mut String,
    backend: &mut Traced<B>,
    Ghost(w): Ghost<int>,
    Ghost(k): Ghost<int>,
    Ghost(ids): Ghost<Map<Slot, Seq<char>>>,
    Ghost(fslot): Ghost<Slot>,
) -> (r: Result<(), EngineError>)
    requires
        ti < ws.tabs@.len(),
        k >= 0,
        first == (k == 0),
        ids.contains_key(Slot::Pane(w, ti as int, k)),
        pane_id@ == ids[Slot::Pane(w, ti as int, k)],
        ids.contains_key(fslot),
        old(focus)@ == ids[fslot],
        !in_range(fslot, w, ti as int, k, k + leaf_count(*node)),
    ensures
        extends(*final(backend), old(backend).calls()),
        match replay(
            layout_steps(*ws, w, ti as int, *node, k),
            calls_since(*final(backend), old(backend).calls()),
            ids,
        ) {
            Replay::Completed(next) => r is Ok && keeps_range(
                ids,
                next,
                w,
                ti as int,
                k,
                k + leaf_count(*node),
            ) && next.contains_key(layout_focus(w, ti as int, *node, k, fslot)) && final(focus)@
                == next[layout_focus(w, ti as int, *node, k, fslot)],
            Replay::Stopped(e) => r == Err::<(), EngineError>(e),
            Replay::Diverged => false,
        },
    decreases node,
{
    let ghost start = backend.calls();
    assert(start.take(start.len() as int) == start);
    assert(start.skip(start.len() as int) == Seq::<BackendCall>::empty());
    match node {
        LayoutNode::Pane(leaf) => {
            let res = run_pane(
                ws,
                ti,
                &leaf.pane,
                first,
                pane_id,
                backend,
                Ghost(Slot::Pane(w, ti as int, k)),
                Ghost(ids),
            );
            match res {
                Err(e) => Err(e),
                Ok(()) => {
                    if leaf.pane.focus {
                        *focus = pane_id.to_owned();
                    }
                    Ok(())
                },
            }
        },
        LayoutNode::Split(split) => {
            let cs = &split.children;
            let m = cs.len();
            let ghost whole = layout_steps(*ws, w, ti as int, *node, k);
            let ghost chain = chain_steps(*ws, w, ti as int, *split, cs@, k);
            let ghost lc = leaf_count(*node);
            if m == 0 {
                assert(chain == Seq::<Step>::empty());
                assert(whole =~= Seq::<Step>::empty());
                return Ok(());
            }
            assert(lc == leaves_of(cs@));
            assert(whole == chain + children_steps(*ws, w, ti as int, cs@, k));
            let ghost mut cur = ids;
            let mut panes: Vec<String> = Vec::new();
            panes.push(pane_id.to_owned());
            proof {
                assert(cs@.take(0) == Seq::<LayoutNode>::empty());
                assert(cs@.take(1).len() == 1);
                assert(chain_steps(*ws, w, ti as int, *split, cs@.take(1), k) == Seq::<Step>::empty());
                assert(leaves_of(cs@.take(0)) == 0);
            }
            let mut t: usize = 1;
            while t < m
                invariant
                    1 <= t <= m,
                    m == cs@.len(),
                    cs@ == split.children@,
                    *node is Split,
                    (*node)->Split_0 == *split,
                    lc == leaves_of(cs@),
                    lc == leaf_count(*node),
                    whole == chain + children_steps(*ws, w, ti as int, cs@, k),
                    chain == chain_steps(*ws, w, ti as int, *split, cs@, k),
                    ti < ws.tabs@.len(),
                    k >= 0,
                    start == old(backend).calls(),
                    extends(*backend, start),
                    replay(
                        chain_steps(*ws, w, ti as int, *split, cs@.take(t as int), k),
                        calls_since(*backend, start),
                        ids,
                    ) == Replay::Completed(cur),
                    keeps_range(ids, cur, w, ti as int, k, k + lc),
                    panes@.len() == t,
                    forall|u: int|
                        0 <= u < t ==> cur.contains_key(#[trigger] child_slot(w, ti as int, k, cs@, u))
                            && panes@[u]@ == cur[child_slot(w, ti as int, k, cs@, u)],
                decreases m - t,
            {
                let opts = layout_split_options(ws, ti, split, &cs[t]);
                let ghost before = backend.calls();
                let ghost done = chain_steps(*ws, w, ti as int, *split, cs@.take(t as int), k);
                let ghost into = Slot::Pane(w, ti as int, k + leaves_of(cs@.take(t as int)));
                let ghost step = Step::SplitFrom {
                    from: Slot::Pane(w, ti as int, k + leaves_of(cs@.take(t - 1))),
                    into,
                    opts: layout_split_opts(*ws, ti as int, *split, cs@[t as int]),
                };
                proof {
                    let nt = cs@.take(t + 1);
                    assert(nt.drop_last() == cs@.take(t as int));
                    assert(nt.drop_last().drop_last() == cs@.take(t - 1));
                    assert(nt.last() == cs@[t as int]);
                    assert(chain_steps(*ws, w, ti as int, *split, nt, k) == done.push(step));
                    lemma_leaves_take(cs@, t - 1, t as int);
                    lemma_leaves_take(cs@, t as int, m as int);
                    assert(cs@.take(m as int) == cs@);
                    lemma_chain_prefix(*ws, w, ti as int, *split, cs@, k, t + 1);
                }
                assert(cur.contains_key(child_slot(w, ti as int, k, cs@, t - 1)));
                assert(panes@[t - 1]@ == cur[child_slot(w, ti as int, k, cs@, t - 1)]);
                let res = backend.split_pane(panes[t - 1].as_str(), &opts);
                proof {
                    lemma_record(done, before, start, step, backend.calls().last(), ids);
                }
                match res {
                    Err(e) => {
                        proof {
                            assert(read_step(step, backend.calls().last(), cur) == Some(
                                Err::<Map<Slot, Seq<char>>, BackendError>(e),
                            ));
                            assert(replay(done.push(step), calls_since(*backend, start), ids)
                                == Replay::Stopped(EngineError::Backend(e)));
                            let rest = children_steps(*ws, w, ti as int, cs@, k);
                            assert((chain + rest).take(chain.len() as int) == chain);
                            lemma_prefix_trans(
                                chain_steps(*ws, w, ti as int, *split, cs@.take(t + 1), k),
                                chain,
                                chain + rest,
                            );
                            lemma_replay_stopped_prefix(
                                done.push(step),
                                whole,
                                calls_since(*backend, start),
                                ids,
                            );
                        }
                        return Err(EngineError::Backend(e));
                    },
                    Ok(id) => {
                        proof {
                            assert forall|u: int| 0 <= u < t implies leaves_of(cs@.take(u))
                                < leaves_of(cs@.take(t as int)) by {
                                lemma_leaves_take(cs@, u, t as int);
                            }
                        }
                        let ghost old_cur = cur;
                        let ghost old_panes = panes@;
                        proof {
                            cur = cur.insert(into, id@);
                        }
                        panes.push(id);
                        proof {
                            assert(into == child_slot(w, ti as int, k, cs@, t as int));
                            assert forall|u: int| 0 <= u < t + 1 implies cur.contains_key(
                                #[trigger] child_slot(w, ti as int, k, cs@, u),
                            ) && panes@[u]@ == cur[child_slot(w, ti as int, k, cs@, u)] by {
                                if u < t {
                                    assert(old_cur.contains_key(child_slot(w, ti as int, k, cs@, u)));
                                    assert(panes@[u] == old_panes[u]);
                                    assert(leaves_of(cs@.take(u)) < leaves_of(cs@.take(t as int)));
                                }
                            }
                        }
                    },
                }
                t = t + 1;
            }
            proof {
                assert(cs@.take(m as int) == cs@);
                assert(cs@.take(0) == Seq::<LayoutNode>::empty());
                assert(chain + children_steps(*ws, w, ti as int, cs@.take(0), k) == chain);
                lemma_leaves_take(cs@, 0, m as int);

            }
            let mut t: usize = 0;
            while t < m
                invariant
                    t <= m,
                    m == cs@.len(),
                    cs@ == split.children@,
                    chain == chain_steps(*ws, w, ti as int, *split, cs@, k),
                    whole == layout_steps(*ws, w, ti as int, *node, k),
                    *node is Split,
                    (*node)->Split_0 == *split,
                    lc == leaves_of(cs@),
                    lc == leaf_count(*node),
                    whole == chain + children_steps(*ws, w, ti as int, cs@, k),
                    ti < ws.tabs@.len(),
                    k >= 0,
                    first == (k == 0),
                    start == old(backend).calls(),
                    extends(*backend, start),
                    replay(
                        chain + children_steps(*ws, w, ti as int, cs@.take(t as int), k),
                        calls_since(*backend, start),
                        ids,
                    ) == Replay::Completed(cur),
                    keeps_range(ids, cur, w, ti as int, k, k + lc),
                    panes@.len() == m,
                    forall|u: int|
                        t <= u < m ==> cur.contains_key(#[trigger] child_slot(w, ti as int, k, cs@, u))
                            && panes@[u]@ == cur[child_slot(w, ti as int, k, cs@, u)],
                    !in_range(fslot, w, ti as int, k, k + lc),
                    cur.contains_key(children_focus(w, ti as int, cs@.take(t as int), k, fslot)),
                    focus@ == cur[children_focus(w, ti as int, cs@.take(t as int), k, fslot)],
                decreases m - t,
            {
                let ghost mid = backend.calls();
                let ghost kt = k + leaves_of(cs@.take(t as int));
                let ghost prefix = chain + children_steps(*ws, w, ti as int, cs@.take(t as int), k);
                let ghost fcur = children_focus(w, ti as int, cs@.take(t as int), k, fslot);
                proof {
                    let nt = cs@.take(t + 1);
                    assert(nt.drop_last() == cs@.take(t as int));
                    assert(nt.last() == cs@[t as int]);
                    lemma_leaves_take(cs@, t as int, m as int);
                    assert(cs@.take(m as int) == cs@);
                    lemma_children_focus_shape(w, ti as int, cs@.take(t as int), k, fslot);
                    assert(t < split.children@.len());
                    assert(decreases_to!(*node => (*node)->Split_0));
                    assert(decreases_to!(*split => split.children));
                    assert(decreases_to!(split.children => split.children@));
                    assert(decreases_to!(split.children@ => split.children@[t as int]));
                    assert(decreases_to!(*node => split.children@[t as int]));
                    assert(cur.contains_key(child_slot(w, ti as int, k, cs@, t as int)));
                    lemma_leaves_take(cs@, t + 1, m as int);
                    lemma_leaves_take(cs@, 0, t as int);
                    assert(cs@.take(0) == Seq::<LayoutNode>::empty());
                    assert((first && t == 0) == (kt == 0));
                    assert(kt + leaf_count(cs@[t as int]) <= k + lc);
                    assert(!in_range(fcur, w, ti as int, kt, kt + leaf_count(cs@[t as int])));
                }
                let res = build_layout(
                    ws,
                    ti,
                    &cs[t],
                    first && t == 0,
                    panes[t].as_str(),
                    focus,
                    backend,
                    Ghost(w),
                    Ghost(kt),
                    Ghost(cur),
                    Ghost(fcur),
                );
                proof {
                    lemma_calls_concat(start, mid, backend.calls());
                    lemma_replay_append(
                        prefix,
                        layout_steps(*ws, w, ti as int, cs@[t as int], kt),
                        mid.skip(start.len() as int),
                        calls_since(*backend, mid),
                        ids,
                    );
                    assert(prefix + layout_steps(*ws, w, ti as int, cs@[t as int], kt) == chain
                        + children_steps(*ws, w, ti as int, cs@.take(t + 1), k));
                    lemma_children_prefix(*ws, w, ti as int, cs@, k, t + 1);
                    lemma_prefix_append(
                        chain,
                        children_steps(*ws, w, ti as int, cs@.take(t + 1), k),
                        children_steps(*ws, w, ti as int, cs@, k),
                    );
                }
                match res {
                    Err(e) => {
                        proof {
                            assert(replay(
                                layout_steps(*ws, w, ti as int, cs@[t as int], kt),
                                calls_since(*backend, mid),
                                cur,
                            ) == Replay::Stopped(e));
                            assert(mid.skip(start.len() as int) + calls_since(*backend, mid)
                                == calls_since(*backend, start));
                            assert(replay(
                                chain + children_steps(*ws, w, ti as int, cs@.take(t + 1), k),
                                calls_since(*backend, start),
                                ids,
                            ) == Replay::Stopped(e));
                            assert(is_prefix(
                                chain + children_steps(*ws, w, ti as int, cs@.take(t + 1), k),
                                whole,
                            ));
                            lemma_replay_stopped_prefix(
                                chain + children_steps(*ws, w, ti as int, cs@.take(t + 1), k),
                                whole,
                                calls_since(*backend, start),
                                ids,
                            );
                        }
                        return Err(e);
                    },
                    Ok(()) => {
                        proof {
                            let next = replay(
                                layout_steps(*ws, w, ti as int, cs@[t as int], kt),
                                calls_since(*backend, mid),
                                cur,
                            )->Completed_0;
                            let hi = kt + leaf_count(cs@[t as int]);
                            assert forall|s: Slot| #[trigger]
                                ids.contains_key(s) && !in_range(
                                    s,
                                    w,
                                    ti as int,
                                    k,
                                    k + lc,
                                ) implies next.contains_key(s) && next[s] == ids[s] by {
                                assert(cur.contains_key(s));
                                assert(!in_range(s, w, ti as int, kt, hi));
                            }
                            assert forall|u: int| t + 1 <= u < m implies next.contains_key(
                                #[trigger] child_slot(w, ti as int, k, cs@, u),
                            ) && panes@[u]@ == next[child_slot(w, ti as int, k, cs@, u)] by {
                                lemma_leaves_take(cs@, t + 1, u);
                                assert(cur.contains_key(child_slot(w, ti as int, k, cs@, u)));
                                assert(!in_range(child_slot(w, ti as int, k, cs@, u), w, ti as int, kt, hi));
                            }
                            cur = next;
                        }
                    },
                }
                t = t + 1;
            }
            Ok(())
        },
    }
}

/// Builds tab `ti`: the first tab is renamed when it has a label, a later
/// tab is created; then its panes are made in order. `focus` follows the last
/// pane marked for focus.
fn build_tab<B: HerdrBackend>(
    ws: &Workspace,
    ti: usize,
    created: &WorkspaceCreated,
    focus: &mut String,
    backend: &mut Traced<B>,
    Ghost(w): Ghost<int>,
    Ghost(ids): Ghost<Map<Slot, Seq<char>>>,
    Ghost(fslot): Ghost<Slot>,
) -> (r: Result<(), EngineError>)
    requires
        ti < ws.tabs@.len(),
        ids.contains_key(Slot::Workspace(w)),
        ids[Slot::Workspace(w)] == created.workspace_id@,
        ids.contains_key(Slot::FirstTab(w)),
        ids[Slot::FirstTab(w)] == created.tab_id@,
        ids.contains_key(Slot::Pane(w, 0, 0)),
        ids[Slot::Pane(w, 0, 0)] == created.root_pane_id@,
        ids.contains_key(fslot),
        old(focus)@ == ids[fslot],
        before_tab(fslot, w, ti as int),
    ensures
        extends(*final(backend), old(backend).calls()),
        match replay(
            tab_steps(*ws, w, ti as int),
            calls_since(*final(backend), old(backend).calls()),
            ids,
        ) {
            Replay::Completed(next) => r is Ok && keeps_tab(ids, next, w, ti as int)
                && next.contains_key(tab_focus(*ws, w, ti as int, fslot)) && final(focus)@
                == next[tab_focus(*ws, w, ti as int, fslot)],
            Replay::Stopped(e) => r == Err::<(), EngineError>(e),
            Replay::Diverged => false,
        },
{
    let ghost start = backend.calls();
    let ghost whole = tab_steps(*ws, w, ti as int);
    let ghost mut done: Seq<Step> = Seq::empty();
    let ghost mut cur = ids;
    assert(start.take(start.len() as int) == start);
    assert(start.skip(start.len() as int) == Seq::<BackendCall>::empty());
    let tab = &ws.tabs[ti];
    let n = tab.panes.len();
    proof {
        lemma_panes_prefix(*ws, w, ti as int, 0, n as int);
    }
    let mut previous: String;
    if ti == 0 {
        if let Some(label) = &tab.label {
            let ghost before = backend.calls();
            let ghost step = Step::RenameTab { w, label: label@ };
            let res = backend.rename_tab(created.tab_id.as_str(), label.as_str());
            proof {
                lemma_record(done, before, start, step, backend.calls().last(), ids);
                done = done.push(step);
            }
            if let Err(e) = res {
                proof {
                    assert(whole.take(done.len() as int) =~= done);
                    lemma_replay_stopped_prefix(done, whole, calls_since(*backend, start), ids);
                }
                return Err(EngineError::Backend(e));
            }
        }
        previous = created.root_pane_id.clone();
    } else {
        let topts = TabOpts {
            label: opt_clone(&tab.label),
            cwd: resolve_cwd(opt_str(&ws.root), opt_str(&tab.cwd), None),
            focus: false,
        };
        let ghost before = backend.calls();
        let ghost step = Step::CreateTab { w, i: ti as int, opts: tab_opts_of(*ws, ti as int) };
        let res = backend.create_tab(created.workspace_id.as_str(), &topts);
        proof {
            lemma_record(done, before, start, step, backend.calls().last(), ids);
            done = done.push(step);
        }
        match res {
            Ok(t) => {
                proof {
                    cur = cur.insert(Slot::Pane(w, ti as int, 0), t.root_pane_id@);
                }
                previous = t.root_pane_id;
            },
            Err(e) => {
                proof {
                    assert(whole.take(done.len() as int) =~= done);
                    lemma_replay_stopped_prefix(done, whole, calls_since(*backend, start), ids);
                }
                return Err(EngineError::Backend(e));
            },
        }
    }
    assert(done == tab_header(*ws, w, ti as int));
    assert(cur.contains_key(Slot::Pane(w, ti as int, 0)) && previous@ == cur[Slot::Pane(
        w,
        ti as int,
        0,
    )]);
    if let Some(layout) = &tab.layout {
        let ghost mid = backend.calls();
        let ghost body = layout_steps(*ws, w, ti as int, *layout, 0);
        proof {
            assert(whole == done + body);
            assert(!in_range(fslot, w, ti as int, 0, leaf_count(*layout) as int));
        }
        let res = build_layout(
            ws,
            ti,
            layout,
            true,
            previous.as_str(),
            focus,
            backend,
            Ghost(w),
            Ghost(0),
            Ghost(cur),
            Ghost(fslot),
        );
        proof {
            lemma_calls_concat(start, mid, backend.calls());
            lemma_replay_append(
                done,
                body,
                mid.skip(start.len() as int),
                calls_since(*backend, mid),
                ids,
            );
        }
        match res {
            Err(e) => {
                return Err(e);
            },
            Ok(()) => {
                proof {
                    let next = replay(body, calls_since(*backend, mid), cur)->Completed_0;
                    assert forall|s: Slot| #[trigger]
                        ids.contains_key(s) && !in_tab(s, w, ti as int) implies next.contains_key(s)
                        && next[s] == ids[s] by {
                        assert(cur.contains_key(s));
                        assert(!in_range(s, w, ti as int, 0, leaf_count(*layout) as int));
                    }
                }
                return Ok(());
            },
        }
    }
    assert(whole == done + panes_steps(*ws, w, ti as int, n as int));
    assert(done + panes_steps(*ws, w, ti as int, 0) == done);
    let mut pj: usize = 0;
    while pj < n
        invariant
            ti < ws.tabs@.len(),
            tab == ws.tabs@[ti as int],
            n == tab.panes@.len(),
            pj <= n,
            whole == tab_steps(*ws, w, ti as int),
            start == old(backend).calls(),
            whole == tab_header(*ws, w, ti as int) + panes_steps(*ws, w, ti as int, n as int),
            extends(*backend, start),
            replay(
                tab_header(*ws, w, ti as int) + panes_steps(*ws, w, ti as int, pj as int),
                calls_since(*backend, start),
                ids,
            ) == Replay::Completed(cur),
            keeps_tab(ids, cur, w, ti as int),
            cur.contains_key(Slot::Pane(w, ti as int, if pj == 0 { 0 } else { pj - 1 })),
            previous@ == cur[Slot::Pane(w, ti as int, if pj == 0 { 0 } else { pj - 1 })],
            cur.contains_key(panes_focus(*ws, w, ti as int, pj as int, fslot)),
            focus@ == cur[panes_focus(*ws, w, ti as int, pj as int, fslot)],
            before_tab(fslot, w, ti as int),
        decreases n - pj,
    {
        let ghost mid = backend.calls();
        let ghost prefix = tab_header(*ws, w, ti as int) + panes_steps(*ws, w, ti as int, pj as int);
        let ghost fcur = panes_focus(*ws, w, ti as int, pj as int, fslot);
        proof {
            lemma_panes_focus_shape(*ws, w, ti as int, pj as int, fslot);
        }
        let res = build_pane(ws, ti, pj, previous.as_str(), backend, Ghost(w), Ghost(cur));
        proof {
            lemma_calls_concat(start, mid, backend.calls());
            lemma_replay_append(
                prefix,
                pane_steps(*ws, w, ti as int, pj as int),
                mid.skip(start.len() as int),
                calls_since(*backend, mid),
                ids,
            );
            assert(prefix + pane_steps(*ws, w, ti as int, pj as int) == tab_header(
                *ws,
                w,
                ti as int,
            ) + panes_steps(*ws, w, ti as int, pj + 1));
            lemma_panes_prefix(*ws, w, ti as int, pj + 1, n as int);
            lemma_prefix_append(
                tab_header(*ws, w, ti as int),
                panes_steps(*ws, w, ti as int, pj + 1),
                panes_steps(*ws, w, ti as int, n as int),
            );
        }
        match res {
            Err(e) => {
                proof {
                    lemma_replay_stopped_prefix(
                        tab_header(*ws, w, ti as int) + panes_steps(*ws, w, ti as int, pj + 1),
                        whole,
                        calls_since(*backend, start),
                        ids,
                    );
                }
                return Err(e);
            },
            Ok(pane_id) => {
                let ghost next = if pj > 0 {
                    cur.insert(Slot::Pane(w, ti as int, pj as int), pane_id@)
                } else {
                    cur
                };
                if tab.panes[pj].focus {
                    *focus = pane_id.clone();
                }
                previous = pane_id;
                proof {
                    cur = next;
                }
            },
        }
        pj = pj + 1;
    }
    Ok(())
}

/// A slot made while building the tabs of workspace `w`: any of its panes
/// except its root pane.
pub open spec fn in_some_tab(s: Slot, w: int) -> bool {
    match s {
        Slot::Pane(a, b, c) => a == w && (b > 0 || c > 0),
        _ => false,
    }
}

/// The identifiers of an existing workspace, as bound before its tabs are built.
pub open spec fn bound_to(ids: Map<Slot, Seq<char>>, w: int, created: WorkspaceCreated) -> bool {
    &&& ids.contains_key(Slot::Workspace(w))
    &&& ids[Slot::Workspace(w)] == created.workspace_id@
    &&& ids.contains_key(Slot::FirstTab(w))
    &&& ids[Slot::FirstTab(w)] == created.tab_id@
    &&& ids.contains_key(Slot::Pane(w, 0, 0))
    &&& ids[Slot::Pane(w, 0, 0)] == created.root_pane_id@
}

/// Builds the tabs of workspace `ws`, number `w`, which exists with the
/// identifiers in `created`. Returns its focus pane.
fn build_tabs<B: HerdrBackend>(
    ws: &Workspace,
    created: &WorkspaceCreated,
    backend: &mut Traced<B>,
    Ghost(w): Ghost<int>,
    Ghost(ids): Ghost<Map<Slot, Seq<char>>>,
) -> (r: Result<String, EngineError>)
    requires
        bound_to(ids, w, *created),
    ensures
        extends(*final(backend), old(backend).calls()),
        match replay(
            tabs_steps(*ws, w, ws.tabs@.len() as int),
            calls_since(*final(backend), old(backend).calls()),
            ids,
        ) {
            Replay::Completed(next) => (r matches Ok(id) && (forall|s: Slot|
                #![trigger ids.contains_key(s)]
                ids.contains_key(s) && !in_some_tab(s, w) ==> next.contains_key(s) && next[s]
                    == ids[s]) && next.contains_key(focus_slot(*ws, w)) && id@ == next[focus_slot(
                *ws,
                w,
            )]),
            Replay::Stopped(e) => r == Err::<String, EngineError>(e),
            Replay::Diverged => false,
        },
{
    let ghost start = backend.calls();
    let ghost whole = tabs_steps(*ws, w, ws.tabs@.len() as int);
    let ghost mut cur = ids;
    assert(start.take(start.len() as int) == start);
    assert(start.skip(start.len() as int) == Seq::<BackendCall>::empty());
    let n = ws.tabs.len();
    proof {
        lemma_tabs_prefix(*ws, w, 0, n as int);
    }
    let mut focus_pane_id = created.root_pane_id.clone();
    let mut ti: usize = 0;
    while ti < n
        invariant
            n == ws.tabs@.len(),
            ti <= n,
            start == old(backend).calls(),
            whole == tabs_steps(*ws, w, n as int),
            extends(*backend, start),
            replay(tabs_steps(*ws, w, ti as int), calls_since(*backend, start), ids)
                == Replay::Completed(cur),
            forall|s: Slot|
                #![trigger ids.contains_key(s)]
                ids.contains_key(s) && !in_some_tab(s, w) ==> cur.contains_key(s) && cur[s]
                    == ids[s],
            bound_to(ids, w, *created),
            cur.contains_key(tabs_focus(*ws, w, ti as int)),
            focus_pane_id@ == cur[tabs_focus(*ws, w, ti as int)],
        decreases n - ti,
    {
        let ghost mid = backend.calls();
        let ghost prefix = tabs_steps(*ws, w, ti as int);
        proof {
            lemma_tabs_focus_shape(*ws, w, ti as int);
            assert(!in_some_tab(Slot::Workspace(w), w));
            assert(!in_some_tab(Slot::FirstTab(w), w));
            assert(!in_some_tab(Slot::Pane(w, 0, 0), w));
            assert(ids.contains_key(Slot::Workspace(w)));
            assert(ids.contains_key(Slot::FirstTab(w)));
            assert(ids.contains_key(Slot::Pane(w, 0, 0)));
        }
        let res = build_tab(
            ws,
            ti,
            created,
            &mut focus_pane_id,
            backend,
            Ghost(w),
            Ghost(cur),
            Ghost(tabs_focus(*ws, w, ti as int)),
        );
        proof {
            lemma_calls_concat(start, mid, backend.calls());
            lemma_replay_append(
                prefix,
                tab_steps(*ws, w, ti as int),
                mid.skip(start.len() as int),
                calls_since(*backend, mid),
                ids,
            );
            assert(prefix + tab_steps(*ws, w, ti as int) == tabs_steps(*ws, w, ti + 1));
            lemma_tabs_prefix(*ws, w, ti + 1, n as int);
        }
        match res {
            Err(e) => {
                proof {
                    lemma_replay_stopped_prefix(
                        tabs_steps(*ws, w, ti + 1),
                        whole,
                        calls_since(*backend, start),
                        ids,
                    );
                }
                return Err(e);
            },
            Ok(()) => {
                proof {
                    let next = replay(
                        tab_steps(*ws, w, ti as int),
                        calls_since(*backend, mid),
                        cur,
                    )->Completed_0;
                    assert forall|s: Slot| #[trigger]
                        ids.contains_key(s) && !in_some_tab(s, w) implies next.contains_key(s)
                        && next[s] == ids[s] by {
                        assert(cur.contains_key(s));
                        assert(!in_tab(s, w, ti as int));
                    }
                    cur = next;
                }
            },
        }
        ti = ti + 1;
    }
    Ok(focus_pane_id)
}

/// Creates workspace `ws` as workspace number `w` and builds its tabs.
/// Returns its focus pane: its last pane marked for focus, or its root pane.
fn build_workspace<B: HerdrBackend>(
    ws: &Workspace,
    backend: &mut Traced<B>,
    Ghost(w): Ghost<int>,
    Ghost(ids): Ghost<Map<Slot, Seq<char>>>,
) -> (r: Result<String, EngineError>)
    ensures
        extends(*final(backend), old(backend).calls()),
        match replay(
            workspace_steps(*ws, w),
            calls_since(*final(backend), old(backend).calls()),
            ids,
        ) {
            Replay::Completed(next) => (r matches Ok(id) && keeps_others(ids, next, w)
                && next.contains_key(focus_slot(*ws, w)) && id@ == next[focus_slot(*ws, w)]),
            Replay::Stopped(e) => r == Err::<String, EngineError>(e),
            Replay::Diverged => false,
        },
{
    let ghost start = backend.calls();
    let ghost whole = workspace_steps(*ws, w);
    let ghost first = seq![Step::CreateWorkspace { w, opts: workspace_opts_of(*ws) }];
    assert(start.take(start.len() as int) == start);
    assert(start.skip(start.len() as int) == Seq::<BackendCall>::empty());
    let opts = WorkspaceOpts {
        label: ws.name.clone(),
        cwd: opt_clone(&ws.root),
        env: ws.env.duplicate(),
        focus: false,
    };
    let ghost before = backend.calls();
    let res = backend.create_workspace(&opts);
    proof {
        lemma_record(Seq::empty(), before, start, first[0], backend.calls().last(), ids);
        assert(Seq::<Step>::empty().push(first[0]) == first);
    }
    let created = match res {
        Ok(c) => c,
        Err(e) => {
            proof {
                assert(whole.take(1) == first);
                lemma_replay_stopped_prefix(first, whole, calls_since(*backend, start), ids);
            }
            return Err(EngineError::Backend(e));
        },
    };
    let ghost cur = ids.insert(Slot::Workspace(w), created.workspace_id@).insert(
        Slot::FirstTab(w),
        created.tab_id@,
    ).insert(Slot::Pane(w, 0, 0), created.root_pane_id@);
    let ghost mid = backend.calls();
    let res = build_tabs(ws, &created, backend, Ghost(w), Ghost(cur));
    proof {
        lemma_calls_concat(start, mid, backend.calls());
        lemma_replay_append(
            first,
            tabs_steps(*ws, w, ws.tabs@.len() as int),
            mid.skip(start.len() as int),
            calls_since(*backend, mid),
            ids,
        );
        if res is Ok {
            let next = replay(
                tabs_steps(*ws, w, ws.tabs@.len() as int),
                calls_since(*backend, mid),
                cur,
            )->Completed_0;
            assert forall|s: Slot| #[trigger]
                ids.contains_key(s) && slot_owner(s) != w implies next.contains_key(s) && next[s]
                == ids[s] by {
                assert(cur.contains_key(s));
            }
        }
    }
    res
}

/// Creates workspace `ws` and builds its tabs and panes, without focusing any
/// pane. Returns the pane to focus: the last pane marked for focus, or the
/// workspace's root pane.
pub fn apply_workspace<B: HerdrBackend>(ws: &Workspace, backend: &mut Traced<B>) -> (r: Result<
    String,
    EngineError,
>)
    ensures
        extends(*final(backend), old(backend).calls()),
        match replay(
            workspace_steps(*ws, 0),
            calls_since(*final(backend), old(backend).calls()),
            Map::empty(),
        ) {
            Replay::Completed(ids) => (r matches Ok(id) && ids.contains_key(focus_slot(*ws, 0))
                && id@ == ids[focus_slot(*ws, 0)]),
            Replay::Stopped(e) => r == Err::<String, EngineError>(e),
            Replay::Diverged => false,
        },
{
    build_workspace(ws, backend, Ghost(0), Ghost(Map::empty()))
}

/// The identifiers of an existing workspace, bound as workspace 0.
pub open spec fn existing_ids(target: ExistingWorkspace) -> Map<Slot, Seq<char>> {
    Map::empty().insert(Slot::Workspace(0), target.workspace_id@).insert(
        Slot::FirstTab(0),
        target.tab_id@,
    ).insert(Slot::Pane(0, 0, 0), target.root_pane_id@)
}

/// Builds the tabs and panes of `ws` into the existing workspace `target`,
/// whose first tab and root pane stand for the layout's first tab and root
/// pane; no workspace is created and no pane is focused. Returns the pane to
/// focus: the last pane marked for focus, or the target's root pane.
pub fn apply_to_existing<B: HerdrBackend>(
    ws: &Workspace,
    target: &ExistingWorkspace,
    backend: &mut Traced<B>,
) -> (r: Result<String, EngineError>)
    ensures
        extends(*final(backend), old(backend).calls()),
        match replay(
            tabs_steps(*ws, 0, ws.tabs@.len() as int),
            calls_since(*final(backend), old(backend).calls()),
            existing_ids(*target),
        ) {
            Replay::Completed(ids) => (r matches Ok(id) && ids.contains_key(focus_slot(*ws, 0))
                && id@ == ids[focus_slot(*ws, 0)]),
            Replay::Stopped(e) => r == Err::<String, EngineError>(e),
            Replay::Diverged => false,
        },
{
    let created = WorkspaceCreated {
        workspace_id: target.workspace_id.clone(),
        tab_id: target.tab_id.clone(),
        root_pane_id: target.root_pane_id.clone(),
    };
    build_tabs(ws, &created, backend, Ghost(0), Ghost(existing_ids(*target)))
}

/// Builds every workspace of `file` in order, then focuses exactly once: the
/// focus pane of the last workspace marked `focus`, or of the first workspace
/// when none is.
pub fn apply<B: HerdrBackend>(file: &SpreadFile, backend: &mut Traced<B>) -> (r: Result<
    (),
    EngineError,
>)
    ensures
        extends(*final(backend), old(backend).calls()),
        match replay(
            file_steps(*file),
            calls_since(*final(backend), old(backend).calls()),
            Map::empty(),
        ) {
            Replay::Completed(ids) => r is Ok && (file.workspaces.len() > 0 ==> ids.contains_key(
                focus_slot(
                    file.workspaces@[chosen_workspace(*file, file.workspaces.len() as int)],
                    chosen_workspace(*file, file.workspaces.len() as int),
                ),
            )),
            Replay::Stopped(e) => r == Err::<(), EngineError>(e),
            Replay::Diverged => false,
        },
{
    let ghost start = backend.calls();
    let ghost whole = file_steps(*file);
    let ghost mut cur: Map<Slot, Seq<char>> = Map::empty();
    assert(start.take(start.len() as int) == start);
    assert(start.skip(start.len() as int) == Seq::<BackendCall>::empty());
    let n = file.workspaces.len();
    let mut chosen: Option<String> = None;
    let mut k: usize = 0;
    while k < n
        invariant
            n == file.workspaces@.len(),
            k <= n,
            start == old(backend).calls(),
            whole == file_steps(*file),
            extends(*backend, start),
            replay(workspaces_steps(*file, k as int), calls_since(*backend, start), Map::empty())
                == Replay::Completed(cur),
            (k == 0) == (chosen is None),
            chosen matches Some(id) ==> ({
                let c = chosen_workspace(*file, k as int);
                &&& 0 <= c < k
                &&& cur.contains_key(focus_slot(file.workspaces@[c], c))
                &&& id@ == cur[focus_slot(file.workspaces@[c], c)]
            }),
        decreases n - k,
    {
        let ghost mid = backend.calls();
        let ghost prefix = workspaces_steps(*file, k as int);
        let ws = &file.workspaces[k];
        let res = build_workspace(ws, backend, Ghost(k as int), Ghost(cur));
        proof {
            lemma_calls_concat(start, mid, backend.calls());
            lemma_replay_append(
                prefix,
                workspace_steps(*ws, k as int),
                mid.skip(start.len() as int),
                calls_since(*backend, mid),
                Map::empty(),
            );
            assert(prefix + workspace_steps(*ws, k as int) == workspaces_steps(*file, k + 1));
            lemma_workspaces_prefix(*file, k + 1, n as int);
            assert(whole.take(workspaces_steps(*file, n as int).len() as int) == workspaces_steps(
                *file,
                n as int,
            ));
            lemma_prefix_trans(workspaces_steps(*file, k + 1), workspaces_steps(*file, n as int), whole);
        }
        match res {
            Err(e) => {
                proof {
                    lemma_replay_stopped_prefix(
                        workspaces_steps(*file, k + 1),
                        whole,
                        calls_since(*backend, start),
                        Map::empty(),
                    );
                }
                return Err(e);
            },
            Ok(focus_pane_id) => {
                let ghost next = replay(
                    workspace_steps(*ws, k as int),
                    calls_since(*backend, mid),
                    cur,
                )->Completed_0;
                proof {
                    if chosen is Some {
                        let c = chosen_workspace(*file, k as int);
                        lemma_focus_slot_owner(file.workspaces@[c], c);
                        assert(cur.contains_key(focus_slot(file.workspaces@[c], c)));
                    }
                }
                if ws.focus || chosen.is_none() {
                    chosen = Some(focus_pane_id);
                }
                proof {
                    cur = next;
                }
            },
        }
        k = k + 1;
    }
    assert(workspaces_steps(*file, n as int) == workspaces_steps(*file, k as int));
    if let Some(pane_id) = chosen {
        let ghost before = backend.calls();
        let ghost c = chosen_workspace(*file, n as int);
        let ghost step = Step::FocusPane { pane: focus_slot(file.workspaces@[c], c) };
        let res = backend.focus_pane(pane_id.as_str());
        proof {
            lemma_record(workspaces_steps(*file, n as int), before, start, step, backend.calls().last(), Map::empty());
            assert(whole == workspaces_steps(*file, n as int).push(step));
        }
        if let Err(e) = res {
            return Err(EngineError::Backend(e));
        }
    } else {
        assert(whole == workspaces_steps(*file, n as int));
    }
    Ok(())
}

/// Applying a layout into an existing workspace creates no workspace, and
/// every tab it creates is created in the target's workspace, named by the
/// target's workspace id.
pub proof fn law_existing_tabs_created_in_target(
    ws: Workspace,
    target: ExistingWorkspace,
    calls: Seq<BackendCall>,
)
    requires
        !(replay(tabs_steps(ws, 0, ws.tabs@.len() as int), calls, existing_ids(target)) is Diverged),
    ensures
        forall|k: int|
            0 <= k < calls.len() ==> !(#[trigger] calls[k] is CreateWorkspace) && (
            calls[k] matches BackendCall::CreateTab { workspace_id, .. } ==> workspace_id
                == target.workspace_id@),
{
    let steps = tabs_steps(ws, 0, ws.tabs@.len() as int);
    lemma_tabs_inside(ws, 0, ws.tabs@.len() as int);
    lemma_replay_inside(steps, calls, existing_ids(target), 0);
    lemma_replay_follows(steps, calls, existing_ids(target));
    assert forall|k: int| 0 <= k < calls.len() implies !(#[trigger] calls[k] is CreateWorkspace) by {
        assert(call_follows(steps[k], calls[k]));
        assert(builds_inside(steps[k], 0));
    }
}

} // verus!
