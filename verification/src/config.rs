//! The layout file: workspaces, tabs and panes, and how their paths are resolved.
use vstd::prelude::*;
use crate::env::{env_get, EnvMap};
use crate::paths::{is_absolute, joined_path, join_path, path_is_absolute};
use crate::text::{chars_of, opt_text, skip_chars};

verus! {

/// Direction in which a pane is split off the previous one.
#[derive(Debug, Default, Clone, Copy, PartialEq, Eq, Structural)]
pub enum SplitDirection {
    #[default]
    Right,
    Down,
}

/// A split size ratio. `bits` is the IEEE 754 binary64 bit pattern of the
/// number; `text` is how the number is written in messages.
#[derive(Debug, Clone, PartialEq)]
pub struct Ratio {
    pub bits: u64,
    pub text: String,
}

/// A pattern to wait for in a pane's output after its command starts.
#[derive(Debug, Clone, PartialEq)]
pub struct WaitFor {
    pub pattern: String,
    pub timeout_ms: Option<u64>,
}

/// One pane of a tab.
#[derive(Debug, Default, PartialEq)]
pub struct Pane {
    pub command: Option<String>,
    pub cwd: Option<String>,
    pub env: EnvMap,
    pub split: SplitDirection,
    pub ratio: Option<Ratio>,
    pub wait_for: Option<WaitFor>,
    pub focus: bool,
}

/// A leaf of a layout tree: one pane.
#[derive(Debug, Default, PartialEq)]
pub struct LayoutPane {
    pub pane: Pane,
}

/// An inner node of a layout tree: a split of its children.
#[derive(Debug, Default, PartialEq)]
pub struct LayoutSplit {
    pub split: SplitDirection,
    pub ratio: Option<Ratio>,
    pub children: Vec<LayoutNode>,
}

/// A layout tree of nested splits.
#[derive(Debug, PartialEq)]
pub enum LayoutNode {
    Pane(LayoutPane),
    Split(LayoutSplit),
}

/// One tab of a workspace.
#[derive(Debug, Default, PartialEq)]
pub struct Tab {
    pub label: Option<String>,
    pub cwd: Option<String>,
    pub panes: Vec<Pane>,
    pub layout: Option<LayoutNode>,
}

/// One workspace of the layout file.
#[derive(Debug, Default, PartialEq)]
pub struct Workspace {
    pub name: String,
    pub root: Option<String>,
    pub env: EnvMap,
    pub tabs: Vec<Tab>,
    pub focus: bool,
}

/// A whole layout file.
#[derive(Debug, Default, PartialEq)]
pub struct SpreadFile {
    pub workspaces: Vec<Workspace>,
}

/// The home directory named by `HOME`, or the empty path.
pub open spec fn home_dir(env: Seq<(Seq<char>, Seq<char>)>) -> Seq<char> {
    match env_get(env, "HOME"@) {
        Some(h) => h,
        None => Seq::empty(),
    }
}

/// Where the layout file is looked for: the explicit path if given, else
/// `spread.yml` in `HERDR_PLUGIN_CONFIG_DIR`, else
/// `$HOME/.config/herdr-spreader/spread.yml`.
pub open spec fn config_path(
    explicit: Option<Seq<char>>,
    env: Seq<(Seq<char>, Seq<char>)>,
) -> Seq<char> {
    match explicit {
        Some(p) => p,
        None => match env_get(env, "HERDR_PLUGIN_CONFIG_DIR"@) {
            Some(dir) => joined_path(dir, "spread.yml"@),
            None => joined_path(
                joined_path(joined_path(home_dir(env), ".config"@), "herdr-spreader"@),
                "spread.yml"@,
            ),
        },
    }
}

/// `p` with a leading `~` (alone, or followed by `/`) replaced by the home directory.
pub open spec fn tilde_expanded(p: Seq<char>, env: Seq<(Seq<char>, Seq<char>)>) -> Seq<char> {
    if p == seq!['~'] {
        home_dir(env)
    } else if p.len() >= 2 && p[0] == '~' && p[1] == '/' {
        joined_path(home_dir(env), p.skip(2))
    } else {
        p
    }
}

/// A workspace root: home-expanded, and made absolute against `cwd`.
pub open spec fn root_expanded(
    p: Seq<char>,
    env: Seq<(Seq<char>, Seq<char>)>,
    cwd: Seq<char>,
) -> Seq<char> {
    let e = tilde_expanded(p, env);
    if is_absolute(e) {
        e
    } else {
        joined_path(cwd, e)
    }
}

/// An optional path, home-expanded.
pub open spec fn opt_tilde_expanded(
    p: Option<String>,
    env: Seq<(Seq<char>, Seq<char>)>,
) -> Option<Seq<char>> {
    match p {
        Some(c) => Some(tilde_expanded(c@, env)),
        None => None,
    }
}

/// `r` is `p` with its working directory home-expanded.
pub open spec fn pane_paths_resolved(p: Pane, r: Pane, env: Seq<(Seq<char>, Seq<char>)>) -> bool {
    &&& r == (Pane { cwd: r.cwd, ..p })
    &&& opt_text(r.cwd) == opt_tilde_expanded(p.cwd, env)
}

/// `r` is the layout tree `n` with the working directories of its leaves
/// home-expanded.
pub open spec fn layout_paths_resolved(
    n: LayoutNode,
    r: LayoutNode,
    env: Seq<(Seq<char>, Seq<char>)>,
) -> bool
    decreases n,
{
    match n {
        LayoutNode::Pane(a) => match r {
            LayoutNode::Pane(b) => pane_paths_resolved(a.pane, b.pane, env),
            LayoutNode::Split(_) => false,
        },
        LayoutNode::Split(a) => match r {
            LayoutNode::Split(b) => b.split == a.split && b.ratio == a.ratio && children_paths_resolved(
                a.children@,
                b.children@,
                env,
            ),
            LayoutNode::Pane(_) => false,
        },
    }
}

/// `r` is the layout trees `n`, one for one, with the working directories of
/// their leaves home-expanded.
pub open spec fn children_paths_resolved(
    n: Seq<LayoutNode>,
    r: Seq<LayoutNode>,
    env: Seq<(Seq<char>, Seq<char>)>,
) -> bool
    decreases n,
{
    if n.len() == 0 {
        r.len() == 0
    } else {
        r.len() == n.len() && children_paths_resolved(n.drop_last(), r.drop_last(), env)
            && layout_paths_resolved(n.last(), r.last(), env)
    }
}

/// `r` is `t` with the working directories of the tab, of its panes and of
/// its layout tree's leaves home-expanded.
pub open spec fn tab_paths_resolved(t: Tab, r: Tab, env: Seq<(Seq<char>, Seq<char>)>) -> bool {
    &&& r.label == t.label
    &&& match t.layout {
        Some(l) => (r.layout matches Some(m) && layout_paths_resolved(l, m, env)),
        None => r.layout is None,
    }
    &&& opt_text(r.cwd) == opt_tilde_expanded(t.cwd, env)
    &&& r.panes.len() == t.panes.len()
    &&& forall|j: int|
        0 <= j < t.panes.len() ==> pane_paths_resolved(#[trigger] t.panes@[j], r.panes@[j], env)
}

/// `r` is `ws` with an absolute root (defaulting to `cwd`) and home-expanded
/// tab and pane directories.
pub open spec fn workspace_paths_resolved(
    ws: Workspace,
    r: Workspace,
    env: Seq<(Seq<char>, Seq<char>)>,
    cwd: Seq<char>,
) -> bool {
    &&& r.name == ws.name
    &&& r.env == ws.env
    &&& r.focus == ws.focus
    &&& opt_text(r.root) == Some(
        root_expanded(
            match ws.root {
                Some(p) => p@,
                None => cwd,
            },
            env,
            cwd,
        ),
    )
    &&& r.tabs.len() == ws.tabs.len()
    &&& forall|i: int|
        0 <= i < ws.tabs.len() ==> tab_paths_resolved(#[trigger] ws.tabs@[i], r.tabs@[i], env)
}

/// The path of the layout file to read.
pub fn resolve_config_path(explicit: Option<String>, env: &EnvMap) -> (r: String)
    ensures
        r@ == config_path(opt_text(explicit), env@),
{
    if let Some(path) = explicit {
        return path;
    }
    if let Some(dir) = env.get("HERDR_PLUGIN_CONFIG_DIR") {
        return join_path(dir.as_str(), "spread.yml");
    }
    let home = home_of(env);
    let a = join_path(home.as_str(), ".config");
    let b = join_path(a.as_str(), "herdr-spreader");
    join_path(b.as_str(), "spread.yml")
}

/// The home directory named by `HOME`, or the empty path.
fn home_of(env: &EnvMap) -> (r: String)
    ensures
        r@ == home_dir(env@),
{
    match env.get("HOME") {
        Some(h) => h.clone(),
        None => String::new(),
    }
}

/// `path` with a leading `~` replaced by the home directory.
pub fn expand_tilde(path: &str, env: &EnvMap) -> (r: String)
    ensures
        r@ == tilde_expanded(path@, env@),
{
    let v = chars_of(path);
    if v.len() == 1 && v[0] == '~' {
        assert(path@ == seq!['~']);
        home_of(env)
    } else if v.len() >= 2 && v[0] == '~' && v[1] == '/' {
        assert(path@ != seq!['~']);
        let home = home_of(env);
        let rest = skip_chars(path, 2);
        join_path(home.as_str(), rest.as_str())
    } else {
        assert(path@ != seq!['~']) by {
            if path@ == seq!['~'] {
                assert(v@.len() == 1 && v@[0] == '~');
            }
        }
        path.to_owned()
    }
}

/// A workspace root, home-expanded and made absolute against `cwd`.
pub fn expand_root_path(path: &str, env: &EnvMap, cwd: &str) -> (r: String)
    ensures
        r@ == root_expanded(path@, env@, cwd@),
{
    let expanded = expand_tilde(path, env);
    if path_is_absolute(expanded.as_str()) {
        expanded
    } else {
        join_path(cwd, expanded.as_str())
    }
}

/// An optional path, home-expanded.
fn expand_opt(p: Option<String>, env: &EnvMap) -> (r: Option<String>)
    ensures
        opt_text(r) == opt_tilde_expanded(p, env@),
{
    match p {
        Some(c) => Some(expand_tilde(c.as_str(), env)),
        None => None,
    }
}

fn resolve_pane_paths(pane: Pane, env: &EnvMap) -> (r: Pane)
    ensures
        pane_paths_resolved(pane, r, env@),
{
    let Pane { command, cwd, env: pane_env, split, ratio, wait_for, focus } = pane;
    Pane { command, cwd: expand_opt(cwd, env), env: pane_env, split, ratio, wait_for, focus }
}

/// A layout tree with the working directories of its leaves home-expanded.
fn resolve_layout_paths(node: LayoutNode, env: &EnvMap) -> (r: LayoutNode)
    ensures
        layout_paths_resolved(node, r, env@),
    decreases node,
{
    let ghost whole = node;
    match node {
        LayoutNode::Pane(leaf) => {
            let LayoutPane { pane } = leaf;
            LayoutNode::Pane(LayoutPane { pane: resolve_pane_paths(pane, env) })
        },
        LayoutNode::Split(sp) => {
            let ghost whole_split = sp;
            let LayoutSplit { split, ratio, children } = sp;
            let ghost old = children@;
            let mut out: Vec<LayoutNode> = Vec::new();
            proof {
                assert(old.take(0) == Seq::<LayoutNode>::empty());
            }
            for c in it: children.into_iter()
                invariant
                    it.seq() == old,
                    whole == node,
                    whole is Split,
                    whole->Split_0 == whole_split,
                    whole_split.children@ == old,
                    out@.len() == it.index(),
                    children_paths_resolved(old.take(it.index() as int), out@, env@),
            {
                proof {
                    assert(decreases_to!(whole => whole_split));
                    assert(decreases_to!(whole_split => whole_split.children));
                    assert(decreases_to!(whole_split.children => whole_split.children@));
                    assert(decreases_to!(old => old[it.index() as int]));
                    assert(c == old[it.index() as int]);
                    assert(decreases_to!(whole => c));
                }
                let ghost before = out@;
                let rc = resolve_layout_paths(c, env);
                out.push(rc);
                proof {
                    let nt = old.take(it.index() + 1);
                    assert(nt.drop_last() == old.take(it.index() as int));
                    assert(nt.last() == old[it.index() as int]);
                    assert(out@.drop_last() == before);
                }
            }
            proof {
                assert(old.take(old.len() as int) == old);
            }
            LayoutNode::Split(LayoutSplit { split, ratio, children: out })
        },
    }
}

fn resolve_tab_paths(tab: Tab, env: &EnvMap) -> (r: Tab)
    ensures
        tab_paths_resolved(tab, r, env@),
{
    let Tab { label, cwd, panes, layout } = tab;
    let ghost old_panes = panes@;
    let mut new_panes: Vec<Pane> = Vec::new();
    for pane in it: panes.into_iter()
        invariant
            it.seq() == old_panes,
            new_panes@.len() == it.index(),
            forall|j: int|
                0 <= j < it.index() ==> pane_paths_resolved(
                    #[trigger] old_panes[j],
                    new_panes@[j],
                    env@,
                ),
    {
        new_panes.push(resolve_pane_paths(pane, env));
    }
    let layout = match layout {
        Some(l) => Some(resolve_layout_paths(l, env)),
        None => None,
    };
    Tab { label, cwd: expand_opt(cwd, env), panes: new_panes, layout }
}

/// `config` with an absolute root (defaulting to `cwd`) and home-expanded
/// tab and pane directories.
pub fn resolve_workspace_paths(config: Workspace, env: &EnvMap, cwd: &str) -> (r: Workspace)
    ensures
        workspace_paths_resolved(config, r, env@, cwd@),
{
    let Workspace { name, root, env: ws_env, tabs, focus } = config;
    let root_text = match root {
        Some(p) => p,
        None => cwd.to_owned(),
    };
    let new_root = expand_root_path(root_text.as_str(), env, cwd);
    let ghost old_tabs = tabs@;
    let mut new_tabs: Vec<Tab> = Vec::new();
    for tab in it: tabs.into_iter()
        invariant
            it.seq() == old_tabs,
            new_tabs@.len() == it.index(),
            forall|i: int|
                0 <= i < it.index() ==> tab_paths_resolved(#[trigger] old_tabs[i], new_tabs@[i], env@),
    {
        new_tabs.push(resolve_tab_paths(tab, env));
    }
    Workspace { name, root: Some(new_root), env: ws_env, tabs: new_tabs, focus }
}

/// The layout file with every workspace's paths resolved against `env` and `cwd`.
pub fn resolve_paths(file: SpreadFile, env: &EnvMap, cwd: &str) -> (r: SpreadFile)
    ensures
        r.workspaces.len() == file.workspaces.len(),
        forall|w: int|
            0 <= w < file.workspaces.len() ==> workspace_paths_resolved(
                #[trigger] file.workspaces@[w],
                r.workspaces@[w],
                env@,
                cwd@,
            ),
{
    let ghost old_ws = file.workspaces@;
    let mut out: Vec<Workspace> = Vec::new();
    for ws in it: file.workspaces.into_iter()
        invariant
            it.seq() == old_ws,
            out@.len() == it.index(),
            forall|w: int|
                0 <= w < it.index() ==> workspace_paths_resolved(
                    #[trigger] old_ws[w],
                    out@[w],
                    env@,
                    cwd@,
                ),
    {
        out.push(resolve_workspace_paths(ws, env, cwd));
    }
    SpreadFile { workspaces: out }
}

/// The leaf of a layout tree reached by `path`: each step picks a child of a
/// split by its position; `None` when the path leads nowhere or ends at a split.
pub open spec fn leaf_at(node: LayoutNode, path: Seq<int>) -> Option<Pane>
    decreases path.len(),
{
    if path.len() == 0 {
        match node {
            LayoutNode::Pane(leaf) => Some(leaf.pane),
            LayoutNode::Split(_) => None,
        }
    } else {
        match node {
            LayoutNode::Split(split) => if 0 <= path[0] < split.children.len() {
                leaf_at(split.children@[path[0]], path.drop_first())
            } else {
                None
            },
            LayoutNode::Pane(_) => None,
        }
    }
}

proof fn lemma_children_resolved_at(
    n: Seq<LayoutNode>,
    r: Seq<LayoutNode>,
    env: Seq<(Seq<char>, Seq<char>)>,
    j: int,
)
    requires
        children_paths_resolved(n, r, env),
        0 <= j < n.len(),
    ensures
        r.len() == n.len(),
        layout_paths_resolved(n[j], r[j], env),
    decreases n.len(),
{
    if j < n.len() - 1 {
        lemma_children_resolved_at(n.drop_last(), r.drop_last(), env, j);
        assert(n.drop_last()[j] == n[j]);
        assert(r.drop_last()[j] == r[j]);
    }
}

proof fn lemma_leaf_resolved(
    n: LayoutNode,
    r: LayoutNode,
    env: Seq<(Seq<char>, Seq<char>)>,
    path: Seq<int>,
)
    requires
        layout_paths_resolved(n, r, env),
    ensures
        leaf_at(n, path) matches Some(p) ==> (leaf_at(r, path) matches Some(q) && q == (Pane {
            cwd: q.cwd,
            ..p
        }) && opt_text(q.cwd) == opt_tilde_expanded(p.cwd, env)),
    decreases path.len(),
{
    if path.len() > 0 {
        match n {
            LayoutNode::Split(a) => {
                if 0 <= path[0] < a.children.len() {
                    let b = r->Split_0;
                    lemma_children_resolved_at(a.children@, b.children@, env, path[0]);
                    lemma_leaf_resolved(
                        a.children@[path[0]],
                        b.children@[path[0]],
                        env,
                        path.drop_first(),
                    );
                }
            },
            LayoutNode::Pane(_) => {},
        }
    }
}

/// After path resolution, every leaf of every tab's layout tree, at any
/// depth, has its working directory home-expanded as a pane of the tab's pane
/// list does (`~` alone or a leading `~/` replaced by `$HOME`), the rest of
/// the leaf unchanged; the tree keeps its shape.
pub proof fn law_layout_leaves_home_expanded(
    ws: Workspace,
    r: Workspace,
    env: Seq<(Seq<char>, Seq<char>)>,
    cwd: Seq<char>,
    i: int,
    path: Seq<int>,
)
    requires
        workspace_paths_resolved(ws, r, env, cwd),
        0 <= i < ws.tabs.len(),
    ensures
        ws.tabs@[i].layout is Some <==> r.tabs@[i].layout is Some,
        ws.tabs@[i].layout matches Some(l) ==> (leaf_at(l, path) matches Some(p) ==> (
        leaf_at(r.tabs@[i].layout->0, path) matches Some(q) && q.command == p.command && q.env
            == p.env && q.wait_for == p.wait_for && q.focus == p.focus && opt_text(q.cwd)
            == match p.cwd {
            Some(c) => Some(
                if c@ == seq!['~'] {
                    home_dir(env)
                } else if c@.len() >= 2 && c@[0] == '~' && c@[1] == '/' {
                    joined_path(home_dir(env), c@.skip(2))
                } else {
                    c@
                },
            ),
            None => None,
        })),
{
    assert(tab_paths_resolved(ws.tabs@[i], r.tabs@[i], env));
    match ws.tabs@[i].layout {
        Some(l) => lemma_leaf_resolved(l, r.tabs@[i].layout->0, env, path),
        None => {},
    }
}

} // verus!
