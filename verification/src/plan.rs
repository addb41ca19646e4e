//! What building a layout asks of the backend, stated over the layout alone:
//! the steps in order, with panes named by their place in the layout, and how
//! a record of backend calls is read against them.
use vstd::prelude::*;
use crate::backend::{
    ratio_view, BackendCall, BackendError, SplitOptsView, TabOptsView, WaitForView,
    WorkspaceOptsView,
};
use crate::config::{LayoutNode, LayoutSplit, Pane, SpreadFile, Workspace};
use crate::engine::{resolved_cwd, setup_prefix, wrapped_command, EngineError};
use crate::text::opt_text;

verus! {

/// What a backend identifier stands for: workspace `w`, its first tab, or
/// pane `j` of tab `i` of workspace `w` (pane 0 of tab 0 is the workspace's
/// root pane, pane 0 of a later tab is that tab's root pane).
pub enum Slot {
    Workspace(int),
    FirstTab(int),
    Pane(int, int, int),
}

/// The workspace a slot belongs to.
pub open spec fn slot_owner(s: Slot) -> int {
    match s {
        Slot::Workspace(w) => w,
        Slot::FirstTab(w) => w,
        Slot::Pane(w, _, _) => w,
    }
}

/// One backend request of a layout build, with panes named by slot.
pub enum Step {
    CreateWorkspace { w: int, opts: WorkspaceOptsView },
    RenameTab { w: int, label: Seq<char> },
    CreateTab { w: int, i: int, opts: TabOptsView },
    SplitPane { w: int, i: int, j: int, opts: SplitOptsView },
    /// A layout tree's pane `into` is split off its pane `from`.
    SplitFrom { from: Slot, into: Slot, opts: SplitOptsView },
    Run { pane: Slot, command: Seq<char> },
    WaitOutput { pane: Slot, wait: WaitForView },
    FocusPane { pane: Slot },
    /// The build stops: a pane waits for output but runs no command.
    Abort,
}

/// How a record of calls reads against a sequence of steps.
pub enum Replay {
    /// Every step was made and succeeded; the identifiers handed back so far.
    Completed(Map<Slot, Seq<char>>),
    /// The build stopped with this error.
    Stopped(EngineError),
    /// The record is not what the steps ask for.
    Diverged,
}

/// Reads one call against one step, given the identifiers handed back so far:
/// `None` when the call is not the one the step asks for; otherwise what the
/// call returned, with the identifiers it handed back added.
pub open spec fn read_step(step: Step, call: BackendCall, ids: Map<Slot, Seq<char>>) -> Option<
    Result<Map<Slot, Seq<char>>, BackendError>,
> {
    match step {
        Step::CreateWorkspace { w, opts } => match call {
            BackendCall::CreateWorkspace { opts: o, result } => if o == opts {
                Some(
                    match result {
                        Ok(c) => Ok(
                            ids.insert(Slot::Workspace(w), c.workspace_id@).insert(
                                Slot::FirstTab(w),
                                c.tab_id@,
                            ).insert(Slot::Pane(w, 0, 0), c.root_pane_id@),
                        ),
                        Err(e) => Err(e),
                    },
                )
            } else {
                None
            },
            _ => None,
        },
        Step::RenameTab { w, label } => match call {
            BackendCall::RenameTab { tab_id, label: l, result } => if tab_id == ids[Slot::FirstTab(w)]
                && l == label {
                Some(
                    match result {
                        Ok(_) => Ok(ids),
                        Err(e) => Err(e),
                    },
                )
            } else {
                None
            },
            _ => None,
        },
        Step::CreateTab { w, i, opts } => match call {
            BackendCall::CreateTab { workspace_id, opts: o, result } => if workspace_id
                == ids[Slot::Workspace(w)] && o == opts {
                Some(
                    match result {
                        Ok(t) => Ok(ids.insert(Slot::Pane(w, i, 0), t.root_pane_id@)),
                        Err(e) => Err(e),
                    },
                )
            } else {
                None
            },
            _ => None,
        },
        Step::SplitPane { w, i, j, opts } => match call {
            BackendCall::SplitPane { from_pane, opts: o, result } => if from_pane == ids[Slot::Pane(
                w,
                i,
                j - 1,
            )] && o == opts {
                Some(
                    match result {
                        Ok(p) => Ok(ids.insert(Slot::Pane(w, i, j), p@)),
                        Err(e) => Err(e),
                    },
                )
            } else {
                None
            },
            _ => None,
        },
        Step::SplitFrom { from, into, opts } => match call {
            BackendCall::SplitPane { from_pane, opts: o, result } => if from_pane == ids[from] && o
                == opts {
                Some(
                    match result {
                        Ok(p) => Ok(ids.insert(into, p@)),
                        Err(e) => Err(e),
                    },
                )
            } else {
                None
            },
            _ => None,
        },
        Step::Run { pane, command } => match call {
            BackendCall::Run { pane_id, command: c, result } => if pane_id == ids[pane] && c
                == command {
                Some(
                    match result {
                        Ok(_) => Ok(ids),
                        Err(e) => Err(e),
                    },
                )
            } else {
                None
            },
            _ => None,
        },
        Step::WaitOutput { pane, wait } => match call {
            BackendCall::WaitOutput { pane_id, wait: wt, result } => if pane_id == ids[pane] && wt
                == wait {
                Some(
                    match result {
                        Ok(_) => Ok(ids),
                        Err(e) => Err(e),
                    },
                )
            } else {
                None
            },
            _ => None,
        },
        Step::FocusPane { pane } => match call {
            BackendCall::FocusPane { pane_id, result } => if pane_id == ids[pane] {
                Some(
                    match result {
                        Ok(_) => Ok(ids),
                        Err(e) => Err(e),
                    },
                )
            } else {
                None
            },
            _ => None,
        },
        Step::Abort => None,
    }
}

/// Reads a record of calls against a sequence of steps: each call must be the
/// one its step asks for, given the identifiers handed back before it; the
/// record ends when the steps end, at the first failed call, or at an `Abort`.
pub open spec fn replay(steps: Seq<Step>, calls: Seq<BackendCall>, ids: Map<Slot, Seq<char>>) -> Replay
    decreases steps.len(),
{
    if steps.len() == 0 {
        if calls.len() == 0 {
            Replay::Completed(ids)
        } else {
            Replay::Diverged
        }
    } else if steps[0] is Abort {
        if calls.len() == 0 {
            Replay::Stopped(EngineError::WaitForWithoutCommand)
        } else {
            Replay::Diverged
        }
    } else if calls.len() == 0 {
        Replay::Diverged
    } else {
        match read_step(steps[0], calls[0], ids) {
            None => Replay::Diverged,
            Some(Err(e)) => if calls.len() == 1 {
                Replay::Stopped(EngineError::Backend(e))
            } else {
                Replay::Diverged
            },
            Some(Ok(next)) => replay(steps.drop_first(), calls.drop_first(), next),
        }
    }
}

/// The options a workspace is created with.
pub open spec fn workspace_opts_of(ws: Workspace) -> WorkspaceOptsView {
    WorkspaceOptsView { label: ws.name@, cwd: opt_text(ws.root), env: ws.env@, focus: false }
}

/// The options tab `i` (after the first) is created with.
pub open spec fn tab_opts_of(ws: Workspace, i: int) -> TabOptsView {
    TabOptsView {
        label: opt_text(ws.tabs@[i].label),
        cwd: resolved_cwd(opt_text(ws.root), opt_text(ws.tabs@[i].cwd), None),
        focus: false,
    }
}

/// The options pane `j` (after the first) of tab `i` is split off with.
pub open spec fn split_opts_of(ws: Workspace, i: int, j: int) -> SplitOptsView {
    let tab = ws.tabs@[i];
    let pane = tab.panes@[j];
    SplitOptsView {
        direction: pane.split,
        ratio: ratio_view(pane.ratio),
        cwd: resolved_cwd(opt_text(ws.root), opt_text(tab.cwd), opt_text(pane.cwd)),
        env: pane.env@,
        focus: false,
    }
}

/// The directory a tab's first pane changes to before its command: only when
/// the pane, or (for the workspace's first tab) the tab, names one.
pub open spec fn first_cwd(ws: Workspace, i: int, pane: Pane, first: bool) -> Option<Seq<char>> {
    let tab = ws.tabs@[i];
    if first && (pane.cwd is Some || (i == 0 && tab.cwd is Some)) {
        resolved_cwd(opt_text(ws.root), opt_text(tab.cwd), opt_text(pane.cwd))
    } else {
        None
    }
}

/// The directory pane `j` of tab `i` changes to before its command.
pub open spec fn first_pane_cwd(ws: Workspace, i: int, j: int) -> Option<Seq<char>> {
    first_cwd(ws, i, ws.tabs@[i].panes@[j], j == 0)
}

/// What happens in `pane` of tab `i`, bound to `slot`, once it exists: its
/// command is run (the tab's first pane, `first`, first changes directory and
/// exports its variables), then its output is awaited if asked; a pane
/// without a command that waits for output stops the build; a first pane
/// without a command still gets its directory and variables.
pub open spec fn leaf_actions(ws: Workspace, i: int, pane: Pane, first: bool, slot: Slot) -> Seq<
    Step,
> {
    match pane.command {
        Some(c) => seq![
            Step::Run {
                pane: slot,
                command: if first {
                    wrapped_command(c@, first_cwd(ws, i, pane, first), pane.env@)
                } else {
                    c@
                },
            },
        ] + match pane.wait_for {
            Some(wf) => seq![Step::WaitOutput { pane: slot, wait: wf@ }],
            None => Seq::empty(),
        },
        None => if pane.wait_for is Some {
            seq![Step::Abort]
        } else if first && setup_prefix(first_cwd(ws, i, pane, first), pane.env@) is Some {
            seq![
                Step::Run {
                    pane: slot,
                    command: setup_prefix(first_cwd(ws, i, pane, first), pane.env@)->0,
                },
            ]
        } else {
            Seq::empty()
        },
    }
}

/// What happens in pane `j` of tab `i` once it exists.
pub open spec fn pane_actions(ws: Workspace, w: int, i: int, j: int) -> Seq<Step> {
    leaf_actions(ws, i, ws.tabs@[i].panes@[j], j == 0, Slot::Pane(w, i, j))
}

/// How many panes a layout tree holds: one per leaf; a split without
/// children keeps the one pane it starts from.
pub open spec fn leaf_count(node: LayoutNode) -> nat
    decreases node,
{
    match node {
        LayoutNode::Pane(_) => 1,
        LayoutNode::Split(split) => if split.children.len() == 0 {
            1
        } else {
            leaves_of(split.children@)
        },
    }
}

/// How many panes layout trees hold, one after another.
pub open spec fn leaves_of(children: Seq<LayoutNode>) -> nat
    decreases children,
{
    if children.len() == 0 {
        0
    } else {
        leaves_of(children.drop_last()) + leaf_count(children.last())
    }
}

/// The first leaf of a layout tree, if it has one.
pub open spec fn first_leaf(node: LayoutNode) -> Option<Pane>
    decreases node,
{
    match node {
        LayoutNode::Pane(leaf) => Some(leaf.pane),
        LayoutNode::Split(split) => if split.children.len() == 0 {
            None
        } else {
            first_leaf(split.children@[0])
        },
    }
}

/// The options a split of a layout tree makes the pane of `child` with: the
/// split's direction and ratio, and the directory and variables of the
/// child's first leaf.
pub open spec fn layout_split_opts(ws: Workspace, i: int, split: LayoutSplit, child: LayoutNode) -> SplitOptsView {
    let tab = ws.tabs@[i];
    SplitOptsView {
        direction: split.split,
        ratio: ratio_view(split.ratio),
        cwd: resolved_cwd(
            opt_text(ws.root),
            opt_text(tab.cwd),
            match first_leaf(child) {
                Some(p) => opt_text(p.cwd),
                None => None,
            },
        ),
        env: match first_leaf(child) {
            Some(p) => p.env@,
            None => Seq::empty(),
        },
        focus: false,
    }
}

/// The splits that make the panes of a split's children: the first child
/// keeps the split's pane (slot `k`); each later child's pane is split off
/// the pane of the child before it. Panes are numbered by leaf, in order.
pub open spec fn chain_steps(
    ws: Workspace,
    w: int,
    i: int,
    split: LayoutSplit,
    children: Seq<LayoutNode>,
    k: int,
) -> Seq<Step>
    decreases children.len(),
{
    if children.len() <= 1 {
        Seq::empty()
    } else {
        chain_steps(ws, w, i, split, children.drop_last(), k).push(
            Step::SplitFrom {
                from: Slot::Pane(w, i, k + leaves_of(children.drop_last().drop_last())),
                into: Slot::Pane(w, i, k + leaves_of(children.drop_last())),
                opts: layout_split_opts(ws, i, split, children.last()),
            },
        )
    }
}

/// The steps that build a layout tree of tab `i` whose first pane is slot
/// `k`: a leaf's pane gets its command; a split first makes its children's
/// panes, then builds the children in order.
pub open spec fn layout_steps(ws: Workspace, w: int, i: int, node: LayoutNode, k: int) -> Seq<Step>
    decreases node,
{
    match node {
        LayoutNode::Pane(leaf) => leaf_actions(ws, i, leaf.pane, k == 0, Slot::Pane(w, i, k)),
        LayoutNode::Split(split) => chain_steps(ws, w, i, split, split.children@, k)
            + children_steps(ws, w, i, split.children@, k),
    }
}

/// The steps that build layout trees one after another, the first starting
/// at slot `k`.
pub open spec fn children_steps(
    ws: Workspace,
    w: int,
    i: int,
    children: Seq<LayoutNode>,
    k: int,
) -> Seq<Step>
    decreases children,
{
    if children.len() == 0 {
        Seq::empty()
    } else {
        children_steps(ws, w, i, children.drop_last(), k) + layout_steps(
            ws,
            w,
            i,
            children.last(),
            k + leaves_of(children.drop_last()),
        )
    }
}

/// The last leaf of a layout tree marked for focus, else `acc`.
pub open spec fn layout_focus(w: int, i: int, node: LayoutNode, k: int, acc: Slot) -> Slot
    decreases node,
{
    match node {
        LayoutNode::Pane(leaf) => if leaf.pane.focus {
            Slot::Pane(w, i, k)
        } else {
            acc
        },
        LayoutNode::Split(split) => children_focus(w, i, split.children@, k, acc),
    }
}

/// The last leaf of layout trees marked for focus, else `acc`.
pub open spec fn children_focus(w: int, i: int, children: Seq<LayoutNode>, k: int, acc: Slot) -> Slot
    decreases children,
{
    if children.len() == 0 {
        acc
    } else {
        layout_focus(
            w,
            i,
            children.last(),
            k + leaves_of(children.drop_last()),
            children_focus(w, i, children.drop_last(), k, acc),
        )
    }
}

/// The steps of pane `j` of tab `i`: a later pane is first split off the one
/// before it.
pub open spec fn pane_steps(ws: Workspace, w: int, i: int, j: int) -> Seq<Step> {
    if j > 0 {
        seq![Step::SplitPane { w, i, j, opts: split_opts_of(ws, i, j) }] + pane_actions(ws, w, i, j)
    } else {
        pane_actions(ws, w, i, j)
    }
}

/// The steps of the first `n` panes of tab `i`.
pub open spec fn panes_steps(ws: Workspace, w: int, i: int, n: int) -> Seq<Step>
    decreases n,
{
    if n <= 0 {
        Seq::empty()
    } else {
        panes_steps(ws, w, i, n - 1) + pane_steps(ws, w, i, n - 1)
    }
}

/// How tab `i` comes to be: the first tab is the workspace's own, renamed if
/// it has a label; a later tab is created.
pub open spec fn tab_header(ws: Workspace, w: int, i: int) -> Seq<Step> {
    if i == 0 {
        match ws.tabs@[i].label {
            Some(l) => seq![Step::RenameTab { w, label: l@ }],
            None => Seq::empty(),
        }
    } else {
        seq![Step::CreateTab { w, i, opts: tab_opts_of(ws, i) }]
    }
}

/// The steps of tab `i`.
pub open spec fn tab_steps(ws: Workspace, w: int, i: int) -> Seq<Step> {
    tab_header(ws, w, i) + tab_body(ws, w, i)
}

/// The panes of tab `i`: its layout tree when it has one, built from the
/// tab's root pane; otherwise its list of panes.
pub open spec fn tab_body(ws: Workspace, w: int, i: int) -> Seq<Step> {
    match ws.tabs@[i].layout {
        Some(l) => layout_steps(ws, w, i, l, 0),
        None => panes_steps(ws, w, i, ws.tabs@[i].panes.len() as int),
    }
}

/// The last pane of tab `i` marked for focus, else `acc`.
pub open spec fn tab_focus(ws: Workspace, w: int, i: int, acc: Slot) -> Slot {
    match ws.tabs@[i].layout {
        Some(l) => layout_focus(w, i, l, 0, acc),
        None => panes_focus(ws, w, i, ws.tabs@[i].panes.len() as int, acc),
    }
}

/// The steps of the first `n` tabs.
pub open spec fn tabs_steps(ws: Workspace, w: int, n: int) -> Seq<Step>
    decreases n,
{
    if n <= 0 {
        Seq::empty()
    } else {
        tabs_steps(ws, w, n - 1) + tab_steps(ws, w, n - 1)
    }
}

/// The steps that build workspace `ws` as workspace number `w`: it is
/// created, then its tabs are built in order.
pub open spec fn workspace_steps(ws: Workspace, w: int) -> Seq<Step> {
    seq![Step::CreateWorkspace { w, opts: workspace_opts_of(ws) }] + tabs_steps(
        ws,
        w,
        ws.tabs.len() as int,
    )
}

/// The last of the first `n` panes of tab `i` marked for focus, else `acc`.
pub open spec fn panes_focus(ws: Workspace, w: int, i: int, n: int, acc: Slot) -> Slot
    decreases n,
{
    if n <= 0 {
        acc
    } else if ws.tabs@[i].panes@[n - 1].focus {
        Slot::Pane(w, i, n - 1)
    } else {
        panes_focus(ws, w, i, n - 1, acc)
    }
}

/// The last pane of the first `n` tabs marked for focus, else the
/// workspace's root pane.
pub open spec fn tabs_focus(ws: Workspace, w: int, n: int) -> Slot
    decreases n,
{
    if n <= 0 {
        Slot::Pane(w, 0, 0)
    } else {
        tab_focus(ws, w, n - 1, tabs_focus(ws, w, n - 1))
    }
}

/// The pane a workspace would have focused: its last pane marked `focus`, or
/// else its root pane.
pub open spec fn focus_slot(ws: Workspace, w: int) -> Slot {
    tabs_focus(ws, w, ws.tabs.len() as int)
}

/// Which of the first `n` workspaces wins the focus: the last one marked
/// `focus`, or else the first.
pub open spec fn chosen_workspace(file: SpreadFile, n: int) -> int
    decreases n,
{
    if n <= 1 {
        0
    } else if file.workspaces@[n - 1].focus {
        n - 1
    } else {
        chosen_workspace(file, n - 1)
    }
}

/// The steps that build the first `n` workspaces, in order.
pub open spec fn workspaces_steps(file: SpreadFile, n: int) -> Seq<Step>
    decreases n,
{
    if n <= 0 {
        Seq::empty()
    } else {
        workspaces_steps(file, n - 1) + workspace_steps(file.workspaces@[n - 1], n - 1)
    }
}

/// The steps that build a whole file: every workspace in order, then one
/// focus on the chosen workspace's focus pane (when there is a workspace).
pub open spec fn file_steps(file: SpreadFile) -> Seq<Step> {
    let n = file.workspaces.len() as int;
    if n == 0 {
        Seq::empty()
    } else {
        let c = chosen_workspace(file, n);
        workspaces_steps(file, n) + seq![
            Step::FocusPane { pane: focus_slot(file.workspaces@[c], c) },
        ]
    }
}

/// A finished replay of `a` followed by more steps reads on from where it ended.
pub proof fn lemma_replay_append(
    a: Seq<Step>,
    b: Seq<Step>,
    ca: Seq<BackendCall>,
    cb: Seq<BackendCall>,
    ids: Map<Slot, Seq<char>>,
)
    requires
        replay(a, ca, ids) is Completed,
    ensures
        replay(a + b, ca + cb, ids) == replay(b, cb, replay(a, ca, ids)->Completed_0),
    decreases a.len(),
{
    if a.len() == 0 {
        assert(a + b == b);
        assert(ca + cb == cb);
    } else {
        assert((a + b)[0] == a[0]);
        assert((a + b).drop_first() == a.drop_first() + b);
        assert((ca + cb)[0] == ca[0]);
        assert((ca + cb).drop_first() == ca.drop_first() + cb);
        match read_step(a[0], ca[0], ids) {
            Some(Ok(next)) => {
                lemma_replay_append(a.drop_first(), b, ca.drop_first(), cb, next);
            },
            _ => {},
        }
    }
}

/// A replay that stopped within `a` stops there whatever steps follow.
pub proof fn lemma_replay_stopped(
    a: Seq<Step>,
    b: Seq<Step>,
    ca: Seq<BackendCall>,
    ids: Map<Slot, Seq<char>>,
)
    requires
        replay(a, ca, ids) is Stopped,
    ensures
        replay(a + b, ca, ids) == replay(a, ca, ids),
    decreases a.len(),
{
    assert(a.len() > 0);
    assert((a + b)[0] == a[0]);
    assert((a + b).drop_first() == a.drop_first() + b);
    if !(a[0] is Abort) {
        match read_step(a[0], ca[0], ids) {
            Some(Ok(next)) => {
                lemma_replay_stopped(a.drop_first(), b, ca.drop_first(), next);
            },
            _ => {},
        }
    }
}

/// One more step and call read on from a finished replay.
pub proof fn lemma_replay_push(
    a: Seq<Step>,
    s: Step,
    ca: Seq<BackendCall>,
    c: BackendCall,
    ids: Map<Slot, Seq<char>>,
)
    requires
        replay(a, ca, ids) is Completed,
    ensures
        replay(a.push(s), ca.push(c), ids) == replay(
            seq![s],
            seq![c],
            replay(a, ca, ids)->Completed_0,
        ),
{
    assert(a.push(s) == a + seq![s]);
    assert(ca.push(c) == ca + seq![c]);
    lemma_replay_append(a, seq![s], ca, seq![c], ids);
}

/// The steps of the first `m` panes start the steps of the first `n`.
pub proof fn lemma_panes_prefix(ws: Workspace, w: int, i: int, m: int, n: int)
    requires
        0 <= m <= n,
    ensures
        panes_steps(ws, w, i, n).len() >= panes_steps(ws, w, i, m).len(),
        panes_steps(ws, w, i, n).take(panes_steps(ws, w, i, m).len() as int) == panes_steps(
            ws,
            w,
            i,
            m,
        ),
    decreases n,
{
    if m < n {
        lemma_panes_prefix(ws, w, i, m, n - 1);
        let a = panes_steps(ws, w, i, m);
        let p = panes_steps(ws, w, i, n - 1);
        assert((p + pane_steps(ws, w, i, n - 1)).take(a.len() as int) == p.take(a.len() as int));
    } else {
        let a = panes_steps(ws, w, i, m);
        assert(a.take(a.len() as int) == a);
    }
}

/// The steps of the first `m` tabs start the steps of the first `n`.
pub proof fn lemma_tabs_prefix(ws: Workspace, w: int, m: int, n: int)
    requires
        0 <= m <= n,
    ensures
        tabs_steps(ws, w, n).len() >= tabs_steps(ws, w, m).len(),
        tabs_steps(ws, w, n).take(tabs_steps(ws, w, m).len() as int) == tabs_steps(ws, w, m),
    decreases n,
{
    if m < n {
        lemma_tabs_prefix(ws, w, m, n - 1);
        let a = tabs_steps(ws, w, m);
        let p = tabs_steps(ws, w, n - 1);
        assert((p + tab_steps(ws, w, n - 1)).take(a.len() as int) == p.take(a.len() as int));
    } else {
        let a = tabs_steps(ws, w, m);
        assert(a.take(a.len() as int) == a);
    }
}

/// The steps of the first `m` workspaces start the steps of the first `n`.
pub proof fn lemma_workspaces_prefix(file: SpreadFile, m: int, n: int)
    requires
        0 <= m <= n,
    ensures
        workspaces_steps(file, n).len() >= workspaces_steps(file, m).len(),
        workspaces_steps(file, n).take(workspaces_steps(file, m).len() as int)
            == workspaces_steps(file, m),
    decreases n,
{
    if m < n {
        lemma_workspaces_prefix(file, m, n - 1);
        let a = workspaces_steps(file, m);
        let p = workspaces_steps(file, n - 1);
        assert((p + workspace_steps(file.workspaces@[n - 1], n - 1)).take(a.len() as int) == p.take(
            a.len() as int,
        ));
    } else {
        let a = workspaces_steps(file, m);
        assert(a.take(a.len() as int) == a);
    }
}

/// `a` is where `b` starts.
pub open spec fn is_prefix(a: Seq<Step>, b: Seq<Step>) -> bool {
    a.len() <= b.len() && b.take(a.len() as int) == a
}

pub proof fn lemma_prefix_trans(a: Seq<Step>, b: Seq<Step>, c: Seq<Step>)
    requires
        is_prefix(a, b),
        is_prefix(b, c),
    ensures
        is_prefix(a, c),
{
    assert(c.take(a.len() as int) == c.take(b.len() as int).take(a.len() as int));
}

pub proof fn lemma_prefix_append(a: Seq<Step>, b: Seq<Step>, c: Seq<Step>)
    requires
        is_prefix(b, c),
    ensures
        is_prefix(a + b, a + c),
{
    assert((a + c).take((a + b).len() as int) == a + c.take(b.len() as int));
}

/// One step read against one call.
pub proof fn lemma_replay_single(s: Step, c: BackendCall, ids: Map<Slot, Seq<char>>)
    requires
        !(s is Abort),
    ensures
        replay(seq![s], seq![c], ids) == match read_step(s, c, ids) {
            None => Replay::Diverged,
            Some(Err(e)) => Replay::Stopped(EngineError::Backend(e)),
            Some(Ok(next)) => Replay::Completed(next),
        },
{
    reveal_with_fuel(replay, 2);
    assert(seq![s][0] == s);
    assert(seq![c][0] == c);
    assert(seq![s].drop_first() == Seq::<Step>::empty());
    assert(seq![c].drop_first() == Seq::<BackendCall>::empty());
}

/// The record after one more call, read against the steps with one more step.
pub proof fn lemma_record(
    steps: Seq<Step>,
    before: Seq<BackendCall>,
    start: Seq<BackendCall>,
    s: Step,
    c: BackendCall,
    ids: Map<Slot, Seq<char>>,
)
    requires
        before.len() >= start.len(),
        before.take(start.len() as int) == start,
        replay(steps, before.skip(start.len() as int), ids) is Completed,
        !(s is Abort),
    ensures
        before.push(c).len() >= start.len(),
        before.push(c).take(start.len() as int) == start,
        before.push(c).skip(start.len() as int) == before.skip(start.len() as int).push(c),
        replay(steps.push(s), before.push(c).skip(start.len() as int), ids) == match read_step(
            s,
            c,
            replay(steps, before.skip(start.len() as int), ids)->Completed_0,
        ) {
            None => Replay::Diverged,
            Some(Err(e)) => Replay::Stopped(EngineError::Backend(e)),
            Some(Ok(next)) => Replay::Completed(next),
        },
{
    assert(before.push(c).take(start.len() as int) == before.take(start.len() as int));
    assert(before.push(c).skip(start.len() as int) == before.skip(start.len() as int).push(c));
    lemma_replay_push(steps, s, before.skip(start.len() as int), c, ids);
    lemma_replay_single(s, c, replay(steps, before.skip(start.len() as int), ids)->Completed_0);
}

/// A slot made by tab `i` of workspace `w`: its panes, except the
/// workspace's own root pane.
pub open spec fn in_tab(s: Slot, w: int, i: int) -> bool {
    match s {
        Slot::Pane(a, b, c) => a == w && b == i && (i > 0 || c > 0),
        _ => false,
    }
}

/// A pane slot of workspace `w` made before tab `i`, or its root pane.
pub open spec fn before_tab(s: Slot, w: int, i: int) -> bool {
    match s {
        Slot::Pane(a, b, c) => a == w && ((0 <= b < i && 0 <= c) || (b == 0 && c == 0)),
        _ => false,
    }
}

/// `next` binds every slot of `prev` as `prev` does, except those `keep` refuses.
pub open spec fn keeps_tab(prev: Map<Slot, Seq<char>>, next: Map<Slot, Seq<char>>, w: int, i: int) -> bool {
    forall|s: Slot|
        #![trigger prev.contains_key(s)]
        prev.contains_key(s) && !in_tab(s, w, i) ==> next.contains_key(s) && next[s] == prev[s]
}

/// `next` binds every slot of `prev` that belongs to another workspace as `prev` does.
pub open spec fn keeps_others(prev: Map<Slot, Seq<char>>, next: Map<Slot, Seq<char>>, w: int) -> bool {
    forall|s: Slot|
        #![trigger prev.contains_key(s)]
        prev.contains_key(s) && slot_owner(s) != w ==> next.contains_key(s) && next[s] == prev[s]
}

/// The focus among the first `n` panes of tab `i` is `acc` or one of them.
pub proof fn lemma_panes_focus_shape(ws: Workspace, w: int, i: int, n: int, acc: Slot)
    ensures
        panes_focus(ws, w, i, n, acc) == acc || (panes_focus(ws, w, i, n, acc) matches Slot::Pane(
            a,
            b,
            c,
        ) && a == w && b == i && 0 <= c < n),
    decreases n,
{
    if n > 0 {
        lemma_panes_focus_shape(ws, w, i, n - 1, acc);
    }
}

/// The focus among the first `n` tabs is a pane made before tab `n`, or the root pane.
pub proof fn lemma_tabs_focus_shape(ws: Workspace, w: int, n: int)
    requires
        n >= 0,
    ensures
        before_tab(tabs_focus(ws, w, n), w, n),
    decreases n,
{
    if n > 0 {
        lemma_tabs_focus_shape(ws, w, n - 1);
        lemma_tab_focus_shape(ws, w, n - 1, tabs_focus(ws, w, n - 1));
    }
}

/// A workspace's focus pane belongs to it.
pub proof fn lemma_focus_slot_owner(ws: Workspace, w: int)
    ensures
        slot_owner(focus_slot(ws, w)) == w,
{
    lemma_tabs_focus_shape(ws, w, ws.tabs.len() as int);
}

/// Steps that focus no pane.
pub open spec fn focuses_nothing(steps: Seq<Step>) -> bool {
    forall|k: int| 0 <= k < steps.len() ==> !(#[trigger] steps[k] is FocusPane)
}

proof fn lemma_focuses_nothing_append(a: Seq<Step>, b: Seq<Step>)
    requires
        focuses_nothing(a),
        focuses_nothing(b),
    ensures
        focuses_nothing(a + b),
{
    assert forall|k: int| 0 <= k < (a + b).len() implies !(#[trigger] (a + b)[k] is FocusPane) by {
        if k >= a.len() {
            assert((a + b)[k] == b[k - a.len()]);
        }
    }
}

proof fn lemma_panes_focus_nothing(ws: Workspace, w: int, i: int, n: int)
    ensures
        focuses_nothing(panes_steps(ws, w, i, n)),
    decreases n,
{
    if n > 0 {
        lemma_panes_focus_nothing(ws, w, i, n - 1);
        let a = pane_actions(ws, w, i, n - 1);
        assert(focuses_nothing(a));
        assert(focuses_nothing(pane_steps(ws, w, i, n - 1))) by {
            if n - 1 > 0 {
                lemma_focuses_nothing_append(
                    seq![Step::SplitPane { w, i, j: n - 1, opts: split_opts_of(ws, i, n - 1) }],
                    a,
                );
            }
        }
        lemma_focuses_nothing_append(panes_steps(ws, w, i, n - 1), pane_steps(ws, w, i, n - 1));
    }
}

proof fn lemma_tabs_focus_nothing(ws: Workspace, w: int, n: int)
    ensures
        focuses_nothing(tabs_steps(ws, w, n)),
    decreases n,
{
    if n > 0 {
        lemma_tabs_focus_nothing(ws, w, n - 1);
        match ws.tabs@[n - 1].layout {
            Some(l) => lemma_layout_focus_nothing(ws, w, n - 1, l, 0),
            None => lemma_panes_focus_nothing(ws, w, n - 1, ws.tabs@[n - 1].panes.len() as int),
        }
        assert(focuses_nothing(tab_header(ws, w, n - 1)));
        lemma_focuses_nothing_append(tab_header(ws, w, n - 1), tab_body(ws, w, n - 1));
        lemma_focuses_nothing_append(tabs_steps(ws, w, n - 1), tab_steps(ws, w, n - 1));
    }
}

proof fn lemma_workspaces_focus_nothing(file: SpreadFile, n: int)
    ensures
        focuses_nothing(workspaces_steps(file, n)),
    decreases n,
{
    if n > 0 {
        lemma_workspaces_focus_nothing(file, n - 1);
        let ws = file.workspaces@[n - 1];
        lemma_tabs_focus_nothing(ws, n - 1, ws.tabs.len() as int);
        lemma_focuses_nothing_append(
            seq![Step::CreateWorkspace { w: n - 1, opts: workspace_opts_of(ws) }],
            tabs_steps(ws, n - 1, ws.tabs.len() as int),
        );
        lemma_focuses_nothing_append(workspaces_steps(file, n - 1), workspace_steps(ws, n - 1));
    }
}

/// Building a workspace focuses no pane.
pub proof fn law_workspace_focuses_nothing(ws: Workspace, w: int)
    ensures
        focuses_nothing(workspace_steps(ws, w)),
{
    lemma_tabs_focus_nothing(ws, w, ws.tabs.len() as int);
    lemma_focuses_nothing_append(
        seq![Step::CreateWorkspace { w, opts: workspace_opts_of(ws) }],
        tabs_steps(ws, w, ws.tabs.len() as int),
    );
}

/// Focus happens exactly once for a whole file, as its very last step, and
/// never for a file without workspaces.
pub proof fn law_focus_once_at_end(file: SpreadFile)
    ensures
        file.workspaces.len() == 0 ==> focuses_nothing(file_steps(file)),
        file.workspaces.len() > 0 ==> {
            let steps = file_steps(file);
            &&& steps.len() > 0
            &&& steps.last() is FocusPane
            &&& focuses_nothing(steps.drop_last())
        },
{
    let n = file.workspaces.len() as int;
    lemma_workspaces_focus_nothing(file, n);
    if n > 0 {
        let steps = file_steps(file);
        assert(steps.drop_last() == workspaces_steps(file, n));
    }
}

/// The workspace that wins the focus is the last one marked `focus`, or the
/// first one when none is.
pub proof fn law_chosen_workspace(file: SpreadFile, n: int)
    requires
        0 < n <= file.workspaces.len(),
    ensures
        0 <= chosen_workspace(file, n) < n,
        (exists|k: int| 0 <= k < n && (#[trigger] file.workspaces@[k]).focus) ==> {
            &&& file.workspaces@[chosen_workspace(file, n)].focus
            &&& forall|k: int|
                chosen_workspace(file, n) < k < n ==> !(#[trigger] file.workspaces@[k]).focus
        },
        (forall|k: int| 0 <= k < n ==> !(#[trigger] file.workspaces@[k]).focus)
            ==> chosen_workspace(file, n) == 0,
    decreases n,
{
    if n > 1 {
        law_chosen_workspace(file, n - 1);
        if !file.workspaces@[n - 1].focus {
            if exists|k: int| 0 <= k < n && (#[trigger] file.workspaces@[k]).focus {
                let k = choose|k: int| 0 <= k < n && (#[trigger] file.workspaces@[k]).focus;
                assert(k < n - 1);
            }
        }
    }
}

/// Applying a file of one workspace is building that workspace, then focusing
/// the pane its build returns.
pub proof fn law_one_workspace_file(file: SpreadFile)
    requires
        file.workspaces.len() == 1,
    ensures
        file_steps(file) == workspace_steps(file.workspaces@[0], 0).push(
            Step::FocusPane { pane: focus_slot(file.workspaces@[0], 0) },
        ),
{
    assert(workspaces_steps(file, 0) == Seq::<Step>::empty());
    assert(workspaces_steps(file, 1) == workspace_steps(file.workspaces@[0], 0));
}

/// The record since `start` is the record up to `mid` followed by the record since `mid`.
pub proof fn lemma_calls_concat(start: Seq<BackendCall>, mid: Seq<BackendCall>, all: Seq<BackendCall>)
    requires
        mid.len() >= start.len(),
        mid.take(start.len() as int) == start,
        all.len() >= mid.len(),
        all.take(mid.len() as int) == mid,
    ensures
        all.len() >= start.len(),
        all.take(start.len() as int) == start,
        all.skip(start.len() as int) == mid.skip(start.len() as int) + all.skip(mid.len() as int),
{
    assert(all.take(start.len() as int) == all.take(mid.len() as int).take(start.len() as int));
    assert(all.skip(start.len() as int) =~= mid.skip(start.len() as int) + all.skip(mid.len() as int));
}

/// A replay that stopped within a prefix of the steps stops there.
pub proof fn lemma_replay_stopped_prefix(
    a: Seq<Step>,
    whole: Seq<Step>,
    ca: Seq<BackendCall>,
    ids: Map<Slot, Seq<char>>,
)
    requires
        replay(a, ca, ids) is Stopped,
        whole.len() >= a.len(),
        whole.take(a.len() as int) == a,
    ensures
        replay(whole, ca, ids) == replay(a, ca, ids),
{
    assert(whole == a + whole.skip(a.len() as int));
    lemma_replay_stopped(a, whole.skip(a.len() as int), ca, ids);
}

/// The error a call returned, if it failed.
pub open spec fn call_error(c: BackendCall) -> Option<BackendError> {
    match c {
        BackendCall::CreateWorkspace { result, .. } => match result {
            Err(e) => Some(e),
            Ok(_) => None,
        },
        BackendCall::RenameTab { result, .. } => match result {
            Err(e) => Some(e),
            Ok(_) => None,
        },
        BackendCall::CreateTab { result, .. } => match result {
            Err(e) => Some(e),
            Ok(_) => None,
        },
        BackendCall::SplitPane { result, .. } => match result {
            Err(e) => Some(e),
            Ok(_) => None,
        },
        BackendCall::Run { result, .. } => match result {
            Err(e) => Some(e),
            Ok(_) => None,
        },
        BackendCall::WaitOutput { result, .. } => match result {
            Err(e) => Some(e),
            Ok(_) => None,
        },
        BackendCall::FocusPane { result, .. } => match result {
            Err(e) => Some(e),
            Ok(_) => None,
        },
    }
}

/// Whether `call` is the operation `step` asks for.
pub open spec fn same_kind(step: Step, call: BackendCall) -> bool {
    match step {
        Step::CreateWorkspace { .. } => call is CreateWorkspace,
        Step::RenameTab { .. } => call is RenameTab,
        Step::CreateTab { .. } => call is CreateTab,
        Step::SplitPane { .. } => call is SplitPane,
        Step::SplitFrom { .. } => call is SplitPane,
        Step::Run { .. } => call is Run,
        Step::WaitOutput { .. } => call is WaitOutput,
        Step::FocusPane { .. } => call is FocusPane,
        Step::Abort => false,
    }
}

proof fn lemma_read_step_kind(step: Step, call: BackendCall, ids: Map<Slot, Seq<char>>)
    requires
        read_step(step, call, ids) is Some,
    ensures
        same_kind(step, call),
        (read_step(step, call, ids)->0 is Err) == (call_error(call) is Some),
        read_step(step, call, ids) matches Some(Err(e)) ==> call_error(call) == Some(e),
{
}

/// A finished replay made one call per step, each the operation its step
/// asks for, and none of them failed.
pub proof fn lemma_replay_completed(
    steps: Seq<Step>,
    calls: Seq<BackendCall>,
    ids: Map<Slot, Seq<char>>,
)
    requires
        replay(steps, calls, ids) is Completed,
    ensures
        calls.len() == steps.len(),
        forall|k: int|
            0 <= k < calls.len() ==> same_kind(steps[k], #[trigger] calls[k]) && call_error(
                calls[k],
            ) is None,
    decreases steps.len(),
{
    if steps.len() > 0 {
        lemma_read_step_kind(steps[0], calls[0], ids);
        let next = read_step(steps[0], calls[0], ids)->0->Ok_0;
        lemma_replay_completed(steps.drop_first(), calls.drop_first(), next);
        assert forall|k: int| 0 <= k < calls.len() implies same_kind(
            steps[k],
            #[trigger] calls[k],
        ) && call_error(calls[k]) is None by {
            if k > 0 {
                assert(calls[k] == calls.drop_first()[k - 1]);
                assert(steps[k] == steps.drop_first()[k - 1]);
            }
        }
    }
}

/// A replay that stopped made one call per step up to the stop, each the
/// operation its step asks for. A failed call is the last call made, and
/// every call before it succeeded; a stop for a pane that waits without a
/// command comes at an `Abort` step, after calls that all succeeded.
pub proof fn lemma_replay_stopped_calls(
    steps: Seq<Step>,
    calls: Seq<BackendCall>,
    ids: Map<Slot, Seq<char>>,
)
    requires
        replay(steps, calls, ids) is Stopped,
    ensures
        calls.len() <= steps.len(),
        forall|k: int| 0 <= k < calls.len() ==> same_kind(steps[k], #[trigger] calls[k]),
        replay(steps, calls, ids) matches Replay::Stopped(EngineError::Backend(b)) ==> {
            &&& calls.len() > 0
            &&& call_error(calls.last()) == Some(b)
            &&& forall|k: int| 0 <= k < calls.len() - 1 ==> call_error(#[trigger] calls[k]) is None
        },
        replay(steps, calls, ids) matches Replay::Stopped(EngineError::WaitForWithoutCommand) ==> {
            &&& calls.len() < steps.len()
            &&& steps[calls.len() as int] is Abort
            &&& forall|k: int| 0 <= k < calls.len() ==> call_error(#[trigger] calls[k]) is None
        },
    decreases steps.len(),
{
    if steps.len() > 0 && !(steps[0] is Abort) && calls.len() > 0 {
        lemma_read_step_kind(steps[0], calls[0], ids);
        match read_step(steps[0], calls[0], ids) {
            Some(Ok(next)) => {
                lemma_replay_stopped_calls(steps.drop_first(), calls.drop_first(), next);
                assert forall|k: int| 0 <= k < calls.len() implies same_kind(
                    steps[k],
                    #[trigger] calls[k],
                ) by {
                    if k > 0 {
                        assert(calls[k] == calls.drop_first()[k - 1]);
                        assert(steps[k] == steps.drop_first()[k - 1]);
                    }
                }
                assert forall|k: int| 0 <= k < calls.len() - 1 implies call_error(
                    #[trigger] calls[k],
                ) is None || replay(steps, calls, ids) is Stopped && !(replay(
                    steps,
                    calls,
                    ids,
                ) matches Replay::Stopped(EngineError::Backend(_))) by {
                    if k > 0 {
                        assert(calls[k] == calls.drop_first()[k - 1]);
                    }
                }
                assert forall|k: int| 0 <= k < calls.len() implies call_error(
                    #[trigger] calls[k],
                ) is None || !(replay(steps, calls, ids) matches Replay::Stopped(
                    EngineError::WaitForWithoutCommand,
                )) by {
                    if k > 0 {
                        assert(calls[k] == calls.drop_first()[k - 1]);
                    }
                }
                if calls.len() > 1 {
                    assert(calls.drop_first().last() == calls.last());
                }
                if calls.len() < steps.len() {
                    assert(steps.drop_first()[calls.len() - 1] == steps[calls.len() as int]);
                }
            },
            _ => {
                assert(calls.len() == 1);
                assert(calls.last() == calls[0]);
            },
        }
    }
}

/// A finished replay of `a` and one more step reads, without its last call,
/// as a finished replay of `a`, and the last call is what the step asks for.
proof fn lemma_replay_completed_last(
    a: Seq<Step>,
    s: Step,
    calls: Seq<BackendCall>,
    ids: Map<Slot, Seq<char>>,
)
    requires
        replay(a.push(s), calls, ids) is Completed,
    ensures
        calls.len() == a.len() + 1,
        replay(a, calls.drop_last(), ids) is Completed,
        read_step(s, calls.last(), replay(a, calls.drop_last(), ids)->Completed_0) == Some(
            Ok::<Map<Slot, Seq<char>>, BackendError>(replay(a.push(s), calls, ids)->Completed_0),
        ),
    decreases a.len(),
{
    lemma_replay_completed(a.push(s), calls, ids);
    if a.len() == 0 {
        assert(a.push(s) == seq![s]);
        assert(calls == seq![calls[0]]);
        assert(calls.drop_last() == Seq::<BackendCall>::empty());
        assert(!(s is Abort));
        lemma_replay_single(s, calls[0], ids);
    } else {
        assert(a.push(s)[0] == a[0]);
        assert(a.push(s).drop_first() == a.drop_first().push(s));
        let next = read_step(a[0], calls[0], ids)->0->Ok_0;
        lemma_replay_completed_last(a.drop_first(), s, calls.drop_first(), next);
        assert(calls.drop_first().drop_last() == calls.drop_last().drop_first());
        assert(calls.drop_last()[0] == calls[0]);
        assert(calls.drop_first().last() == calls.last());
    }
}

/// When applying a file of at least one workspace finishes, focus was asked
/// for exactly once, as the very last call, on the pane bound to the chosen
/// workspace's focus slot (its last pane marked `focus`, or its root pane);
/// every call succeeded.
pub proof fn law_apply_focuses_once_last(file: SpreadFile, calls: Seq<BackendCall>)
    requires
        file.workspaces.len() > 0,
        replay(file_steps(file), calls, Map::empty()) is Completed,
    ensures
        calls.len() > 0,
        calls.last() matches BackendCall::FocusPane { pane_id, result } && result is Ok
            && pane_id == (replay(file_steps(file), calls, Map::empty())->Completed_0)[focus_slot(
            file.workspaces@[chosen_workspace(file, file.workspaces.len() as int)],
            chosen_workspace(file, file.workspaces.len() as int),
        )],
        forall|k: int| 0 <= k < calls.len() - 1 ==> !(#[trigger] calls[k] is FocusPane),
        forall|k: int| 0 <= k < calls.len() ==> call_error(#[trigger] calls[k]) is None,
{
    let n = file.workspaces.len() as int;
    let steps = file_steps(file);
    let c = chosen_workspace(file, n);
    let last = Step::FocusPane { pane: focus_slot(file.workspaces@[c], c) };
    assert(steps == workspaces_steps(file, n).push(last));
    law_focus_once_at_end(file);
    lemma_replay_completed(steps, calls, Map::empty());
    lemma_replay_completed_last(workspaces_steps(file, n), last, calls, Map::empty());
    assert forall|k: int| 0 <= k < calls.len() - 1 implies !(#[trigger] calls[k] is FocusPane) by {
        assert(steps.drop_last()[k] == steps[k]);
        assert(same_kind(steps[k], calls[k]));
    }
}

/// When applying a file stops, every call made was the one its step asked
/// for, and nothing follows the failure: a failed call is the last call and
/// all before it succeeded; a pane that waits without a command stops the
/// build before any call for it, after calls that all succeeded. Focus is
/// never asked for before the last call, and not at all when a pane waits
/// without a command.
pub proof fn law_apply_stops_at_failure(file: SpreadFile, calls: Seq<BackendCall>)
    requires
        replay(file_steps(file), calls, Map::empty()) is Stopped,
    ensures
        calls.len() <= file_steps(file).len(),
        forall|k: int| 0 <= k < calls.len() ==> same_kind(file_steps(file)[k], #[trigger] calls[k]),
        replay(file_steps(file), calls, Map::empty()) matches Replay::Stopped(
            EngineError::Backend(b),
        ) ==> {
            &&& calls.len() > 0
            &&& call_error(calls.last()) == Some(b)
            &&& forall|k: int| 0 <= k < calls.len() - 1 ==> call_error(#[trigger] calls[k]) is None
        },
        replay(file_steps(file), calls, Map::empty()) matches Replay::Stopped(
            EngineError::WaitForWithoutCommand,
        ) ==> forall|k: int|
            0 <= k < calls.len() ==> call_error(#[trigger] calls[k]) is None && !(calls[k] is FocusPane),
        forall|k: int| 0 <= k < calls.len() - 1 ==> !(#[trigger] calls[k] is FocusPane),
{
    let steps = file_steps(file);
    lemma_replay_stopped_calls(steps, calls, Map::empty());
    law_focus_once_at_end(file);
    if file.workspaces.len() == 0 {
        assert(steps.len() == 0);
    }
    assert forall|k: int| 0 <= k < calls.len() - 1 implies !(#[trigger] calls[k] is FocusPane) by {
        assert(same_kind(steps[k], calls[k]));
        if file.workspaces.len() > 0 {
            assert(steps.drop_last()[k] == steps[k]);
        }
    }
    if replay(steps, calls, Map::empty()) matches Replay::Stopped(
        EngineError::WaitForWithoutCommand,
    ) {
        assert forall|k: int| 0 <= k < calls.len() implies !(#[trigger] calls[k] is FocusPane) by {
            assert(same_kind(steps[k], calls[k]));
            assert(steps[calls.len() as int] is Abort);
            if file.workspaces.len() > 0 && k == steps.len() - 1 {
                assert(false);
            }
            if file.workspaces.len() > 0 {
                assert(steps.drop_last()[k] == steps[k]);
            }
        }
    }
}

/// A layout tree holds at least one pane.
pub proof fn lemma_leaf_count_positive(node: LayoutNode)
    ensures
        leaf_count(node) >= 1,
    decreases node,
{
    match node {
        LayoutNode::Pane(_) => {},
        LayoutNode::Split(split) => {
            if split.children.len() > 0 {
                let cs = split.children@;
                assert(decreases_to!(node => split));
                assert(decreases_to!(split => split.children));
                assert(decreases_to!(split.children => cs));
                assert(decreases_to!(cs => cs[cs.len() - 1]));
                assert(cs.last() == cs[cs.len() - 1]);
                lemma_leaf_count_positive(cs.last());
            }
        },
    }
}

/// The panes of the first `t` trees, then of tree `t`, are the panes of the
/// first `t + 1`; the counts grow with `t`.
pub proof fn lemma_leaves_take(children: Seq<LayoutNode>, t: int, u: int)
    requires
        0 <= t <= u <= children.len(),
    ensures
        t < children.len() ==> leaves_of(children.take(t + 1)) == leaves_of(children.take(t))
            + leaf_count(children[t]),
        t < u ==> leaves_of(children.take(t)) + 1 <= leaves_of(children.take(u)),
        leaves_of(children.take(t)) <= leaves_of(children.take(u)),
    decreases u - t,
{
    if t < children.len() {
        assert(children.take(t + 1).drop_last() == children.take(t));
        assert(children.take(t + 1).last() == children[t]);
        lemma_leaf_count_positive(children[t]);
    }
    if t < u {
        lemma_leaves_take(children, t + 1, u);
    }
}

pub proof fn lemma_layout_focus_shape(w: int, i: int, node: LayoutNode, k: int, acc: Slot)
    ensures
        layout_focus(w, i, node, k, acc) == acc || (layout_focus(w, i, node, k, acc) matches Slot::Pane(
            a,
            b,
            c,
        ) && a == w && b == i && k <= c < k + leaf_count(node)),
    decreases node,
{
    match node {
        LayoutNode::Pane(_) => {},
        LayoutNode::Split(split) => {
            assert(decreases_to!(node => split));
            assert(decreases_to!(split => split.children));
            assert(decreases_to!(split.children => split.children@));
            lemma_children_focus_shape(w, i, split.children@, k, acc);
        },
    }
}

pub proof fn lemma_children_focus_shape(w: int, i: int, children: Seq<LayoutNode>, k: int, acc: Slot)
    ensures
        children_focus(w, i, children, k, acc) == acc || (children_focus(
            w,
            i,
            children,
            k,
            acc,
        ) matches Slot::Pane(a, b, c) && a == w && b == i && k <= c < k + leaves_of(children)),
    decreases children,
{
    if children.len() > 0 {
        let d = children.drop_last();
        assert(decreases_to!(children => d));
        assert(decreases_to!(children => children[children.len() - 1]));
        assert(children.last() == children[children.len() - 1]);
        lemma_children_focus_shape(w, i, d, k, acc);
        lemma_layout_focus_shape(w, i, children.last(), k + leaves_of(d), children_focus(w, i, d, k, acc));
    }
}

/// The focus of tab `i` is `acc` or one of its panes.
pub proof fn lemma_tab_focus_shape(ws: Workspace, w: int, i: int, acc: Slot)
    ensures
        tab_focus(ws, w, i, acc) == acc || (tab_focus(ws, w, i, acc) matches Slot::Pane(a, b, c)
            && a == w && b == i && 0 <= c),
{
    match ws.tabs@[i].layout {
        Some(l) => lemma_layout_focus_shape(w, i, l, 0, acc),
        None => lemma_panes_focus_shape(ws, w, i, ws.tabs@[i].panes.len() as int, acc),
    }
}

proof fn lemma_chain_focus_nothing(
    ws: Workspace,
    w: int,
    i: int,
    split: LayoutSplit,
    children: Seq<LayoutNode>,
    k: int,
)
    ensures
        focuses_nothing(chain_steps(ws, w, i, split, children, k)),
    decreases children.len(),
{
    if children.len() > 1 {
        lemma_chain_focus_nothing(ws, w, i, split, children.drop_last(), k);
    }
}

proof fn lemma_layout_focus_nothing(ws: Workspace, w: int, i: int, node: LayoutNode, k: int)
    ensures
        focuses_nothing(layout_steps(ws, w, i, node, k)),
    decreases node,
{
    match node {
        LayoutNode::Pane(_) => {},
        LayoutNode::Split(split) => {
            assert(decreases_to!(node => split));
            assert(decreases_to!(split => split.children));
            assert(decreases_to!(split.children => split.children@));
            lemma_chain_focus_nothing(ws, w, i, split, split.children@, k);
            lemma_children_focus_nothing(ws, w, i, split.children@, k);
            lemma_focuses_nothing_append(
                chain_steps(ws, w, i, split, split.children@, k),
                children_steps(ws, w, i, split.children@, k),
            );
        },
    }
}

proof fn lemma_children_focus_nothing(ws: Workspace, w: int, i: int, children: Seq<LayoutNode>, k: int)
    ensures
        focuses_nothing(children_steps(ws, w, i, children, k)),
    decreases children,
{
    if children.len() > 0 {
        let d = children.drop_last();
        assert(decreases_to!(children => d));
        assert(decreases_to!(children => children[children.len() - 1]));
        assert(children.last() == children[children.len() - 1]);
        lemma_children_focus_nothing(ws, w, i, d, k);
        lemma_layout_focus_nothing(ws, w, i, children.last(), k + leaves_of(d));
        lemma_focuses_nothing_append(
            children_steps(ws, w, i, d, k),
            layout_steps(ws, w, i, children.last(), k + leaves_of(d)),
        );
    }
}

/// Whether `s` is a pane of tab `i` of workspace `w` numbered strictly
/// between `lo` and `hi`.
pub open spec fn in_range(s: Slot, w: int, i: int, lo: int, hi: int) -> bool {
    match s {
        Slot::Pane(a, b, c) => a == w && b == i && lo < c < hi,
        _ => false,
    }
}

/// `next` binds every slot of `prev` as `prev` does, except panes of tab `i`
/// numbered strictly between `lo` and `hi`.
pub open spec fn keeps_range(
    prev: Map<Slot, Seq<char>>,
    next: Map<Slot, Seq<char>>,
    w: int,
    i: int,
    lo: int,
    hi: int,
) -> bool {
    forall|s: Slot|
        #![trigger prev.contains_key(s)]
        prev.contains_key(s) && !in_range(s, w, i, lo, hi) ==> next.contains_key(s) && next[s]
            == prev[s]
}

/// The splits for the first `t` children start the splits for all of them.
pub proof fn lemma_chain_prefix(
    ws: Workspace,
    w: int,
    i: int,
    split: LayoutSplit,
    children: Seq<LayoutNode>,
    k: int,
    t: int,
)
    requires
        0 <= t <= children.len(),
    ensures
        is_prefix(
            chain_steps(ws, w, i, split, children.take(t), k),
            chain_steps(ws, w, i, split, children, k),
        ),
    decreases children.len(),
{
    let whole = chain_steps(ws, w, i, split, children, k);
    if t == children.len() {
        assert(children.take(t) == children);
        assert(whole.take(whole.len() as int) == whole);
    } else if children.len() <= 1 {
        assert(children.take(t).len() <= 1);
        assert(chain_steps(ws, w, i, split, children.take(t), k) == Seq::<Step>::empty());
        assert(whole.take(0) == Seq::<Step>::empty());
    } else {
        let d = children.drop_last();
        assert(children.take(t) == d.take(t));
        lemma_chain_prefix(ws, w, i, split, d, k, t);
        let a = chain_steps(ws, w, i, split, d.take(t), k);
        let p = chain_steps(ws, w, i, split, d, k);
        assert(whole == p.push(whole.last()));
        assert(whole.take(a.len() as int) == p.take(a.len() as int));
    }
}

/// The steps of the first `t` children start the steps of all of them.
pub proof fn lemma_children_prefix(
    ws: Workspace,
    w: int,
    i: int,
    children: Seq<LayoutNode>,
    k: int,
    t: int,
)
    requires
        0 <= t <= children.len(),
    ensures
        is_prefix(children_steps(ws, w, i, children.take(t), k), children_steps(ws, w, i, children, k)),
    decreases children.len(),
{
    let whole = children_steps(ws, w, i, children, k);
    if t == children.len() {
        assert(children.take(t) == children);
        assert(whole.take(whole.len() as int) == whole);
    } else {
        let d = children.drop_last();
        assert(children.take(t) == d.take(t));
        lemma_children_prefix(ws, w, i, d, k, t);
        let a = children_steps(ws, w, i, d.take(t), k);
        let p = children_steps(ws, w, i, d, k);
        assert(whole == p + layout_steps(ws, w, i, children.last(), k + leaves_of(d)));
        assert(whole.take(a.len() as int) == p.take(a.len() as int));
    }
}

/// Steps that create no workspace.
pub open spec fn creates_no_workspace(steps: Seq<Step>) -> bool {
    forall|k: int| 0 <= k < steps.len() ==> !(#[trigger] steps[k] is CreateWorkspace)
}

proof fn lemma_no_create_append(a: Seq<Step>, b: Seq<Step>)
    requires
        creates_no_workspace(a),
        creates_no_workspace(b),
    ensures
        creates_no_workspace(a + b),
{
    assert forall|k: int| 0 <= k < (a + b).len() implies !(#[trigger] (a + b)[k] is CreateWorkspace) by {
        if k >= a.len() {
            assert((a + b)[k] == b[k - a.len()]);
        }
    }
}

proof fn lemma_panes_no_create(ws: Workspace, w: int, i: int, n: int)
    ensures
        creates_no_workspace(panes_steps(ws, w, i, n)),
    decreases n,
{
    if n > 0 {
        lemma_panes_no_create(ws, w, i, n - 1);
        let a = pane_actions(ws, w, i, n - 1);
        assert(creates_no_workspace(a));
        assert(creates_no_workspace(pane_steps(ws, w, i, n - 1))) by {
            if n - 1 > 0 {
                lemma_no_create_append(
                    seq![Step::SplitPane { w, i, j: n - 1, opts: split_opts_of(ws, i, n - 1) }],
                    a,
                );
            }
        }
        lemma_no_create_append(panes_steps(ws, w, i, n - 1), pane_steps(ws, w, i, n - 1));
    }
}

proof fn lemma_chain_no_create(
    ws: Workspace,
    w: int,
    i: int,
    split: LayoutSplit,
    children: Seq<LayoutNode>,
    k: int,
)
    ensures
        creates_no_workspace(chain_steps(ws, w, i, split, children, k)),
    decreases children.len(),
{
    if children.len() > 1 {
        lemma_chain_no_create(ws, w, i, split, children.drop_last(), k);
    }
}

proof fn lemma_layout_no_create(ws: Workspace, w: int, i: int, node: LayoutNode, k: int)
    ensures
        creates_no_workspace(layout_steps(ws, w, i, node, k)),
    decreases node,
{
    match node {
        LayoutNode::Pane(_) => {},
        LayoutNode::Split(split) => {
            assert(decreases_to!(node => split));
            assert(decreases_to!(split => split.children));
            assert(decreases_to!(split.children => split.children@));
            lemma_chain_no_create(ws, w, i, split, split.children@, k);
            lemma_children_no_create(ws, w, i, split.children@, k);
            lemma_no_create_append(
                chain_steps(ws, w, i, split, split.children@, k),
                children_steps(ws, w, i, split.children@, k),
            );
        },
    }
}

proof fn lemma_children_no_create(ws: Workspace, w: int, i: int, children: Seq<LayoutNode>, k: int)
    ensures
        creates_no_workspace(children_steps(ws, w, i, children, k)),
    decreases children,
{
    if children.len() > 0 {
        let d = children.drop_last();
        assert(decreases_to!(children => d));
        assert(decreases_to!(children => children[children.len() - 1]));
        assert(children.last() == children[children.len() - 1]);
        lemma_children_no_create(ws, w, i, d, k);
        lemma_layout_no_create(ws, w, i, children.last(), k + leaves_of(d));
        lemma_no_create_append(
            children_steps(ws, w, i, d, k),
            layout_steps(ws, w, i, children.last(), k + leaves_of(d)),
        );
    }
}

proof fn lemma_tabs_no_create(ws: Workspace, w: int, n: int)
    ensures
        creates_no_workspace(tabs_steps(ws, w, n)),
    decreases n,
{
    if n > 0 {
        lemma_tabs_no_create(ws, w, n - 1);
        match ws.tabs@[n - 1].layout {
            Some(l) => lemma_layout_no_create(ws, w, n - 1, l, 0),
            None => lemma_panes_no_create(ws, w, n - 1, ws.tabs@[n - 1].panes.len() as int),
        }
        assert(creates_no_workspace(tab_header(ws, w, n - 1)));
        lemma_no_create_append(tab_header(ws, w, n - 1), tab_body(ws, w, n - 1));
        lemma_no_create_append(tabs_steps(ws, w, n - 1), tab_steps(ws, w, n - 1));
    }
}

/// Building a layout into an existing workspace creates no workspace: its
/// steps hold no creation, so whatever herdr answers, no call of the record
/// creates one.
pub proof fn law_existing_workspace_creates_none(
    ws: Workspace,
    calls: Seq<BackendCall>,
    ids: Map<Slot, Seq<char>>,
)
    ensures
        creates_no_workspace(tabs_steps(ws, 0, ws.tabs.len() as int)),
        replay(tabs_steps(ws, 0, ws.tabs.len() as int), calls, ids) is Completed
            || replay(tabs_steps(ws, 0, ws.tabs.len() as int), calls, ids) is Stopped ==> forall|
            k: int,
        |
            0 <= k < calls.len() ==> !(#[trigger] calls[k] is CreateWorkspace),
{
    let steps = tabs_steps(ws, 0, ws.tabs.len() as int);
    lemma_tabs_no_create(ws, 0, ws.tabs.len() as int);
    if replay(steps, calls, ids) is Completed {
        lemma_replay_completed(steps, calls, ids);
        assert forall|k: int| 0 <= k < calls.len() implies !(#[trigger] calls[k] is CreateWorkspace) by {
            assert(same_kind(steps[k], calls[k]));
        }
    } else if replay(steps, calls, ids) is Stopped {
        lemma_replay_stopped_calls(steps, calls, ids);
        assert forall|k: int| 0 <= k < calls.len() implies !(#[trigger] calls[k] is CreateWorkspace) by {
            assert(same_kind(steps[k], calls[k]));
        }
    }
}

/// Whether `call` is what `step` asks for as far as the step fixes it alone:
/// a workspace creation with exactly the step's options; otherwise the same
/// operation.
pub open spec fn call_follows(step: Step, call: BackendCall) -> bool {
    match step {
        Step::CreateWorkspace { opts, .. } => (call matches BackendCall::CreateWorkspace {
            opts: o,
            ..
        } && o == opts),
        _ => same_kind(step, call),
    }
}

/// A record that reads against `steps` without diverging follows them, call
/// by call.
pub proof fn lemma_replay_follows(steps: Seq<Step>, calls: Seq<BackendCall>, ids: Map<Slot, Seq<char>>)
    requires
        !(replay(steps, calls, ids) is Diverged),
    ensures
        calls.len() <= steps.len(),
        forall|k: int| 0 <= k < calls.len() ==> call_follows(steps[k], #[trigger] calls[k]),
    decreases steps.len(),
{
    if steps.len() > 0 && !(steps[0] is Abort) && calls.len() > 0 {
        lemma_read_step_kind(steps[0], calls[0], ids);
        assert(call_follows(steps[0], calls[0]));
        match read_step(steps[0], calls[0], ids) {
            Some(Ok(next)) => {
                lemma_replay_follows(steps.drop_first(), calls.drop_first(), next);
                assert forall|k: int| 0 <= k < calls.len() implies call_follows(
                    steps[k],
                    #[trigger] calls[k],
                ) by {
                    if k > 0 {
                        assert(calls[k] == calls.drop_first()[k - 1]);
                        assert(steps[k] == steps.drop_first()[k - 1]);
                    }
                }
            },
            _ => {},
        }
    }
}

/// How many workspace creations a record holds.
pub open spec fn creates_in(calls: Seq<BackendCall>) -> nat
    decreases calls.len(),
{
    if calls.len() == 0 {
        0
    } else {
        creates_in(calls.drop_last()) + if calls.last() is CreateWorkspace {
            1nat
        } else {
            0nat
        }
    }
}

/// How many workspace creations steps hold.
pub open spec fn step_creates(steps: Seq<Step>) -> nat
    decreases steps.len(),
{
    if steps.len() == 0 {
        0
    } else {
        step_creates(steps.drop_last()) + if steps.last() is CreateWorkspace {
            1nat
        } else {
            0nat
        }
    }
}

proof fn lemma_step_creates_append(a: Seq<Step>, b: Seq<Step>)
    ensures
        step_creates(a + b) == step_creates(a) + step_creates(b),
    decreases b.len(),
{
    if b.len() == 0 {
        assert(a + b == a);
    } else {
        lemma_step_creates_append(a, b.drop_last());
        assert((a + b).drop_last() == a + b.drop_last());
        assert((a + b).last() == b.last());
    }
}

proof fn lemma_step_creates_none(s: Seq<Step>)
    requires
        creates_no_workspace(s),
    ensures
        step_creates(s) == 0,
    decreases s.len(),
{
    if s.len() > 0 {
        assert(creates_no_workspace(s.drop_last())) by {
            assert forall|k: int| 0 <= k < s.drop_last().len() implies !(
            #[trigger] s.drop_last()[k] is CreateWorkspace) by {
                assert(s.drop_last()[k] == s[k]);
            }
        }
        lemma_step_creates_none(s.drop_last());
        assert(s.last() == s[s.len() - 1]);
    }
}

proof fn lemma_counts_agree(steps: Seq<Step>, calls: Seq<BackendCall>, j: int)
    requires
        0 <= j <= calls.len(),
        j <= steps.len(),
        forall|k: int| 0 <= k < j ==> call_follows(steps[k], #[trigger] calls[k]),
    ensures
        creates_in(calls.take(j)) == step_creates(steps.take(j)),
    decreases j,
{
    if j > 0 {
        lemma_counts_agree(steps, calls, j - 1);
        assert(calls.take(j).drop_last() == calls.take(j - 1));
        assert(steps.take(j).drop_last() == steps.take(j - 1));
        assert(calls.take(j).last() == calls[j - 1]);
        assert(steps.take(j).last() == steps[j - 1]);
        assert(call_follows(steps[j - 1], calls[j - 1]));
    }
}

/// The steps of the first `m` workspaces create them in order, each with
/// its own options, and nothing else creates one.
proof fn lemma_workspaces_creations(file: SpreadFile, m: int)
    requires
        0 <= m <= file.workspaces.len(),
    ensures
        step_creates(workspaces_steps(file, m)) == m,
        forall|j: int|
            0 <= j < workspaces_steps(file, m).len() ==> (#[trigger] workspaces_steps(
                file,
                m,
            )[j] matches Step::CreateWorkspace { w, opts } ==> {
                &&& w == step_creates(workspaces_steps(file, m).take(j))
                &&& 0 <= w < m
                &&& opts == workspace_opts_of(file.workspaces@[w])
            }),
    decreases m,
{
    if m > 0 {
        lemma_workspaces_creations(file, m - 1);
        let a = workspaces_steps(file, m - 1);
        let ws = file.workspaces@[m - 1];
        let head = seq![Step::CreateWorkspace { w: m - 1, opts: workspace_opts_of(ws) }];
        let t = tabs_steps(ws, m - 1, ws.tabs.len() as int);
        lemma_tabs_no_create(ws, m - 1, ws.tabs.len() as int);
        lemma_step_creates_none(t);
        assert(workspace_steps(ws, m - 1) == head + t);
        let all = workspaces_steps(file, m);
        assert(all == a + (head + t));
        assert(a + (head + t) == (a + head) + t);
        lemma_step_creates_append(a, head);
        lemma_step_creates_append(a + head, t);
        assert(head.drop_last() == Seq::<Step>::empty());
        assert(head.last() == head[0]);
        assert(step_creates(Seq::<Step>::empty()) == 0);
        assert(step_creates(head) == 1);
        assert forall|j: int| 0 <= j < all.len() implies (#[trigger] all[j] matches Step::CreateWorkspace {
            w,
            opts,
        } ==> {
            &&& w == step_creates(all.take(j))
            &&& 0 <= w < m
            &&& opts == workspace_opts_of(file.workspaces@[w])
        }) by {
            if j < a.len() {
                assert(all[j] == a[j]);
                assert(all.take(j) == a.take(j));
            } else if j == a.len() {
                assert(all[j] == head[0]);
                assert(all.take(j) == a);
            } else {
                let jt = j - a.len() - 1;
                assert(all[j] == t[jt]);
                assert(!(t[jt] is CreateWorkspace));
            }
        }
    }
}

/// The steps of a whole file: those of its workspaces, then one focus.
proof fn lemma_file_steps_split(file: SpreadFile)
    ensures
        file_steps(file).len() >= workspaces_steps(file, file.workspaces.len() as int).len(),
        file_steps(file).take(workspaces_steps(file, file.workspaces.len() as int).len() as int)
            == workspaces_steps(file, file.workspaces.len() as int),
        forall|j: int|
            workspaces_steps(file, file.workspaces.len() as int).len() <= j < file_steps(file).len()
                ==> !(#[trigger] file_steps(file)[j] is CreateWorkspace),
        step_creates(file_steps(file)) == file.workspaces.len(),
{
    let n = file.workspaces.len() as int;
    let a = workspaces_steps(file, n);
    lemma_workspaces_creations(file, n);
    if n > 0 {
        let c = chosen_workspace(file, n);
        let last = seq![Step::FocusPane { pane: focus_slot(file.workspaces@[c], c) }];
        assert(file_steps(file) == a + last);
        lemma_step_creates_append(a, last);
        assert(last.drop_last() == Seq::<Step>::empty());
        assert(last.last() == last[0]);
        assert(step_creates(Seq::<Step>::empty()) == 0);
        assert((a + last).take(a.len() as int) == a);
        assert forall|j: int| a.len() <= j < file_steps(file).len() implies !(
        #[trigger] file_steps(file)[j] is CreateWorkspace) by {
            assert(file_steps(file)[j] == last[j - a.len()]);
        }
    } else {
        assert(file_steps(file) == a);
        assert(a.take(a.len() as int) == a);
    }
}

proof fn lemma_create_call(file: SpreadFile, calls: Seq<BackendCall>, j: int)
    requires
        !(replay(file_steps(file), calls, Map::empty()) is Diverged),
        0 <= j < calls.len(),
        calls[j] is CreateWorkspace,
    ensures
        ({
            let k = creates_in(calls.take(j)) as int;
            let opts = calls[j]->CreateWorkspace_opts;
            &&& k < file.workspaces.len()
            &&& opts.label == file.workspaces@[k].name@
            &&& opts.cwd == opt_text(file.workspaces@[k].root)
            &&& opts.env == file.workspaces@[k].env@
            &&& !opts.focus
        }),
{
    let n = file.workspaces.len() as int;
    let steps = file_steps(file);
    let a = workspaces_steps(file, n);
    lemma_workspaces_creations(file, n);
    lemma_file_steps_split(file);
    lemma_replay_follows(steps, calls, Map::empty());
    assert(call_follows(steps[j], calls[j]));
    lemma_counts_agree(steps, calls, j);
    assert(j < a.len());
    assert(steps[j] == a[j]);
    assert(steps.take(j) == a.take(j));
    assert(a[j] is CreateWorkspace);
}

/// Applying a layout file creates its workspaces one by one, in order, each
/// with its own name as label, its own root as working directory, its own
/// environment variables unchanged and without focus: the `k`-th workspace
/// creation in the record (counting from 0) is that of the file's `k`-th
/// workspace. When the build finishes, every workspace was created once.
pub proof fn law_workspaces_created_with_their_options(file: SpreadFile, calls: Seq<BackendCall>)
    requires
        !(replay(file_steps(file), calls, Map::empty()) is Diverged),
    ensures
        forall|j: int|
            0 <= j < calls.len() ==> (#[trigger] calls[j] matches BackendCall::CreateWorkspace {
                opts,
                ..
            } ==> {
                let k = creates_in(calls.take(j)) as int;
                &&& k < file.workspaces.len()
                &&& opts.label == file.workspaces@[k].name@
                &&& opts.cwd == opt_text(file.workspaces@[k].root)
                &&& opts.env == file.workspaces@[k].env@
                &&& !opts.focus
            }),
        replay(file_steps(file), calls, Map::empty()) is Completed ==> creates_in(calls)
            == file.workspaces.len(),
{
    assert forall|j: int| 0 <= j < calls.len() && (#[trigger] calls[j] is CreateWorkspace) implies ({
        let k = creates_in(calls.take(j)) as int;
        let opts = calls[j]->CreateWorkspace_opts;
        &&& k < file.workspaces.len()
        &&& opts.label == file.workspaces@[k].name@
        &&& opts.cwd == opt_text(file.workspaces@[k].root)
        &&& opts.env == file.workspaces@[k].env@
        &&& !opts.focus
    }) by {
        lemma_create_call(file, calls, j);
    }
    let steps = file_steps(file);
    if replay(steps, calls, Map::empty()) is Completed {
        lemma_file_steps_split(file);
        lemma_replay_completed(steps, calls, Map::empty());
        lemma_replay_follows(steps, calls, Map::empty());
        lemma_counts_agree(steps, calls, calls.len() as int);
        assert(calls.take(calls.len() as int) == calls);
        assert(steps.take(steps.len() as int) == steps);
    }
}

/// A step of building tabs into workspace `w`: it creates no workspace, any
/// tab it creates is in workspace `w`, and a layout split binds a pane.
pub open spec fn builds_inside(step: Step, w: int) -> bool {
    match step {
        Step::CreateWorkspace { .. } => false,
        Step::CreateTab { w: v, .. } => v == w,
        Step::SplitFrom { into, .. } => into is Pane,
        _ => true,
    }
}

/// Every step builds inside workspace `w`.
pub open spec fn all_inside(steps: Seq<Step>, w: int) -> bool {
    forall|k: int| 0 <= k < steps.len() ==> builds_inside(#[trigger] steps[k], w)
}

proof fn lemma_inside_append(a: Seq<Step>, b: Seq<Step>, w: int)
    requires
        all_inside(a, w),
        all_inside(b, w),
    ensures
        all_inside(a + b, w),
{
    assert forall|k: int| 0 <= k < (a + b).len() implies builds_inside(#[trigger] (a + b)[k], w) by {
        if k >= a.len() {
            assert((a + b)[k] == b[k - a.len()]);
        }
    }
}

proof fn lemma_panes_inside(ws: Workspace, w: int, i: int, n: int)
    ensures
        all_inside(panes_steps(ws, w, i, n), w),
    decreases n,
{
    if n > 0 {
        lemma_panes_inside(ws, w, i, n - 1);
        let a = pane_actions(ws, w, i, n - 1);
        assert(all_inside(a, w));
        assert(all_inside(pane_steps(ws, w, i, n - 1), w)) by {
            if n - 1 > 0 {
                lemma_inside_append(
                    seq![Step::SplitPane { w, i, j: n - 1, opts: split_opts_of(ws, i, n - 1) }],
                    a,
                    w,
                );
            }
        }
        lemma_inside_append(panes_steps(ws, w, i, n - 1), pane_steps(ws, w, i, n - 1), w);
    }
}

proof fn lemma_chain_inside(
    ws: Workspace,
    w: int,
    i: int,
    split: LayoutSplit,
    children: Seq<LayoutNode>,
    k: int,
)
    ensures
        all_inside(chain_steps(ws, w, i, split, children, k), w),
    decreases children.len(),
{
    if children.len() > 1 {
        lemma_chain_inside(ws, w, i, split, children.drop_last(), k);
    }
}

proof fn lemma_layout_inside(ws: Workspace, w: int, i: int, node: LayoutNode, k: int)
    ensures
        all_inside(layout_steps(ws, w, i, node, k), w),
    decreases node,
{
    match node {
        LayoutNode::Pane(_) => {},
        LayoutNode::Split(split) => {
            assert(decreases_to!(node => split));
            assert(decreases_to!(split => split.children));
            assert(decreases_to!(split.children => split.children@));
            lemma_chain_inside(ws, w, i, split, split.children@, k);
            lemma_children_inside(ws, w, i, split.children@, k);
            lemma_inside_append(
                chain_steps(ws, w, i, split, split.children@, k),
                children_steps(ws, w, i, split.children@, k),
                w,
            );
        },
    }
}

proof fn lemma_children_inside(ws: Workspace, w: int, i: int, children: Seq<LayoutNode>, k: int)
    ensures
        all_inside(children_steps(ws, w, i, children, k), w),
    decreases children,
{
    if children.len() > 0 {
        let d = children.drop_last();
        assert(decreases_to!(children => d));
        assert(decreases_to!(children => children[children.len() - 1]));
        assert(children.last() == children[children.len() - 1]);
        lemma_children_inside(ws, w, i, d, k);
        lemma_layout_inside(ws, w, i, children.last(), k + leaves_of(d));
        lemma_inside_append(
            children_steps(ws, w, i, d, k),
            layout_steps(ws, w, i, children.last(), k + leaves_of(d)),
            w,
        );
    }
}

/// The steps that build the tabs of workspace `w` build inside it.
pub proof fn lemma_tabs_inside(ws: Workspace, w: int, n: int)
    ensures
        all_inside(tabs_steps(ws, w, n), w),
    decreases n,
{
    if n > 0 {
        lemma_tabs_inside(ws, w, n - 1);
        match ws.tabs@[n - 1].layout {
            Some(l) => lemma_layout_inside(ws, w, n - 1, l, 0),
            None => lemma_panes_inside(ws, w, n - 1, ws.tabs@[n - 1].panes.len() as int),
        }
        assert(all_inside(tab_header(ws, w, n - 1), w));
        lemma_inside_append(tab_header(ws, w, n - 1), tab_body(ws, w, n - 1), w);
        lemma_inside_append(tabs_steps(ws, w, n - 1), tab_steps(ws, w, n - 1), w);
    }
}

/// A record read against steps that build inside workspace `w` creates tabs
/// only in the workspace the identifiers start out binding to `w`, which
/// stays bound throughout.
pub proof fn lemma_replay_inside(
    steps: Seq<Step>,
    calls: Seq<BackendCall>,
    ids: Map<Slot, Seq<char>>,
    w: int,
)
    requires
        !(replay(steps, calls, ids) is Diverged),
        all_inside(steps, w),
        ids.contains_key(Slot::Workspace(w)),
    ensures
        forall|k: int|
            0 <= k < calls.len() ==> (#[trigger] calls[k] matches BackendCall::CreateTab {
                workspace_id,
                ..
            } ==> workspace_id == ids[Slot::Workspace(w)]),
        replay(steps, calls, ids) matches Replay::Completed(fin) ==> fin.contains_key(
            Slot::Workspace(w),
        ) && fin[Slot::Workspace(w)] == ids[Slot::Workspace(w)],
    decreases steps.len(),
{
    if steps.len() > 0 && !(steps[0] is Abort) && calls.len() > 0 {
        assert(builds_inside(steps[0], w));
        match read_step(steps[0], calls[0], ids) {
            Some(Ok(next)) => {
                assert(next.contains_key(Slot::Workspace(w)) && next[Slot::Workspace(w)]
                    == ids[Slot::Workspace(w)]);
                assert(all_inside(steps.drop_first(), w)) by {
                    assert forall|k: int| 0 <= k < steps.drop_first().len() implies builds_inside(
                        #[trigger] steps.drop_first()[k],
                        w,
                    ) by {
                        assert(steps.drop_first()[k] == steps[k + 1]);
                    }
                }
                lemma_replay_inside(steps.drop_first(), calls.drop_first(), next, w);
                assert forall|k: int| 0 <= k < calls.len() implies (
                #[trigger] calls[k] matches BackendCall::CreateTab { workspace_id, .. }
                    ==> workspace_id == ids[Slot::Workspace(w)]) by {
                    if k > 0 {
                        assert(calls[k] == calls.drop_first()[k - 1]);
                    }
                }
            },
            _ => {
                assert(calls.len() == 1);
            },
        }
    }
}

} // verus!
