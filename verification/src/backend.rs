//! The operations a herdr backend offers, and the record of calls made on one.
use vstd::prelude::*;
use crate::config::{SplitDirection, WaitFor};
use crate::env::EnvMap;
use crate::text::opt_text;

verus! {

/// Options for creating a workspace.
#[derive(Debug, Clone, PartialEq)]
pub struct WorkspaceOpts {
    pub label: String,
    pub cwd: Option<String>,
    pub env: EnvMap,
    pub focus: bool,
}

/// The identifiers herdr hands back for a new workspace.
#[derive(Debug, Clone, PartialEq)]
pub struct WorkspaceCreated {
    pub workspace_id: String,
    pub tab_id: String,
    pub root_pane_id: String,
}

/// Options for creating a tab.
#[derive(Debug, Clone, PartialEq)]
pub struct TabOpts {
    pub label: Option<String>,
    pub cwd: Option<String>,
    pub focus: bool,
}

/// The identifiers herdr hands back for a new tab.
#[derive(Debug, Clone, PartialEq)]
pub struct TabCreated {
    pub tab_id: String,
    pub root_pane_id: String,
}

/// Options for splitting a pane.
#[derive(Debug, Default, Clone, PartialEq)]
pub struct SplitOpts {
    pub direction: SplitDirection,
    pub ratio: Option<crate::config::Ratio>,
    pub cwd: Option<String>,
    pub env: EnvMap,
    pub focus: bool,
}

/// A pane as herdr lists it.
#[derive(Debug, Clone, PartialEq)]
pub struct PaneInfo {
    pub pane_id: String,
    pub tab_id: String,
}

/// A failed backend operation.
#[derive(Debug, Clone, PartialEq)]
pub enum BackendError {
    Herdr { message: String },
    CommandFailed { code: Option<i32>, stderr: String },
}

/// What a call of `create_workspace` was given.
pub struct WorkspaceOptsView {
    pub label: Seq<char>,
    pub cwd: Option<Seq<char>>,
    pub env: Seq<(Seq<char>, Seq<char>)>,
    pub focus: bool,
}

/// What a call of `create_tab` was given.
pub struct TabOptsView {
    pub label: Option<Seq<char>>,
    pub cwd: Option<Seq<char>>,
    pub focus: bool,
}

/// What a call of `split_pane` was given; a ratio is its bits and its text.
pub struct SplitOptsView {
    pub direction: SplitDirection,
    pub ratio: Option<(u64, Seq<char>)>,
    pub cwd: Option<Seq<char>>,
    pub env: Seq<(Seq<char>, Seq<char>)>,
    pub focus: bool,
}

/// What a call of `wait_output` was given.
pub struct WaitForView {
    pub pattern: Seq<char>,
    pub timeout_ms: Option<u64>,
}

impl View for WorkspaceOpts {
    type V = WorkspaceOptsView;

    open spec fn view(&self) -> WorkspaceOptsView {
        WorkspaceOptsView {
            label: self.label@,
            cwd: opt_text(self.cwd),
            env: self.env@,
            focus: self.focus,
        }
    }
}

impl View for TabOpts {
    type V = TabOptsView;

    open spec fn view(&self) -> TabOptsView {
        TabOptsView { label: opt_text(self.label), cwd: opt_text(self.cwd), focus: self.focus }
    }
}

/// The view of an optional ratio.
pub open spec fn ratio_view(r: Option<crate::config::Ratio>) -> Option<(u64, Seq<char>)> {
    match r {
        Some(x) => Some((x.bits, x.text@)),
        None => None,
    }
}

impl View for SplitOpts {
    type V = SplitOptsView;

    open spec fn view(&self) -> SplitOptsView {
        SplitOptsView {
            direction: self.direction,
            ratio: ratio_view(self.ratio),
            cwd: opt_text(self.cwd),
            env: self.env@,
            focus: self.focus,
        }
    }
}

impl View for WaitFor {
    type V = WaitForView;

    open spec fn view(&self) -> WaitForView {
        WaitForView { pattern: self.pattern@, timeout_ms: self.timeout_ms }
    }
}

/// One call made on a backend: what it was given and what it returned.
pub enum BackendCall {
    CreateWorkspace { opts: WorkspaceOptsView, result: Result<WorkspaceCreated, BackendError> },
    RenameTab { tab_id: Seq<char>, label: Seq<char>, result: Result<(), BackendError> },
    CreateTab {
        workspace_id: Seq<char>,
        opts: TabOptsView,
        result: Result<TabCreated, BackendError>,
    },
    SplitPane { from_pane: Seq<char>, opts: SplitOptsView, result: Result<String, BackendError> },
    Run { pane_id: Seq<char>, command: Seq<char>, result: Result<(), BackendError> },
    WaitOutput { pane_id: Seq<char>, wait: WaitForView, result: Result<(), BackendError> },
    FocusPane { pane_id: Seq<char>, result: Result<(), BackendError> },
}

/// A herdr instance that layouts are built in. Nothing is assumed of what an
/// operation returns.
pub trait HerdrBackend {
    fn create_workspace(&mut self, opts: &WorkspaceOpts) -> Result<WorkspaceCreated, BackendError>;

    fn rename_tab(&mut self, tab_id: &str, label: &str) -> Result<(), BackendError>;

    fn create_tab(&mut self, workspace_id: &str, opts: &TabOpts) -> Result<TabCreated, BackendError>;

    fn split_pane(&mut self, from_pane: &str, opts: &SplitOpts) -> Result<String, BackendError>;

    fn run(&mut self, pane_id: &str, command: &str) -> Result<(), BackendError>;

    fn wait_output(&mut self, pane_id: &str, wait: &WaitFor) -> Result<(), BackendError>;

    fn focus_pane(&mut self, pane_id: &str) -> Result<(), BackendError>;
}

/// A backend together with the record of every call made on it through this
/// wrapper, in order, with what each call was given and returned.
pub struct Traced<B> {
    backend: B,
    calls: Ghost<Seq<BackendCall>>,
}

impl<B: HerdrBackend> Traced<B> {
    /// The calls made so far.
    pub closed spec fn calls(&self) -> Seq<BackendCall> {
        self.calls@
    }

    /// The wrapped backend.
    pub closed spec fn inner(&self) -> B {
        self.backend
    }

    /// `backend`, with no calls made yet.
    pub fn new(backend: B) -> (r: Traced<B>)
        ensures
            r.calls() == Seq::<BackendCall>::empty(),
            r.inner() == backend,
    {
        Traced { backend, calls: Ghost(Seq::empty()) }
    }

    /// The wrapped backend.
    pub fn backend(&self) -> (r: &B)
        ensures
            *r == self.inner(),
    {
        &self.backend
    }

    /// The wrapped backend, unwrapped.
    pub fn into_inner(self) -> (r: B)
        ensures
            r == self.inner(),
    {
        self.backend
    }

    pub fn create_workspace(&mut self, opts: &WorkspaceOpts) -> (r: Result<WorkspaceCreated, BackendError>)
        ensures
            final(self).calls() == old(self).calls().push(
                BackendCall::CreateWorkspace { opts: opts@, result: r },
            ),
    {
        let r = self.backend.create_workspace(opts);
        self.calls = Ghost(self.calls@.push(BackendCall::CreateWorkspace { opts: opts@, result: r }));
        r
    }

    pub fn rename_tab(&mut self, tab_id: &str, label: &str) -> (r: Result<(), BackendError>)
        ensures
            final(self).calls() == old(self).calls().push(
                BackendCall::RenameTab { tab_id: tab_id@, label: label@, result: r },
            ),
    {
        let r = self.backend.rename_tab(tab_id, label);
        self.calls = Ghost(
            self.calls@.push(BackendCall::RenameTab { tab_id: tab_id@, label: label@, result: r }),
        );
        r
    }

    pub fn create_tab(&mut self, workspace_id: &str, opts: &TabOpts) -> (r: Result<TabCreated, BackendError>)
        ensures
            final(self).calls() == old(self).calls().push(
                BackendCall::CreateTab { workspace_id: workspace_id@, opts: opts@, result: r },
            ),
    {
        let r = self.backend.create_tab(workspace_id, opts);
        self.calls = Ghost(
            self.calls@.push(
                BackendCall::CreateTab { workspace_id: workspace_id@, opts: opts@, result: r },
            ),
        );
        r
    }

    pub fn split_pane(&mut self, from_pane: &str, opts: &SplitOpts) -> (r: Result<String, BackendError>)
        ensures
            final(self).calls() == old(self).calls().push(
                BackendCall::SplitPane { from_pane: from_pane@, opts: opts@, result: r },
            ),
    {
        let r = self.backend.split_pane(from_pane, opts);
        self.calls = Ghost(
            self.calls@.push(BackendCall::SplitPane { from_pane: from_pane@, opts: opts@, result: r }),
        );
        r
    }

    pub fn run(&mut self, pane_id: &str, command: &str) -> (r: Result<(), BackendError>)
        ensures
            final(self).calls() == old(self).calls().push(
                BackendCall::Run { pane_id: pane_id@, command: command@, result: r },
            ),
    {
        let r = self.backend.run(pane_id, command);
        self.calls = Ghost(
            self.calls@.push(BackendCall::Run { pane_id: pane_id@, command: command@, result: r }),
        );
        r
    }

    pub fn wait_output(&mut self, pane_id: &str, wait: &WaitFor) -> (r: Result<(), BackendError>)
        ensures
            final(self).calls() == old(self).calls().push(
                BackendCall::WaitOutput { pane_id: pane_id@, wait: wait@, result: r },
            ),
    {
        let r = self.backend.wait_output(pane_id, wait);
        self.calls = Ghost(
            self.calls@.push(BackendCall::WaitOutput { pane_id: pane_id@, wait: wait@, result: r }),
        );
        r
    }

    pub fn focus_pane(&mut self, pane_id: &str) -> (r: Result<(), BackendError>)
        ensures
            final(self).calls() == old(self).calls().push(
                BackendCall::FocusPane { pane_id: pane_id@, result: r },
            ),
    {
        let r = self.backend.focus_pane(pane_id);
        self.calls = Ghost(self.calls@.push(BackendCall::FocusPane { pane_id: pane_id@, result: r }));
        r
    }
}

} // verus!
