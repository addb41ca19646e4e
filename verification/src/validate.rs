//! Checking a layout file before it is applied: errors and warnings.
use vstd::prelude::*;
use crate::config::{LayoutNode, LayoutSplit, Pane, Ratio, SpreadFile, Tab, Workspace};
use crate::plan::{
    file_steps, pane_actions, pane_steps, panes_steps, replay, tab_header, tab_steps, tabs_steps,
    workspace_steps, workspaces_steps, Replay, Slot, Step, chain_steps, children_steps, layout_steps,
    leaves_of, leaf_actions, tab_body,
};
use crate::backend::BackendCall;
use crate::engine::EngineError;
use crate::text::{concat, string_of};

verus! {

/// How serious a finding is.
#[derive(Debug, Clone, Copy, PartialEq, Eq, Structural)]
pub enum Severity {
    Error,
    Warning,
}

/// One problem found in a layout file.
#[derive(Debug, Clone, PartialEq)]
pub struct ValidationFinding {
    pub severity: Severity,
    pub message: String,
}

/// A layout file's text and the path it was read from.
#[derive(Debug, Clone, Copy)]
pub struct SourceFile<'a> {
    pub yaml: &'a str,
    pub path: &'a str,
}

/// A finding as plain text.
pub open spec fn note(severity: Severity, message: Seq<char>) -> (Severity, Seq<char>) {
    (severity, message)
}

/// The findings of a list, as plain text.
pub open spec fn notes_of(v: Seq<ValidationFinding>) -> Seq<(Severity, Seq<char>)> {
    v.map_values(|f: ValidationFinding| (f.severity, f.message@))
}

/// Whether the IEEE 754 binary64 number with bit pattern `bits` is, as a
/// number, at most 0 or at least 1 (NaN is neither).
pub open spec fn ratio_outside_unit(bits: u64) -> bool {
    let negative = bits >= 0x8000_0000_0000_0000u64;
    let magnitude = if negative {
        bits - 0x8000_0000_0000_0000u64
    } else {
        bits as int
    };
    let nan = magnitude > 0x7ff0_0000_0000_0000int;
    !nan && (magnitude == 0 || negative || magnitude >= 0x3ff0_0000_0000_0000int)
}

/// A ratio outside (0, 1) is an error.
pub open spec fn ratio_notes(ratio: Option<Ratio>, workspace: Seq<char>) -> Seq<(Severity, Seq<char>)> {
    match ratio {
        Some(r) => if ratio_outside_unit(r.bits) {
            seq![
                note(
                    Severity::Error,
                    "pane ratio "@ + r.text@ + " in workspace '"@ + workspace
                        + "' must be between 0 and 1 (exclusive)"@,
                ),
            ]
        } else {
            Seq::empty()
        },
        None => Seq::empty(),
    }
}

/// A pane's findings: its ratio, and waiting for output without a command.
pub open spec fn pane_notes(pane: Pane, workspace: Seq<char>) -> Seq<(Severity, Seq<char>)> {
    ratio_notes(pane.ratio, workspace) + if pane.wait_for is Some && pane.command is None {
        seq![
            note(
                Severity::Error,
                "wait_for was specified on a pane without a command in workspace '"@ + workspace
                    + "'"@,
            ),
        ]
    } else {
        Seq::empty()
    }
}

/// A layout tree's findings, depth first: a split's own ratio, a split
/// without exactly two children, then its children's findings in order.
pub open spec fn layout_notes(node: LayoutNode, workspace: Seq<char>) -> Seq<(Severity, Seq<char>)>
    decreases node,
{
    match node {
        LayoutNode::Pane(leaf) => pane_notes(leaf.pane, workspace),
        LayoutNode::Split(split) => ratio_notes(split.ratio, workspace) + (if split.children.len()
            != 2 {
            seq![
                note(
                    Severity::Error,
                    "layout split in workspace '"@ + workspace + "' must have exactly 2 children"@,
                ),
            ]
        } else {
            Seq::empty()
        }) + children_notes(split.children@, workspace),
    }
}

/// The findings of layout trees, one after another.
pub open spec fn children_notes(children: Seq<LayoutNode>, workspace: Seq<char>) -> Seq<
    (Severity, Seq<char>),
>
    decreases children,
{
    if children.len() == 0 {
        Seq::empty()
    } else {
        children_notes(children.drop_last(), workspace) + layout_notes(children.last(), workspace)
    }
}

/// The findings of panes, one after another.
pub open spec fn panes_notes(panes: Seq<Pane>, workspace: Seq<char>) -> Seq<(Severity, Seq<char>)>
    decreases panes.len(),
{
    if panes.len() == 0 {
        Seq::empty()
    } else {
        panes_notes(panes.drop_last(), workspace) + pane_notes(panes.last(), workspace)
    }
}

/// How a tab is named in messages.
pub open spec fn tab_name(tab: Tab) -> Seq<char> {
    match tab.label {
        Some(l) => l@,
        None => "(unnamed)"@,
    }
}

/// A tab's findings: both `panes` and `layout` given is an error, neither a
/// warning; then its panes' findings and its layout's.
pub open spec fn tab_notes(tab: Tab, workspace: Seq<char>) -> Seq<(Severity, Seq<char>)> {
    (if tab.panes.len() > 0 && tab.layout is Some {
        seq![
            note(
                Severity::Error,
                "tab '"@ + tab_name(tab) + "' in workspace '"@ + workspace
                    + "' must use either `panes` or `layout`, not both"@,
            ),
        ]
    } else {
        Seq::empty()
    }) + (if tab.panes.len() == 0 && tab.layout is None {
        seq![
            note(
                Severity::Warning,
                "tab '"@ + tab_name(tab) + "' in workspace '"@ + workspace + "' has no panes"@,
            ),
        ]
    } else {
        Seq::empty()
    }) + panes_notes(tab.panes@, workspace) + match tab.layout {
        Some(l) => layout_notes(l, workspace),
        None => Seq::empty(),
    }
}

/// The findings of tabs, one after another.
pub open spec fn tabs_notes(tabs: Seq<Tab>, workspace: Seq<char>) -> Seq<(Severity, Seq<char>)>
    decreases tabs.len(),
{
    if tabs.len() == 0 {
        Seq::empty()
    } else {
        tabs_notes(tabs.drop_last(), workspace) + tab_notes(tabs.last(), workspace)
    }
}

/// Whether workspace `k` repeats the name of an earlier workspace.
pub open spec fn name_seen_before(workspaces: Seq<Workspace>, k: int) -> bool {
    exists|j: int| 0 <= j < k && (#[trigger] workspaces[j]).name@ == workspaces[k].name@
}

/// Workspace `k`'s findings: an empty name, a name used before, then its tabs'.
pub open spec fn workspace_notes(workspaces: Seq<Workspace>, k: int) -> Seq<(Severity, Seq<char>)> {
    let ws = workspaces[k];
    (if ws.name@.len() == 0 {
        seq![note(Severity::Error, "workspace name must not be empty"@)]
    } else {
        Seq::empty()
    }) + (if name_seen_before(workspaces, k) {
        seq![note(Severity::Error, "duplicate workspace name '"@ + ws.name@ + "'"@)]
    } else {
        Seq::empty()
    }) + tabs_notes(ws.tabs@, ws.name@)
}

/// The findings of the first `n` workspaces.
pub open spec fn workspaces_notes(workspaces: Seq<Workspace>, n: int) -> Seq<(Severity, Seq<char>)>
    decreases n,
{
    if n <= 0 {
        Seq::empty()
    } else {
        workspaces_notes(workspaces, n - 1) + workspace_notes(workspaces, n - 1)
    }
}

/// How many of the first `n` workspaces are marked `focus`.
pub open spec fn focus_count(workspaces: Seq<Workspace>, n: int) -> nat
    decreases n,
{
    if n <= 0 {
        0
    } else {
        focus_count(workspaces, n - 1) + if workspaces[n - 1].focus {
            1nat
        } else {
            0nat
        }
    }
}

/// The decimal digit for `d`, below ten.
pub open spec fn digit_of(d: nat) -> char {
    if d == 0 {
        '0'
    } else if d == 1 {
        '1'
    } else if d == 2 {
        '2'
    } else if d == 3 {
        '3'
    } else if d == 4 {
        '4'
    } else if d == 5 {
        '5'
    } else if d == 6 {
        '6'
    } else if d == 7 {
        '7'
    } else if d == 8 {
        '8'
    } else {
        '9'
    }
}

/// The decimal digits of `n`.
pub open spec fn decimal(n: nat) -> Seq<char>
    decreases n,
{
    let digit = digit_of(n % 10);
    if n < 10 {
        seq![digit]
    } else {
        decimal(n / 10).push(digit)
    }
}

/// More than one workspace marked `focus` is a warning.
pub open spec fn focus_notes(count: nat) -> Seq<(Severity, Seq<char>)> {
    if count > 1 {
        seq![
            note(
                Severity::Warning,
                decimal(count) + " workspaces have `focus: true`; only the last one will receive focus"@,
            ),
        ]
    } else {
        Seq::empty()
    }
}

/// All findings of a layout file, in order: workspace by workspace, then the
/// focus warning.
pub open spec fn file_notes(file: SpreadFile) -> Seq<(Severity, Seq<char>)> {
    let n = file.workspaces.len() as int;
    workspaces_notes(file.workspaces@, n) + focus_notes(focus_count(file.workspaces@, n))
}

/// Adds one finding.
fn push_finding(findings: &mut Vec<ValidationFinding>, severity: Severity, message: String)
    ensures
        notes_of(final(findings)@) == notes_of(old(findings)@).push(note(severity, message@)),
{
    let ghost m = message@;
    findings.push(ValidationFinding { severity, message });
    assert(notes_of(findings@) =~= notes_of(old(findings)@).push(note(severity, m)));
}

/// The decimal digits of `n`.
pub fn decimal_text(n: usize) -> (r: String)
    ensures
        r@ == decimal(n as nat),
    decreases n,
{
    let d = n % 10;
    let digit = if d == 0 {
        '0'
    } else if d == 1 {
        '1'
    } else if d == 2 {
        '2'
    } else if d == 3 {
        '3'
    } else if d == 4 {
        '4'
    } else if d == 5 {
        '5'
    } else if d == 6 {
        '6'
    } else if d == 7 {
        '7'
    } else if d == 8 {
        '8'
    } else {
        '9'
    };
    assert(digit == digit_of(n as nat % 10));
    let mut v: Vec<char> = Vec::new();
    if n < 10 {
        v.push(digit);
        string_of(&v)
    } else {
        let mut r = decimal_text(n / 10);
        let mut t = v;
        t.push(digit);
        let d = string_of(&t);
        r.append(d.as_str());
        r
    }
}

/// Reports a ratio outside (0, 1).
pub fn validate_ratio(ratio: &Option<Ratio>, workspace: &str, findings: &mut Vec<ValidationFinding>)
    ensures
        notes_of(final(findings)@) == notes_of(old(findings)@) + ratio_notes(*ratio, workspace@),
{
    if let Some(r) = ratio {
        let bits = r.bits;
        let negative = bits >= 0x8000_0000_0000_0000u64;
        let magnitude = if negative {
            bits - 0x8000_0000_0000_0000u64
        } else {
            bits
        };
        let nan = magnitude > 0x7ff0_0000_0000_0000u64;
        if !nan && (magnitude == 0 || negative || magnitude >= 0x3ff0_0000_0000_0000u64) {
            let mut message = concat("pane ratio ", r.text.as_str());
            message.append(" in workspace '");
            message.append(workspace);
            message.append("' must be between 0 and 1 (exclusive)");
            push_finding(findings, Severity::Error, message);
            return;
        }
    }
    assert(notes_of(old(findings)@) + Seq::<(Severity, Seq<char>)>::empty() == notes_of(
        old(findings)@,
    ));
}

/// Reports a pane's ratio, and waiting for output without a command.
pub fn validate_pane(pane: &Pane, workspace: &str, findings: &mut Vec<ValidationFinding>)
    ensures
        notes_of(final(findings)@) == notes_of(old(findings)@) + pane_notes(*pane, workspace@),
{
    validate_ratio(&pane.ratio, workspace, findings);
    let ghost mid = notes_of(findings@);
    if pane.wait_for.is_some() && pane.command.is_none() {
        let mut message = concat(
            "wait_for was specified on a pane without a command in workspace '",
            workspace,
        );
        message.append("'");
        push_finding(findings, Severity::Error, message);
    }
    assert(notes_of(findings@) =~= notes_of(old(findings)@) + pane_notes(*pane, workspace@));
}

/// Reports a layout tree's findings, depth first.
pub fn validate_layout(layout: &LayoutNode, workspace: &str, findings: &mut Vec<ValidationFinding>)
    ensures
        notes_of(final(findings)@) == notes_of(old(findings)@) + layout_notes(*layout, workspace@),
    decreases layout,
{
    match layout {
        LayoutNode::Pane(leaf) => validate_pane(&leaf.pane, workspace, findings),
        LayoutNode::Split(node) => {
            validate_ratio(&node.ratio, workspace, findings);
            let ghost after_ratio = notes_of(findings@);
            if node.children.len() != 2 {
                let mut message = concat("layout split in workspace '", workspace);
                message.append("' must have exactly 2 children");
                push_finding(findings, Severity::Error, message);
            }
            let ghost before_children = notes_of(findings@);
            let mut i: usize = 0;
            assert(node.children@.take(0) == Seq::<LayoutNode>::empty());
            while i < node.children.len()
                invariant
                    *layout is Split,
                    (*layout)->Split_0 == *node,
                    i <= node.children@.len(),
                    notes_of(findings@) == before_children + children_notes(
                        node.children@.take(i as int),
                        workspace@,
                    ),
                decreases node.children.len() - i,
            {
                proof {
                    assert(node.children@.take(i + 1).drop_last() == node.children@.take(i as int));
                    assert(node.children@.take(i + 1).last() == node.children@[i as int]);
                    assert(*node == (*layout)->Split_0);
                    assert(decreases_to!(*layout => (*layout)->Split_0));
                    assert(decreases_to!(*node => node.children));
                    assert(decreases_to!(node.children => node.children@));
                    assert(decreases_to!(node.children@ => node.children@[i as int]));
                    assert(decreases_to!(*layout => node.children@[i as int]));
                }
                validate_layout(&node.children[i], workspace, findings);
                i = i + 1;
            }
            assert(node.children@.take(node.children.len() as int) == node.children@);
            assert(notes_of(findings@) =~= notes_of(old(findings)@) + layout_notes(
                *layout,
                workspace@,
            ));
        },
    }
}

/// Reports a tab's findings.
fn validate_tab(tab: &Tab, workspace: &str, findings: &mut Vec<ValidationFinding>)
    ensures
        notes_of(final(findings)@) == notes_of(old(findings)@) + tab_notes(*tab, workspace@),
{
    let ghost start = notes_of(findings@);
    if !tab.panes.is_empty() && tab.layout.is_some() {
        let mut message = concat("tab '", tab_label(tab).as_str());
        message.append("' in workspace '");
        message.append(workspace);
        message.append("' must use either `panes` or `layout`, not both");
        push_finding(findings, Severity::Error, message);
    }
    if tab.panes.is_empty() && tab.layout.is_none() {
        let mut message = concat("tab '", tab_label(tab).as_str());
        message.append("' in workspace '");
        message.append(workspace);
        message.append("' has no panes");
        push_finding(findings, Severity::Warning, message);
    }
    let ghost before_panes = notes_of(findings@);
    let mut j: usize = 0;
    assert(tab.panes@.take(0) == Seq::<Pane>::empty());
    while j < tab.panes.len()
        invariant
            j <= tab.panes@.len(),
            notes_of(findings@) == before_panes + panes_notes(tab.panes@.take(j as int), workspace@),
        decreases tab.panes.len() - j,
    {
        assert(tab.panes@.take(j + 1).drop_last() == tab.panes@.take(j as int));
        assert(tab.panes@.take(j + 1).last() == tab.panes@[j as int]);
        validate_pane(&tab.panes[j], workspace, findings);
        j = j + 1;
    }
    assert(tab.panes@.take(tab.panes.len() as int) == tab.panes@);
    let ghost after_panes = notes_of(findings@);
    if let Some(layout) = &tab.layout {
        validate_layout(layout, workspace, findings);
    }
    assert(notes_of(findings@) =~= start + tab_notes(*tab, workspace@));
}

/// How a tab is named in messages.
fn tab_label(tab: &Tab) -> (r: String)
    ensures
        r@ == tab_name(*tab),
{
    match &tab.label {
        Some(l) => l.clone(),
        None => "(unnamed)".to_owned(),
    }
}

/// All findings of a layout file, errors and warnings, in order.
pub fn validate(file: &SpreadFile) -> (r: Vec<ValidationFinding>)
    ensures
        notes_of(r@) == file_notes(*file),
{
    let mut findings: Vec<ValidationFinding> = Vec::new();
    let mut focus_count_so_far: usize = 0;
    let n = file.workspaces.len();
    let mut k: usize = 0;
    assert(notes_of(findings@) =~= Seq::<(Severity, Seq<char>)>::empty());
    while k < n
        invariant
            n == file.workspaces@.len(),
            k <= n,
            notes_of(findings@) == workspaces_notes(file.workspaces@, k as int),
            focus_count_so_far == focus_count(file.workspaces@, k as int),
            focus_count_so_far <= k,
        decreases n - k,
    {
        let ws = &file.workspaces[k];
        let ghost start = notes_of(findings@);
        if ws.name.as_str().is_empty() {
            push_finding(&mut findings, Severity::Error, "workspace name must not be empty".to_owned());
        }
        let mut seen = false;
        let mut j: usize = 0;
        while j < k
            invariant
                j <= k < n,
                n == file.workspaces@.len(),
                *ws == file.workspaces@[k as int],
                seen == exists|i: int|
                    0 <= i < j && (#[trigger] file.workspaces@[i]).name@ == ws.name@,
            decreases k - j,
        {
            if crate::text::str_eq(file.workspaces[j].name.as_str(), ws.name.as_str()) {
                seen = true;
            }
            j = j + 1;
        }
        if seen {
            let mut message = concat("duplicate workspace name '", ws.name.as_str());
            message.append("'");
            push_finding(&mut findings, Severity::Error, message);
        }
        if ws.focus {
            focus_count_so_far = focus_count_so_far + 1;
        }
        let ghost before_tabs = notes_of(findings@);
        let mut t: usize = 0;
        assert(ws.tabs@.take(0) == Seq::<Tab>::empty());
        while t < ws.tabs.len()
            invariant
                t <= ws.tabs@.len(),
                notes_of(findings@) == before_tabs + tabs_notes(ws.tabs@.take(t as int), ws.name@),
            decreases ws.tabs.len() - t,
        {
            assert(ws.tabs@.take(t + 1).drop_last() == ws.tabs@.take(t as int));
            assert(ws.tabs@.take(t + 1).last() == ws.tabs@[t as int]);
            validate_tab(&ws.tabs[t], ws.name.as_str(), &mut findings);
            t = t + 1;
        }
        assert(ws.tabs@.take(ws.tabs.len() as int) == ws.tabs@);
        assert(notes_of(findings@) =~= start + workspace_notes(file.workspaces@, k as int));
        k = k + 1;
    }
    if focus_count_so_far > 1 {
        let mut message = decimal_text(focus_count_so_far);
        message.append(" workspaces have `focus: true`; only the last one will receive focus");
        push_finding(&mut findings, Severity::Warning, message);
    }
    assert(notes_of(findings@) =~= file_notes(*file));
    findings
}

/// How a finding is reported: its severity tag in brackets, then its message.
pub open spec fn finding_text(severity: Severity, message: Seq<char>) -> Seq<char> {
    match severity {
        Severity::Error => "[ERROR] "@ + message,
        Severity::Warning => "[WARNING] "@ + message,
    }
}

/// The line that reports `finding`.
pub fn finding_line(finding: &ValidationFinding) -> (r: String)
    ensures
        r@ == finding_text(finding.severity, finding.message@),
{
    let tag = match finding.severity {
        Severity::Error => "[ERROR] ",
        Severity::Warning => "[WARNING] ",
    };
    concat(tag, finding.message.as_str())
}

/// The finding for a layout file that did not parse.
pub open spec fn parse_failure(path: Seq<char>, error: Seq<char>) -> (Severity, Seq<char>) {
    note(Severity::Error, "failed to parse config file "@ + path + ": "@ + error)
}

/// The layout file read from `path`, if it parsed (`parsed` holds what parsing
/// gave: the file, or the parser's message) and has no finding at all, error
/// or warning; otherwise its findings.
pub fn validate_config(path: &str, parsed: Result<SpreadFile, String>) -> (r: Result<
    SpreadFile,
    Vec<ValidationFinding>,
>)
    ensures
        match parsed {
            Err(error) => (r matches Err(f) && notes_of(f@) == seq![parse_failure(path@, error@)]),
            Ok(file) => if file_notes(file).len() == 0 {
                r == Ok::<SpreadFile, Vec<ValidationFinding>>(file)
            } else {
                (r matches Err(f) && notes_of(f@) == file_notes(file))
            },
        },
{
    match parsed {
        Err(error) => {
            let mut message = concat("failed to parse config file ", path);
            message.append(": ");
            message.append(error.as_str());
            let mut findings: Vec<ValidationFinding> = Vec::new();
            assert(notes_of(findings@) =~= Seq::<(Severity, Seq<char>)>::empty());
            push_finding(&mut findings, Severity::Error, message);
            assert(Seq::<(Severity, Seq<char>)>::empty().push(parse_failure(path@, error@)) == seq![
                parse_failure(path@, error@),
            ]);
            Err(findings)
        },
        Ok(file) => {
            let findings = validate(&file);
            if findings.is_empty() {
                Ok(file)
            } else {
                Err(findings)
            }
        },
    }
}

/// Steps none of which stops the build.
pub open spec fn never_aborts(steps: Seq<Step>) -> bool {
    forall|k: int| 0 <= k < steps.len() ==> !(#[trigger] steps[k] is Abort)
}

/// Every pane of `ws` that waits for output also runs a command, and every
/// layout tree of its tabs follows the rules.
pub open spec fn waits_only_after_commands(ws: Workspace) -> bool {
    &&& forall|i: int, j: int|
        0 <= i < ws.tabs.len() && 0 <= j < ws.tabs@[i].panes.len() ==> !(
        #[trigger] ws.tabs@[i].panes@[j].wait_for is Some && ws.tabs@[i].panes@[j].command is None)
    &&& forall|i: int|
        0 <= i < ws.tabs.len() ==> match (#[trigger] ws.tabs@[i]).layout {
            Some(l) => layout_ok(l),
            None => true,
        }
}

proof fn lemma_never_aborts_append(a: Seq<Step>, b: Seq<Step>)
    requires
        never_aborts(a),
        never_aborts(b),
    ensures
        never_aborts(a + b),
{
    assert forall|k: int| 0 <= k < (a + b).len() implies !(#[trigger] (a + b)[k] is Abort) by {
        if k >= a.len() {
            assert((a + b)[k] == b[k - a.len()]);
        }
    }
}

proof fn lemma_panes_notes_empty(panes: Seq<Pane>, workspace: Seq<char>, j: int)
    requires
        panes_notes(panes, workspace).len() == 0,
        0 <= j < panes.len(),
    ensures
        !(panes[j].wait_for is Some && panes[j].command is None),
    decreases panes.len(),
{
    if j < panes.len() - 1 {
        assert(panes.drop_last()[j] == panes[j]);
        lemma_panes_notes_empty(panes.drop_last(), workspace, j);
    }
}

proof fn lemma_tabs_notes_empty(tabs: Seq<Tab>, workspace: Seq<char>, i: int, j: int)
    requires
        tabs_notes(tabs, workspace).len() == 0,
        0 <= i < tabs.len(),
        0 <= j < tabs[i].panes.len(),
    ensures
        !(tabs[i].panes@[j].wait_for is Some && tabs[i].panes@[j].command is None),
    decreases tabs.len(),
{
    if i < tabs.len() - 1 {
        assert(tabs.drop_last()[i] == tabs[i]);
        lemma_tabs_notes_empty(tabs.drop_last(), workspace, i, j);
    } else {
        lemma_panes_notes_empty(tabs[i].panes@, workspace, j);
    }
}

proof fn lemma_workspaces_notes_empty(workspaces: Seq<Workspace>, n: int, k: int)
    requires
        workspaces_notes(workspaces, n).len() == 0,
        0 <= k < n,
    ensures
        waits_only_after_commands(workspaces[k]),
    decreases n,
{
    if k < n - 1 {
        lemma_workspaces_notes_empty(workspaces, n - 1, k);
    } else {
        let ws = workspaces[k];
        lemma_tabs_clean(ws.tabs@, ws.name@);
        assert forall|i: int, j: int|
            0 <= i < ws.tabs.len() && 0 <= j < ws.tabs@[i].panes.len() implies !(
            #[trigger] ws.tabs@[i].panes@[j].wait_for is Some && ws.tabs@[i].panes@[j].command
                is None) by {
            lemma_tabs_notes_empty(ws.tabs@, ws.name@, i, j);
        }
    }
}

proof fn lemma_panes_never_abort(ws: Workspace, w: int, i: int, n: int)
    requires
        waits_only_after_commands(ws),
        0 <= i < ws.tabs.len(),
        n <= ws.tabs@[i].panes.len(),
    ensures
        never_aborts(panes_steps(ws, w, i, n)),
    decreases n,
{
    if n > 0 {
        lemma_panes_never_abort(ws, w, i, n - 1);
        let j = n - 1;
        assert(!(ws.tabs@[i].panes@[j].wait_for is Some && ws.tabs@[i].panes@[j].command is None));
        let a = pane_actions(ws, w, i, j);
        assert(never_aborts(a));
        assert(never_aborts(pane_steps(ws, w, i, j))) by {
            if j > 0 {
                lemma_never_aborts_append(pane_steps(ws, w, i, j).take(1), a);
                assert(pane_steps(ws, w, i, j) == pane_steps(ws, w, i, j).take(1) + a);
            }
        }
        lemma_never_aborts_append(panes_steps(ws, w, i, j), pane_steps(ws, w, i, j));
    }
}

proof fn lemma_tabs_never_abort(ws: Workspace, w: int, n: int)
    requires
        waits_only_after_commands(ws),
        n <= ws.tabs.len(),
    ensures
        never_aborts(tabs_steps(ws, w, n)),
    decreases n,
{
    if n > 0 {
        lemma_tabs_never_abort(ws, w, n - 1);
        match ws.tabs@[n - 1].layout {
            Some(l) => {
                assert(layout_ok(l));
                lemma_layout_never_aborts(ws, w, n - 1, l, 0);
            },
            None => lemma_panes_never_abort(ws, w, n - 1, ws.tabs@[n - 1].panes.len() as int),
        }
        assert(never_aborts(tab_header(ws, w, n - 1)));
        lemma_never_aborts_append(tab_header(ws, w, n - 1), tab_body(ws, w, n - 1));
        lemma_never_aborts_append(tabs_steps(ws, w, n - 1), tab_steps(ws, w, n - 1));
    }
}

proof fn lemma_workspaces_never_abort(file: SpreadFile, n: int)
    requires
        n <= file.workspaces.len(),
        forall|k: int| 0 <= k < n ==> waits_only_after_commands(#[trigger] file.workspaces@[k]),
    ensures
        never_aborts(workspaces_steps(file, n)),
    decreases n,
{
    if n > 0 {
        lemma_workspaces_never_abort(file, n - 1);
        let ws = file.workspaces@[n - 1];
        lemma_tabs_never_abort(ws, n - 1, ws.tabs.len() as int);
        let head = workspace_steps(ws, n - 1).take(1);
        assert(never_aborts(head));
        assert(workspace_steps(ws, n - 1) == head + tabs_steps(ws, n - 1, ws.tabs.len() as int));
        lemma_never_aborts_append(head, tabs_steps(ws, n - 1, ws.tabs.len() as int));
        lemma_never_aborts_append(workspaces_steps(file, n - 1), workspace_steps(ws, n - 1));
    }
}

proof fn lemma_replay_never_aborts(
    steps: Seq<Step>,
    calls: Seq<BackendCall>,
    ids: Map<Slot, Seq<char>>,
)
    requires
        never_aborts(steps),
    ensures
        !(replay(steps, calls, ids) matches Replay::Stopped(EngineError::WaitForWithoutCommand)),
    decreases steps.len(),
{
    if steps.len() > 0 && calls.len() > 0 {
        assert(!(steps[0] is Abort));
        assert(steps.drop_first().len() < steps.len());
        assert forall|k: int| 0 <= k < steps.drop_first().len() implies !(
        #[trigger] steps.drop_first()[k] is Abort) by {
            assert(steps.drop_first()[k] == steps[k + 1]);
        }
        let ids_next = crate::plan::read_step(steps[0], calls[0], ids);
        match ids_next {
            Some(Ok(next)) => {
                lemma_replay_never_aborts(steps.drop_first(), calls.drop_first(), next);
            },
            _ => {},
        }
    } else if steps.len() > 0 {
        assert(!(steps[0] is Abort));
    }
}

/// A layout file that validation accepts (no finding at all) never stops its
/// build for a pane that waits for output without a command: that stop is
/// reported by validation first, so whatever herdr answers, a build of an
/// accepted file stops, if ever, only on a failed herdr call.
pub proof fn law_accepted_file_never_stops_for_wait_without_command(
    file: SpreadFile,
    calls: Seq<BackendCall>,
    ids: Map<Slot, Seq<char>>,
)
    requires
        file_notes(file).len() == 0,
    ensures
        never_aborts(file_steps(file)),
        !(replay(file_steps(file), calls, ids) matches Replay::Stopped(
            EngineError::WaitForWithoutCommand,
        )),
{
    let n = file.workspaces.len() as int;
    assert forall|k: int| 0 <= k < n implies waits_only_after_commands(
        #[trigger] file.workspaces@[k],
    ) by {
        lemma_workspaces_notes_empty(file.workspaces@, n, k);
    }
    lemma_workspaces_never_abort(file, n);
    if n > 0 {
        let c = crate::plan::chosen_workspace(file, n);
        let last = seq![Step::FocusPane { pane: crate::plan::focus_slot(file.workspaces@[c], c) }];
        assert(never_aborts(last));
        lemma_never_aborts_append(workspaces_steps(file, n), last);
    }
    lemma_replay_never_aborts(file_steps(file), calls, ids);
}

/// A ratio, when given, lies strictly between 0 and 1 (or is NaN).
pub open spec fn ratio_ok(ratio: Option<Ratio>) -> bool {
    match ratio {
        Some(r) => !ratio_outside_unit(r.bits),
        None => true,
    }
}

/// A pane's ratio is fine, and it waits for output only when it runs a command.
pub open spec fn pane_ok(pane: Pane) -> bool {
    ratio_ok(pane.ratio) && !(pane.wait_for is Some && pane.command is None)
}

/// Every pane of the tree is fine, and every split has a fine ratio and
/// exactly two children.
pub open spec fn layout_ok(node: LayoutNode) -> bool
    decreases node,
{
    match node {
        LayoutNode::Pane(leaf) => pane_ok(leaf.pane),
        LayoutNode::Split(split) => ratio_ok(split.ratio) && split.children.len() == 2
            && children_ok(split.children@),
    }
}

/// Every tree of `children` is fine.
pub open spec fn children_ok(children: Seq<LayoutNode>) -> bool
    decreases children,
{
    if children.len() == 0 {
        true
    } else {
        children_ok(children.drop_last()) && layout_ok(children.last())
    }
}

/// A tab has either panes or a layout tree, not both and not neither, and
/// all its panes and its tree are fine.
pub open spec fn tab_ok(tab: Tab) -> bool {
    &&& (tab.panes.len() > 0) != (tab.layout is Some)
    &&& forall|j: int| 0 <= j < tab.panes.len() ==> pane_ok(#[trigger] tab.panes@[j])
    &&& match tab.layout {
        Some(l) => layout_ok(l),
        None => true,
    }
}

/// The rules a layout file must meet: every workspace has a non-empty name,
/// no two share one, at most one is marked `focus`, and every tab is fine.
pub open spec fn file_follows_rules(file: SpreadFile) -> bool {
    let ws = file.workspaces@;
    &&& forall|k: int| 0 <= k < ws.len() ==> (#[trigger] ws[k]).name@.len() > 0
    &&& forall|i: int, j: int|
        0 <= i < j < ws.len() ==> (#[trigger] ws[i]).name@ != (#[trigger] ws[j]).name@
    &&& forall|i: int, j: int|
        0 <= i < j < ws.len() ==> !((#[trigger] ws[i]).focus && (#[trigger] ws[j]).focus)
    &&& forall|k: int, t: int|
        0 <= k < ws.len() && 0 <= t < ws[k].tabs.len() ==> tab_ok(#[trigger] ws[k].tabs@[t])
}

proof fn lemma_pane_clean(pane: Pane, workspace: Seq<char>)
    ensures
        (pane_notes(pane, workspace).len() == 0) == pane_ok(pane),
{
}

proof fn lemma_layout_clean(node: LayoutNode, workspace: Seq<char>)
    ensures
        (layout_notes(node, workspace).len() == 0) == layout_ok(node),
    decreases node,
{
    match node {
        LayoutNode::Pane(leaf) => lemma_pane_clean(leaf.pane, workspace),
        LayoutNode::Split(split) => {
            assert(decreases_to!(node => split));
            assert(decreases_to!(split => split.children));
            assert(decreases_to!(split.children => split.children@));
            lemma_children_clean(split.children@, workspace);
        },
    }
}

proof fn lemma_children_clean(children: Seq<LayoutNode>, workspace: Seq<char>)
    ensures
        (children_notes(children, workspace).len() == 0) == children_ok(children),
    decreases children,
{
    if children.len() > 0 {
        assert(decreases_to!(children => children.drop_last()));
        assert(decreases_to!(children => children[children.len() - 1]));
        assert(children.last() == children[children.len() - 1]);
        lemma_children_clean(children.drop_last(), workspace);
        lemma_layout_clean(children.last(), workspace);
    }
}

proof fn lemma_panes_clean(panes: Seq<Pane>, workspace: Seq<char>)
    ensures
        (panes_notes(panes, workspace).len() == 0) == (forall|j: int|
            0 <= j < panes.len() ==> pane_ok(#[trigger] panes[j])),
    decreases panes.len(),
{
    if panes.len() > 0 {
        let d = panes.drop_last();
        lemma_panes_clean(d, workspace);
        lemma_pane_clean(panes.last(), workspace);
        if panes_notes(panes, workspace).len() == 0 {
            assert forall|j: int| 0 <= j < panes.len() implies pane_ok(#[trigger] panes[j]) by {
                if j < panes.len() - 1 {
                    assert(d[j] == panes[j]);
                }
            }
        } else if forall|j: int| 0 <= j < panes.len() ==> pane_ok(#[trigger] panes[j]) {
            assert(pane_ok(panes[panes.len() - 1]));
            assert forall|j: int| 0 <= j < d.len() implies pane_ok(#[trigger] d[j]) by {
                assert(d[j] == panes[j]);
            }
        }
    }
}

proof fn lemma_tab_clean(tab: Tab, workspace: Seq<char>)
    ensures
        (tab_notes(tab, workspace).len() == 0) == tab_ok(tab),
{
    lemma_panes_clean(tab.panes@, workspace);
    match tab.layout {
        Some(l) => lemma_layout_clean(l, workspace),
        None => {},
    }
}

proof fn lemma_tabs_clean(tabs: Seq<Tab>, workspace: Seq<char>)
    ensures
        (tabs_notes(tabs, workspace).len() == 0) == (forall|t: int|
            0 <= t < tabs.len() ==> tab_ok(#[trigger] tabs[t])),
    decreases tabs.len(),
{
    if tabs.len() > 0 {
        let d = tabs.drop_last();
        lemma_tabs_clean(d, workspace);
        lemma_tab_clean(tabs.last(), workspace);
        if tabs_notes(tabs, workspace).len() == 0 {
            assert forall|t: int| 0 <= t < tabs.len() implies tab_ok(#[trigger] tabs[t]) by {
                if t < tabs.len() - 1 {
                    assert(d[t] == tabs[t]);
                }
            }
        } else if forall|t: int| 0 <= t < tabs.len() ==> tab_ok(#[trigger] tabs[t]) {
            assert(tab_ok(tabs[tabs.len() - 1]));
            assert forall|t: int| 0 <= t < d.len() implies tab_ok(#[trigger] d[t]) by {
                assert(d[t] == tabs[t]);
            }
        }
    }
}

proof fn lemma_workspaces_clean(ws: Seq<Workspace>, n: int)
    requires
        0 <= n <= ws.len(),
    ensures
        (workspaces_notes(ws, n).len() == 0) == (forall|k: int|
            0 <= k < n ==> (#[trigger] workspace_notes(ws, k)).len() == 0),
    decreases n,
{
    if n > 0 {
        lemma_workspaces_clean(ws, n - 1);
    }
}

proof fn lemma_no_focus(ws: Seq<Workspace>, n: int)
    requires
        0 <= n <= ws.len(),
    ensures
        (focus_count(ws, n) == 0) == (forall|k: int| 0 <= k < n ==> !(#[trigger] ws[k]).focus),
    decreases n,
{
    if n > 0 {
        lemma_no_focus(ws, n - 1);
    }
}

proof fn lemma_one_focus(ws: Seq<Workspace>, n: int)
    requires
        0 <= n <= ws.len(),
    ensures
        (focus_count(ws, n) <= 1) == (forall|i: int, j: int|
            0 <= i < j < n ==> !((#[trigger] ws[i]).focus && (#[trigger] ws[j]).focus)),
    decreases n,
{
    if n > 0 {
        lemma_one_focus(ws, n - 1);
        lemma_no_focus(ws, n - 1);
        if focus_count(ws, n) <= 1 {
            assert forall|i: int, j: int| 0 <= i < j < n implies !((#[trigger] ws[i]).focus && (
            #[trigger] ws[j]).focus) by {
                if j == n - 1 && ws[j].focus {
                    assert(!ws[i].focus);
                }
            }
        } else if forall|i: int, j: int|
            0 <= i < j < n ==> !((#[trigger] ws[i]).focus && (#[trigger] ws[j]).focus) {
            if ws[n - 1].focus {
                assert forall|k: int| 0 <= k < n - 1 implies !(#[trigger] ws[k]).focus by {
                    assert(!(ws[k].focus && ws[n - 1].focus));
                }
            }
        }
    }
}

/// A layout file has no finding at all exactly when it follows every rule:
/// non-empty and distinct workspace names, at most one workspace marked
/// `focus`, tabs with either panes or a layout tree, ratios strictly between
/// 0 and 1, splits of exactly two children, and waits only after commands.
pub proof fn law_no_findings_exactly_when_rules_hold(file: SpreadFile)
    ensures
        (file_notes(file).len() == 0) == file_follows_rules(file),
{
    let ws = file.workspaces@;
    let n = ws.len() as int;
    lemma_workspaces_clean(ws, n);
    lemma_one_focus(ws, n);
    assert forall|k: int| 0 <= k < n implies ((#[trigger] workspace_notes(ws, k)).len() == 0) == (
    ws[k].name@.len() > 0 && !name_seen_before(ws, k) && forall|t: int|
        0 <= t < ws[k].tabs.len() ==> tab_ok(#[trigger] ws[k].tabs@[t])) by {
        lemma_tabs_clean(ws[k].tabs@, ws[k].name@);
    }
    if file_notes(file).len() == 0 {
        assert(workspaces_notes(ws, n).len() == 0);
        assert forall|i: int, j: int| 0 <= i < j < ws.len() implies (#[trigger] ws[i]).name@ != (
        #[trigger] ws[j]).name@ by {
            assert(workspace_notes(ws, j).len() == 0);
        }
        assert forall|k: int| 0 <= k < ws.len() implies (#[trigger] ws[k]).name@.len() > 0 by {
            assert(workspace_notes(ws, k).len() == 0);
        }
        assert forall|k: int, t: int| 0 <= k < ws.len() && 0 <= t < ws[k].tabs.len() implies tab_ok(
            #[trigger] ws[k].tabs@[t],
        ) by {
            assert(workspace_notes(ws, k).len() == 0);
        }
    } else if file_follows_rules(file) {
        assert forall|k: int| 0 <= k < n implies (#[trigger] workspace_notes(ws, k)).len() == 0 by {
            assert(ws[k].name@.len() > 0);
            if name_seen_before(ws, k) {
                let j = choose|j: int| 0 <= j < k && (#[trigger] ws[j]).name@ == ws[k].name@;
                assert(ws[j].name@ != ws[k].name@);
            }
            assert forall|t: int| 0 <= t < ws[k].tabs.len() implies tab_ok(
                #[trigger] ws[k].tabs@[t],
            ) by {}
        }
    }
}

proof fn lemma_chain_never_aborts(
    ws: Workspace,
    w: int,
    i: int,
    split: LayoutSplit,
    children: Seq<LayoutNode>,
    k: int,
)
    ensures
        never_aborts(chain_steps(ws, w, i, split, children, k)),
    decreases children.len(),
{
    if children.len() > 1 {
        lemma_chain_never_aborts(ws, w, i, split, children.drop_last(), k);
    }
}

proof fn lemma_layout_never_aborts(ws: Workspace, w: int, i: int, node: LayoutNode, k: int)
    requires
        layout_ok(node),
    ensures
        never_aborts(layout_steps(ws, w, i, node, k)),
    decreases node,
{
    match node {
        LayoutNode::Pane(leaf) => {
            assert(never_aborts(leaf_actions(ws, i, leaf.pane, k == 0, Slot::Pane(w, i, k))));
        },
        LayoutNode::Split(split) => {
            assert(decreases_to!(node => split));
            assert(decreases_to!(split => split.children));
            assert(decreases_to!(split.children => split.children@));
            lemma_chain_never_aborts(ws, w, i, split, split.children@, k);
            lemma_children_never_abort(ws, w, i, split.children@, k);
            lemma_never_aborts_append(
                chain_steps(ws, w, i, split, split.children@, k),
                children_steps(ws, w, i, split.children@, k),
            );
        },
    }
}

proof fn lemma_children_never_abort(ws: Workspace, w: int, i: int, children: Seq<LayoutNode>, k: int)
    requires
        children_ok(children),
    ensures
        never_aborts(children_steps(ws, w, i, children, k)),
    decreases children,
{
    if children.len() > 0 {
        let d = children.drop_last();
        assert(decreases_to!(children => d));
        assert(decreases_to!(children => children[children.len() - 1]));
        assert(children.last() == children[children.len() - 1]);
        lemma_children_never_abort(ws, w, i, d, k);
        lemma_layout_never_aborts(ws, w, i, children.last(), k + leaves_of(d));
        lemma_never_aborts_append(
            children_steps(ws, w, i, d, k),
            layout_steps(ws, w, i, children.last(), k + leaves_of(d)),
        );
    }
}

/// A ratio gets a finding exactly when its number is at most 0 or at least 1;
/// NaN never does. Over IEEE 754 binary64 bit patterns: positive numbers
/// ascend with their patterns, `0x3ff0_0000_0000_0000` is 1.0 and
/// `0x7ff0_0000_0000_0000` is +infinity; with the sign bit set the same
/// patterns give the negative numbers, down to -infinity; the patterns above
/// each infinity are NaN.
pub proof fn law_ratio_finding_exactly_outside_unit(r: Ratio, workspace: Seq<char>)
    ensures
        0 < r.bits < 0x3ff0_0000_0000_0000 ==> ratio_notes(Some(r), workspace).len() == 0,
        r.bits == 0 || 0x3ff0_0000_0000_0000 <= r.bits <= 0x7ff0_0000_0000_0000
            ==> ratio_notes(Some(r), workspace).len() == 1,
        0x8000_0000_0000_0000 <= r.bits <= 0xfff0_0000_0000_0000 ==> ratio_notes(
            Some(r),
            workspace,
        ).len() == 1,
        0x7ff0_0000_0000_0000 < r.bits < 0x8000_0000_0000_0000 || 0xfff0_0000_0000_0000 < r.bits
            ==> ratio_notes(Some(r), workspace).len() == 0,
        ratio_notes(None, workspace).len() == 0,
{
}

} // verus!
