//! Decisions taken when the layout is applied from inside herdr: reading the
//! plugin context, and stepping past herdr's temporary command palette.
use vstd::prelude::*;
use crate::backend::PaneInfo;
use crate::engine::ExistingWorkspace;
use crate::env::{env_get, EnvMap};
use crate::config::{SpreadFile, Workspace};
use crate::paths::{is_absolute, path_is_absolute};
use crate::text::{concat, opt_view, str_eq};

verus! {

/// Why the plugin context could not be used.
#[derive(Debug, Clone, PartialEq)]
pub struct ContextError {
    pub message: String,
}

/// The labels herdr gives its temporary command palette pane.
pub open spec fn is_palette_label(label: Option<Seq<char>>) -> bool {
    label == Some("Command palette"@) || label == Some("Palette"@)
}

/// The panes of `panes` other than the one with id `excluded`, in order.
pub open spec fn panes_without(panes: Seq<PaneInfo>, excluded: Seq<char>) -> Seq<PaneInfo>
    decreases panes.len(),
{
    if panes.len() == 0 {
        Seq::empty()
    } else if panes.last().pane_id@ == excluded {
        panes_without(panes.drop_last(), excluded)
    } else {
        panes_without(panes.drop_last(), excluded).push(panes.last())
    }
}

/// The id of the first pane of `panes` that lies in tab `tab`.
pub open spec fn first_pane_in_tab(panes: Seq<PaneInfo>, tab: Seq<char>) -> Option<Seq<char>>
    decreases panes.len(),
{
    if panes.len() == 0 {
        None
    } else if panes[0].tab_id@ == tab {
        Some(panes[0].pane_id@)
    } else {
        first_pane_in_tab(panes.drop_first(), tab)
    }
}

/// The message for a missing plugin context variable.
pub open spec fn missing_context_message(name: Seq<char>) -> Seq<char> {
    "apply-current requires "@ + name + " from Herdr's plugin context"@
}

/// The message given when no pane stands behind the palette.
pub open spec fn no_durable_pane_message() -> Seq<char> {
    "apply-current could not find a durable pane behind the temporary palette"@
}

/// The value of the plugin context variable `name`, which must be set and
/// non-empty.
pub fn plugin_context_id(env: &EnvMap, name: &str) -> (r: Result<String, ContextError>)
    ensures
        r matches Ok(v) ==> env_get(env@, name@) == Some(v@) && v@.len() > 0,
        r matches Err(e) ==> e.message@ == missing_context_message(name@),
        r is Ok <==> (env_get(env@, name@) matches Some(v) && v.len() > 0),
{
    match env.get(name) {
        Some(v) if !v.as_str().is_empty() => Ok(v.clone()),
        _ => {
            let mut message = concat("apply-current requires ", name);
            message.append(" from Herdr's plugin context");
            Err(ContextError { message })
        },
    }
}

/// Whether a pane label is that of herdr's temporary command palette.
pub fn is_transient_palette(label: Option<&str>) -> (r: bool)
    ensures
        r == is_palette_label(
            opt_view(label),
        ),
{
    match label {
        Some(l) => str_eq(l, "Command palette") || str_eq(l, "Palette"),
        None => false,
    }
}

/// The target and panes to lay out. When the invoking pane is the temporary
/// palette, it is left out of the panes, and the first remaining pane of the
/// target tab becomes the root pane.
pub fn without_transient_palette(
    target: &ExistingWorkspace,
    panes: Vec<PaneInfo>,
    invoking_pane_label: Option<&str>,
) -> (r: Result<(ExistingWorkspace, Vec<PaneInfo>), ContextError>)
    ensures
        !is_palette_label(
            opt_view(invoking_pane_label),
        ) ==> (r matches Ok(ok) && ok.0 == *target && ok.1@ == panes@),
        is_palette_label(
            opt_view(invoking_pane_label),
        ) ==> match first_pane_in_tab(
            panes_without(panes@, target.root_pane_id@),
            target.tab_id@,
        ) {
            Some(root) => (r matches Ok(ok) && ok.0.workspace_id == target.workspace_id
                && ok.0.tab_id == target.tab_id && ok.0.root_pane_id@ == root && ok.1@
                == panes_without(panes@, target.root_pane_id@)),
            None => (r matches Err(e) && e.message@ == no_durable_pane_message()),
        },
{
    if !is_transient_palette(invoking_pane_label) {
        return Ok((target.duplicate(), panes));
    }
    let ghost all = panes@;
    let mut durable: Vec<PaneInfo> = Vec::new();
    for pane in it: panes.into_iter()
        invariant
            it.seq() == all,
            durable@ == panes_without(all.take(it.index() as int), target.root_pane_id@),
    {
        proof {
            assert(all.take(it.index() + 1).drop_last() == all.take(it.index() as int));
            assert(all.take(it.index() + 1).last() == pane);
        }
        if !str_eq(pane.pane_id.as_str(), target.root_pane_id.as_str()) {
            durable.push(pane);
        }
    }
    assert(all.take(all.len() as int) == all);
    let mut i: usize = 0;
    assert(durable@.skip(0) == durable@);
    while i < durable.len()
        invariant
            i <= durable@.len(),
            durable@ == panes_without(all, target.root_pane_id@),
            all == panes@,
            is_palette_label(opt_view(invoking_pane_label)),
            first_pane_in_tab(durable@, target.tab_id@) == first_pane_in_tab(
                durable@.skip(i as int),
                target.tab_id@,
            ),
        decreases durable.len() - i,
    {
        assert(durable@.skip(i as int)[0] == durable@[i as int]);
        if str_eq(durable[i].tab_id.as_str(), target.tab_id.as_str()) {
            let root_pane_id = durable[i].pane_id.clone();
            return Ok(
                (
                    ExistingWorkspace {
                        workspace_id: target.workspace_id.clone(),
                        tab_id: target.tab_id.clone(),
                        root_pane_id,
                    },
                    durable,
                ),
            );
        }
        assert(durable@.skip(i as int).drop_first() == durable@.skip(i + 1));
        i = i + 1;
    }
    Err(
        ContextError {
            message: "apply-current could not find a durable pane behind the temporary palette".to_owned(),
        },
    )
}

/// The one workspace of a layout applied to an existing workspace.
pub fn single_workspace(file: SpreadFile) -> (r: Result<Workspace, ContextError>)
    ensures
        file.workspaces.len() == 1 ==> r == Ok::<Workspace, ContextError>(file.workspaces@[0]),
        file.workspaces.len() != 1 ==> (r matches Err(e) && e.message@
            == "apply-existing requires a config containing exactly one workspace"@),
{
    let mut workspaces = file.workspaces;
    if workspaces.len() == 1 {
        match workspaces.pop() {
            Some(ws) => Ok(ws),
            None => Err(ContextError { message: String::new() }),
        }
    } else {
        Err(
            ContextError {
                message: "apply-existing requires a config containing exactly one workspace".to_owned(),
            },
        )
    }
}

/// The directory relative layout paths are resolved against when applying to
/// an existing workspace: an explicit root, which must be absolute, or else
/// `fallback` (the directory of the existing root pane).
pub fn existing_root(root: Option<String>, fallback: String) -> (r: Result<String, ContextError>)
    ensures
        match root {
            Some(p) => if is_absolute(p@) {
                r == Ok::<String, ContextError>(p)
            } else {
                (r matches Err(e) && e.message@ == "apply-existing --root must be an absolute path: "@
                    + p@)
            },
            None => r == Ok::<String, ContextError>(fallback),
        },
{
    match root {
        Some(p) => {
            if path_is_absolute(p.as_str()) {
                Ok(p)
            } else {
                Err(ContextError { message: concat("apply-existing --root must be an absolute path: ", p.as_str()) })
            }
        },
        None => Ok(fallback),
    }
}

} // verus!
