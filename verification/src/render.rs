//! The markup that shows the state: a box with one button for each
//! workspace, followed by the name of the submap.

use crate::label::{append_label, label};
use crate::text::{append_decimal, decimal_text};
use vstd::prelude::*;
use vstd::string::*;

verus! {

/// The button for the workspace `id`; it is marked where `id` is the
/// active workspace.
pub open spec fn button(id: i32, active: i32) -> Seq<char> {
    "(button :width 10 :onclick \"hyprctl dispatch workspace "@ + decimal_text(id as int)
        + "\" :class \"workspace "@ + (if active == id {
        "active-workspace"@
    } else {
        Seq::<char>::empty()
    }) + "\" \""@ + label(id) + "\") "@
}

/// The buttons for `ids`, in their order.
pub open spec fn buttons(ids: Seq<i32>, active: i32) -> Seq<char>
    decreases ids.len(),
{
    if ids.len() == 0 {
        Seq::empty()
    } else {
        buttons(ids.drop_last(), active) + button(ids.last(), active)
    }
}

/// The markup for a state.
pub open spec fn markup(ids: Seq<i32>, active: i32, submap: Seq<char>) -> Seq<char> {
    "(box :class \"workspaces\" :orientation \"h\" :spacing 5 :space-evenly \"false\" "@
        + buttons(ids, active) + " \""@ + submap + "\" )"@
}

/// Puts the button for `id` at the end of `out`.
fn append_button(out: &mut String, id: i32, active: i32)
    ensures
        final(out)@ == old(out)@ + button(id, active),
{
    out.append("(button :width 10 :onclick \"hyprctl dispatch workspace ");
    append_decimal(out, id);
    out.append("\" :class \"workspace ");
    if active == id {
        out.append("active-workspace");
    }
    out.append("\" \"");
    append_label(out, id);
    out.append("\") ");
    assert(out@ =~= old(out)@ + button(id, active));
}

/// The markup that shows the workspaces, with the active one marked, and
/// the submap.
pub fn render_workspaces(workspaces: Vec<i32>, active_workspace: i32, submap: String) -> (out:
    String)
    ensures
        out@ == markup(workspaces@, active_workspace, submap@),
{
    let mut out = String::from_str(
        "(box :class \"workspaces\" :orientation \"h\" :spacing 5 :space-evenly \"false\" ",
    );
    let ghost head = out@;
    let mut i: usize = 0;
    while i < workspaces.len()
        invariant
            i <= workspaces@.len(),
            out@ == head + buttons(workspaces@.take(i as int), active_workspace),
        decreases workspaces@.len() - i,
    {
        assert(workspaces@.take(i + 1).drop_last() =~= workspaces@.take(i as int));
        append_button(&mut out, workspaces[i], active_workspace);
        assert(out@ =~= head + buttons(workspaces@.take(i + 1), active_workspace));
        i += 1;
    }
    assert(workspaces@.take(i as int) =~= workspaces@);
    out.append(" \"");
    out.append(submap.as_str());
    out.append("\" )");
    out
}

} // verus!
