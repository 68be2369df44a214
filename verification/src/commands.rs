//! The commands: what each one plans, and what it does when it is told to apply
//! the plan.

use vstd::prelude::*;

use crate::actions::ActionView;
use crate::cli::AddArgs;
use crate::path::PartView;

pub mod add;
pub mod dedupe;
pub mod repair;
pub mod tag;

verus! {

/// A dry run does nothing: without the word to apply its plan, no command does
/// anything to the files.
pub proof fn law_dry_run_does_nothing(
    args: AddArgs,
    added: add::AddPlanView,
    repaired: repair::RepairPlanView,
    server: Seq<PartView>,
    removed: Seq<Seq<PartView>>,
    redundant: Seq<Seq<PartView>>,
    tagged: Seq<tag::TagPlanView>,
)
    requires
        !args.apply,
    ensures
        add::plan_actions(added, args) == Seq::<ActionView>::empty(),
        repair::plan_actions(repaired, false) == Seq::<ActionView>::empty(),
        dedupe::dedupe_actions(server, removed, redundant, false) == Seq::<ActionView>::empty(),
        tag::tag_actions(tagged, false) == Seq::<ActionView>::empty(),
{
}

} // verus!
