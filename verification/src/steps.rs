//! The decisions of one run that sit between prompts and file system
//! work: what happens to one target, and which graves to bring back.
use vstd::prelude::*;

use crate::path::{components, join_absolute, joined, path_starts_with, relative_part};

verus! {

/// Whether a target goes on to the graveyard after its inspection prompt:
/// when the answer is yes, or when every prompt is confirmed (`-y`).
pub fn proceed_after_inspection(answer: bool, confirmed: bool) -> (go: bool)
    ensures
        go == (answer || confirmed),
{
    answer || confirmed
}

/// Where a target goes.
pub enum Placement {
    /// It already lies under the graveyard.
    AlreadyInGraveyard,
    /// Its grave: its path joined under the graveyard (not yet made free).
    Grave(String),
}

/// Where the target at `source` goes: nowhere new when it already lies
/// under `graveyard`, else to its absolute path joined under `graveyard`.
pub fn placement(source: &str, graveyard: &str) -> (p: Placement)
    ensures
        match p {
            Placement::AlreadyInGraveyard => components(graveyard@).is_prefix_of(
                components(source@),
            ),
            Placement::Grave(g) => !components(graveyard@).is_prefix_of(components(source@))
                && g@ == joined(graveyard@, relative_part(source@)),
        },
{
    if path_starts_with(source, graveyard) {
        Placement::AlreadyInGraveyard
    } else {
        Placement::Grave(join_absolute(graveyard, source))
    }
}

/// What happens to a target that already lies in the graveyard.
pub enum InGraveyardAction {
    /// Permanently unlink it, and go on with the next target.
    Unlink,
    /// Leave it, and stop the run.
    Stop,
}

/// What happens to a target already in the graveyard, from the answer to
/// the prompt to unlink it: unlink it when the answer is yes or every
/// prompt is confirmed, else stop.
pub fn in_graveyard_action(answer: bool, confirmed: bool) -> (a: InGraveyardAction)
    ensures
        a is Unlink <==> (answer || confirmed),
        a is Stop <==> !(answer || confirmed),
{
    if answer || confirmed {
        InGraveyardAction::Unlink
    } else {
        InGraveyardAction::Stop
    }
}

/// The graves to bring back: the ones named, followed by the ones a seance
/// found; when that makes none, the last burial, which is asked of `last`
/// only then.
pub fn exhume_list<F: FnOnce() -> Option<String>>(
    named: Vec<String>,
    found: Vec<String>,
    last: F,
) -> (r: Vec<String>)
    requires
        named@.len() + found@.len() == 0 ==> last.requires(()),
    ensures
        named@.len() + found@.len() > 0 ==> r@ == named@ + found@,
        named@.len() + found@.len() == 0 ==> exists|o: Option<String>|
            #[trigger] last.ensures((), o) && r@ == match o {
                Some(g) => seq![g],
                None => Seq::<String>::empty(),
            },
{
    let mut r = named;
    let mut rest = found;
    r.append(&mut rest);
    if r.len() == 0 {
        let o = last();
        match o {
            Some(g) => {
                r.push(g);
                assert(r@ =~= seq![g]);
            },
            None => {
                assert(r@ =~= Seq::<String>::empty());
            },
        }
    }
    r
}

} // verus!
