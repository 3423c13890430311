//! The root supervisor: one reconciler per managed file and one proposer,
//! and the routing of commands to them. Spawning and messaging the actors
//! is the caller's; the routing decision is here.
use vstd::prelude::*;

use crate::reconciler;
use crate::types::FileId;

verus! {

broadcast use {vstd::seq::group_seq_axioms, vstd::std_specs::vec::group_vec_axioms};

pub struct Supervisor;

pub struct Arguments {
    pub reconciler_targets: Vec<reconciler::Arguments>,
}

/// A command to the supervisor.
pub enum Message {
    /// Run the reconciler of one file.
    Apply { file_id: FileId },
    /// Run every reconciler.
    ApplyAll,
    /// Run the proposal loop now.
    Propose,
    /// Stop the actor tree.
    Shutdown,
}

/// What the supervisor does with a command.
pub enum Route {
    /// Tell the reconcilers at these positions of the target list to run.
    Run(Vec<usize>),
    /// Tell the proposer to propose now.
    ProposeNow,
    /// Stop.
    Stop,
}

pub open spec fn id_views(ids: Seq<FileId>) -> Seq<Seq<char>> {
    ids.map_values(|id: FileId| id@)
}

/// The target at `i` is the one that answers for its identifier: no later
/// target has the same one (a later registration replaces an earlier).
pub open spec fn answers(ids: Seq<Seq<char>>, i: int) -> bool {
    forall|j: int| i < j < ids.len() ==> ids[j] != ids[i]
}

/// `ix` names the target that answers for `id`, or nothing when no target
/// has that identifier.
pub open spec fn routes_to_answering(ix: Seq<usize>, ids: Seq<Seq<char>>, id: Seq<char>) -> bool {
    if exists|i: int| 0 <= i < ids.len() && ids[i] == id {
        ix.len() == 1 && ix[0] < ids.len() && ids[ix[0] as int] == id && answers(ids, ix[0] as int)
    } else {
        ix.len() == 0
    }
}

impl Supervisor {
    /// Route a command, given the identifiers of the reconcilers in the
    /// order they were registered.
    pub fn route(message: &Message, targets: &Vec<FileId>) -> (r: Route)
        ensures
            match *message {
                Message::Apply { file_id } => r matches Route::Run(ix) && routes_to_answering(
                    ix@,
                    id_views(targets@),
                    file_id@,
                ),
                Message::ApplyAll => r matches Route::Run(ix) && (forall|a: int|
                    0 <= a < ix@.len() ==> #[trigger] ix@[a] < targets.len() && answers(
                        id_views(targets@),
                        ix@[a] as int,
                    )) && (forall|i: int|
                    0 <= i < targets.len() && answers(id_views(targets@), i) ==> exists|a: int|
                        0 <= a < ix@.len() && #[trigger] ix@[a] == i) && (forall|a: int, b: int|
                    0 <= a < b < ix@.len() ==> ix@[a] < ix@[b]),
                Message::Propose => r is ProposeNow,
                Message::Shutdown => r is Stop,
            },
    {
        let ghost ids = id_views(targets@);
        match message {
            Message::Apply { file_id } => {
                let mut i = targets.len();
                while i > 0
                    invariant
                        i <= targets.len(),
                        ids == id_views(targets@),
                        *message == (Message::Apply { file_id: *file_id }),
                        forall|j: int| i <= j < targets.len() ==> targets@[j]@ != file_id@,
                    decreases i,
                {
                    if targets[i - 1].same_as(file_id) {
                        let mut ix: Vec<usize> = Vec::new();
                        ix.push(i - 1);
                        proof {
                            assert(ix@ =~= seq![(i - 1) as usize]);
                            assert(targets@[i - 1]@ == file_id@);
                            assert forall|j: int| i - 1 < j < ids.len() implies #[trigger] ids[j] != ids[i - 1] by {
                                assert(ids[j] == targets@[j]@);
                                assert(ids[i - 1] == targets@[i - 1]@);
                            }
                            assert(answers(ids, (i - 1) as int));
                            assert(ids[(i - 1) as int] == file_id@);
                            assert(routes_to_answering(ix@, ids, file_id@));
                        }
                        return Route::Run(ix);
                    }
                    i = i - 1;
                }
                proof {
                    assert forall|k: int| 0 <= k < ids.len() implies #[trigger] ids[k] != file_id@ by {
                        assert(ids[k] == targets@[k]@);
                    }
                }
                Route::Run(Vec::new())
            },
            Message::ApplyAll => {
                let mut ix: Vec<usize> = Vec::new();
                let mut i: usize = 0;
                while i < targets.len()
                    invariant
                        i <= targets.len(),
                        ids == id_views(targets@),
                        forall|a: int|
                            0 <= a < ix@.len() ==> #[trigger] ix@[a] < i && answers(ids, ix@[a] as int),
                        forall|k: int|
                            0 <= k < i && answers(ids, k) ==> exists|a: int|
                                0 <= a < ix@.len() && #[trigger] ix@[a] == k,
                        forall|a: int, b: int| 0 <= a < b < ix@.len() ==> ix@[a] < ix@[b],
                    decreases targets.len() - i,
                {
                    let mut j = i + 1;
                    let mut later = false;
                    while j < targets.len()
                        invariant
                            i < targets.len(),
                            i < j <= targets.len(),
                            ids == id_views(targets@),
                            later ==> !answers(ids, i as int),
                            !later ==> forall|l: int| i < l < j ==> ids[l] != ids[i as int],
                        decreases targets.len() - j,
                    {
                        if targets[j].same_as(&targets[i]) {
                            proof {
                                assert(ids[j as int] == targets@[j as int]@);
                                assert(ids[i as int] == targets@[i as int]@);
                            }
                            later = true;
                        }
                        j = j + 1;
                    }
                    let ghost old_ix = ix@;
                    if !later {
                        ix.push(i);
                    }
                    proof {
                        assert forall|k: int| 0 <= k < i + 1 && answers(ids, k) implies exists|a: int|
                            0 <= a < ix@.len() && #[trigger] ix@[a] == k by {
                            if k == i {
                                assert(!later);
                                assert(ix@[ix@.len() - 1] == k);
                            } else {
                                let a = choose|a: int| 0 <= a < old_ix.len() && #[trigger] old_ix[a] == k;
                                assert(ix@[a] == old_ix[a]);
                            }
                        }
                    }
                    i = i + 1;
                }
                Route::Run(ix)
            },
            Message::Propose => Route::ProposeNow,
            Message::Shutdown => Route::Stop,
        }
    }
}

} // verus!
