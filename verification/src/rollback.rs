//! What becomes of a restore that fails: what was there is brought back.

use vstd::prelude::*;

use crate::disk;
use crate::disk::Node;
use crate::recording;
use crate::restore;
use crate::restore::ActionView;
use crate::restore::OpView;
use crate::restore::Phase;
use crate::snapshot::Rules;
use crate::tree::EntryView;

verus! {

/// An operation on a proper path leaves the contents of a directory, and makes
/// no node of a kind that is never recorded.
proof fn lemma_perform(
    store: Map<Seq<char>, Seq<u8>>,
    fresh: u32,
    files: Map<Seq<u8>, Node>,
    action: ActionView,
)
    requires
        disk::is_disk(files),
        disk::place(action) matches Some(q) ==> disk::is_proper(q),
    ensures
        disk::perform(store, fresh, files, action) matches Ok(next) ==> disk::is_disk(next) && (
        forall|p: Seq<u8>| #[trigger]
            next.contains_key(p) && next[p] is Other ==> files.contains_key(p)
                && files[p] is Other),
{
    if let Ok(next) = disk::perform(store, fresh, files, action) {
        if next != files {
            let q = disk::place(action)->0;
            assert(disk::is_proper(q));
            assert forall|p: Seq<u8>| #[trigger] next.contains_key(p) implies disk::is_proper(p)
                && disk::is_reachable(next, p) by {
                if p != q {
                    assert(files.contains_key(p));
                    assert(disk::is_reachable(files, p));
                    assert forall|d: Seq<u8>| #[trigger] disk::is_below(d, p) implies next.contains_key(
                        d,
                    ) && next[d] is Directory by {
                        assert(files.contains_key(d) && files[d] is Directory);
                        if d == q {
                            assert(disk::is_below(q, p));
                            assert(disk::is_occupied(files, q));
                        }
                    }
                } else {
                    assert(disk::is_reachable(files, q));
                    assert forall|d: Seq<u8>| #[trigger] disk::is_below(d, q) implies next.contains_key(
                        d,
                    ) && next[d] is Directory by {
                        assert(d.len() < q.len());
                    }
                }
            }
        }
    }
}

proof fn lemma_actions(
    store: Map<Seq<char>, Seq<u8>>,
    fresh: u32,
    files: Map<Seq<u8>, Node>,
    actions: Seq<ActionView>,
)
    requires
        disk::is_disk(files),
        forall|i: int|
            0 <= i < actions.len() ==> (disk::place(#[trigger] actions[i]) matches Some(q)
                ==> disk::is_proper(q)),
    ensures
        disk::is_disk(disk::run_actions(store, fresh, files, actions).0),
        forall|p: Seq<u8>| #[trigger]
            disk::run_actions(store, fresh, files, actions).0.contains_key(p)
                && disk::run_actions(store, fresh, files, actions).0[p] is Other
                ==> files.contains_key(p) && files[p] is Other,
    decreases actions.len(),
{
    if actions.len() > 0 {
        let rest = actions.drop_first();
        assert forall|i: int| 0 <= i < rest.len() implies (disk::place(
            #[trigger] rest[i],
        ) matches Some(q) ==> disk::is_proper(q)) by {
            assert(rest[i] == actions[i + 1]);
        }
        assert(disk::place(actions[0]) matches Some(q) ==> disk::is_proper(q));
        lemma_perform(store, fresh, files, actions[0]);
        match disk::perform(store, fresh, files, actions[0]) {
            Ok(next) => {
                lemma_actions(store, fresh, next, rest);
            },
            Err(_) => {
                lemma_actions(store, fresh, files, rest);
            },
        }
    }
}

/// Steps of a restore on proper paths, whether or not all of them can be
/// taken, leave the contents of a directory, and make no node of a kind that
/// is never recorded.
pub proof fn law_steps_leave_a_directory(
    store: Map<Seq<char>, Seq<u8>>,
    fresh: u32,
    files: Map<Seq<u8>, Node>,
    ops: Seq<OpView>,
)
    requires
        disk::is_disk(files),
        forall|i: int| 0 <= i < ops.len() ==> disk::is_proper((#[trigger] ops[i]).path()),
    ensures
        disk::is_disk(disk::run(store, fresh, files, ops).0),
        forall|p: Seq<u8>| #[trigger]
            disk::run(store, fresh, files, ops).0.contains_key(p) && disk::run(
                store,
                fresh,
                files,
                ops,
            ).0[p] is Other ==> files.contains_key(p) && files[p] is Other,
    decreases ops.len(),
{
    if ops.len() > 0 {
        let front = ops.drop_last();
        assert forall|i: int| 0 <= i < front.len() implies disk::is_proper(
            (#[trigger] front[i]).path(),
        ) by {
            assert(front[i] == ops[i]);
        }
        law_steps_leave_a_directory(store, fresh, files, front);
        let before = disk::run(store, fresh, files, front);
        if before.1 {
            let op = ops.last();
            assert(disk::is_proper(op.path()));
            if let Some(actions) = restore::op_actions(op, disk::look(before.0, op.path())) {
                lemma_actions(store, fresh, before.0, actions);
            }
        }
    }
}

proof fn lemma_actions_make_no_directory(
    store: Map<Seq<char>, Seq<u8>>,
    fresh: u32,
    files: Map<Seq<u8>, Node>,
    actions: Seq<ActionView>,
    p: Seq<u8>,
)
    requires
        forall|i: int|
            0 <= i < actions.len() ==> #[trigger] actions[i] != (ActionView::CreateDirectory {
                path: p,
            }),
    ensures
        disk::look(disk::run_actions(store, fresh, files, actions).0, p) is Directory
            ==> disk::look(files, p) is Directory,
    decreases actions.len(),
{
    if actions.len() > 0 {
        let rest = actions.drop_first();
        assert forall|i: int| 0 <= i < rest.len() implies #[trigger] rest[i] != (
        ActionView::CreateDirectory { path: p }) by {
            assert(rest[i] == actions[i + 1]);
        }
        assert(actions[0] != (ActionView::CreateDirectory { path: p }));
        match disk::perform(store, fresh, files, actions[0]) {
            Ok(next) => {
                lemma_actions_make_no_directory(store, fresh, next, rest, p);
            },
            Err(_) => {
                lemma_actions_make_no_directory(store, fresh, files, rest, p);
            },
        }
    }
}

/// Steps of a restore make a directory only where one is to be prepared.
proof fn lemma_steps_make_no_directory(
    store: Map<Seq<char>, Seq<u8>>,
    fresh: u32,
    files: Map<Seq<u8>, Node>,
    ops: Seq<OpView>,
    p: Seq<u8>,
)
    requires
        forall|i: int|
            0 <= i < ops.len() ==> (#[trigger] ops[i]) !is PrepareDirectory || ops[i].path() != p,
    ensures
        disk::look(disk::run(store, fresh, files, ops).0, p) is Directory ==> disk::look(
            files,
            p,
        ) is Directory,
    decreases ops.len(),
{
    if ops.len() > 0 {
        let front = ops.drop_last();
        assert forall|i: int| 0 <= i < front.len() implies (#[trigger] front[i]) !is PrepareDirectory
            || front[i].path() != p by {
            assert(front[i] == ops[i]);
        }
        lemma_steps_make_no_directory(store, fresh, files, front, p);
        let before = disk::run(store, fresh, files, front);
        if before.1 {
            let op = ops.last();
            assert(op !is PrepareDirectory || op.path() != p);
            if let Some(actions) = restore::op_actions(op, disk::look(before.0, op.path())) {
                lemma_actions_make_no_directory(store, fresh, before.0, actions, p);
            }
        }
    }
}

/// The steps of a restore of a recordable state, whether or not all of them can
/// be taken, make no generated directory, and remove none that holds anything
/// or that the state has nothing in place of. So whatever is there still is
/// ignored if and only if it was.
proof fn lemma_steps_and_generated(
    store: Map<Seq<char>, Seq<u8>>,
    fresh: u32,
    rules: Rules,
    files: Map<Seq<u8>, Node>,
    target: Map<Seq<u8>, EntryView>,
    removals: Seq<OpView>,
    preparations: Seq<OpView>,
    placements: Seq<OpView>,
    seals: Seq<OpView>,
)
    requires
        disk::is_disk(files),
        disk::is_state(target),
        recording::is_recordable(rules, target),
        restore::is_plan(
            disk::snapshot_of(files, recording::ignored(rules, files)),
            target,
            removals,
            preparations,
            placements,
            seals,
        ),
    ensures
        ({
            let hidden = recording::ignored(rules, files);
            let after = disk::run(
                store,
                fresh,
                files,
                removals + preparations + placements + seals,
            ).0;
            &&& disk::is_disk(after)
            &&& forall|p: Seq<u8>| #[trigger]
                recording::is_generated(rules, after, p) ==> recording::is_generated(
                    rules,
                    files,
                    p,
                )
            &&& forall|p: Seq<u8>|
                hidden(p) && (target.contains_key(p) ==> disk::is_occupied(files, p))
                    ==> #[trigger] disk::is_same_at(files, after, p)
            &&& forall|p: Seq<u8>| #[trigger]
                after.contains_key(p) && after[p] is Other ==> files.contains_key(p)
                    && files[p] is Other
        }),
{
    let hidden = recording::ignored(rules, files);
    let current = disk::snapshot_of(files, hidden);
    let all = removals + preparations + placements + seals;
    let after = disk::run(store, fresh, files, all).0;
    let a = removals.len() as int;
    let b = a + preparations.len();
    let c = b + placements.len();
    assert forall|i: int| 0 <= i < all.len() implies disk::is_proper((#[trigger] all[i]).path())
        && (all[i] is PrepareDirectory ==> target.contains_key(all[i].path())
        && target[all[i].path()] is Directory) by {
        if i < a {
            assert(all[i] == removals[i]);
            assert(restore::phase_has(Phase::Remove, current, target, removals[i].path()));
            assert(removals[i] == restore::phase_op(
                Phase::Remove,
                current,
                target,
                removals[i].path(),
            ));
            assert(files.contains_key(removals[i].path()));
        } else if i < b {
            assert(all[i] == preparations[i - a]);
            assert(restore::phase_has(Phase::Prepare, current, target, preparations[i - a].path()));
        } else if i < c {
            assert(all[i] == placements[i - b]);
            assert(restore::phase_has(Phase::Place, current, target, placements[i - b].path()));
            assert(placements[i - b] == restore::phase_op(
                Phase::Place,
                current,
                target,
                placements[i - b].path(),
            ));
        } else {
            assert(all[i] == seals[i - c]);
            assert(restore::phase_has(Phase::Seal, current, target, seals[i - c].path()));
            assert(seals[i - c] == restore::phase_op(
                Phase::Seal,
                current,
                target,
                seals[i - c].path(),
            ));
        }
    }
    law_steps_leave_a_directory(store, fresh, files, all);
    assert forall|p: Seq<u8>| #[trigger]
        recording::is_generated(rules, after, p) implies recording::is_generated(
        rules,
        files,
        p,
    ) by {
        assert forall|i: int| 0 <= i < all.len() implies (#[trigger] all[i]) !is PrepareDirectory
            || all[i].path() != p by {}
        lemma_steps_make_no_directory(store, fresh, files, all, p);
    }
    assert forall|p: Seq<u8>|
        hidden(p) && (target.contains_key(p) ==> disk::is_occupied(
            files,
            p,
        )) implies #[trigger] disk::is_same_at(files, after, p) by {
        if target.contains_key(p) {
            recording::law_ignored_paths_of_states(rules, files, target, p);
            recording::law_ignored_is_hereditary(rules, files);
            let q = choose|q: Seq<u8>| files.contains_key(q) && #[trigger] disk::is_below(p, q);
            assert(hidden(q));
            disk::law_blocked_restore_fails(
                store,
                fresh,
                files,
                hidden,
                target,
                removals,
                preparations,
                placements,
                seals,
                p,
                q,
            );
        } else {
            disk::law_restore_keeps_ignored(
                store,
                fresh,
                files,
                hidden,
                target,
                removals,
                preparations,
                placements,
                seals,
                p,
            );
        }
    }
}

/// Where no generated directory is new, and each that is gone was empty, a
/// path that is still there is ignored as it was.
proof fn lemma_still_ignored(
    rules: Rules,
    files: Map<Seq<u8>, Node>,
    later: Map<Seq<u8>, Node>,
    p: Seq<u8>,
)
    requires
        disk::is_disk(files),
        disk::is_disk(later),
        forall|d: Seq<u8>| #[trigger]
            recording::is_generated(rules, later, d) ==> recording::is_generated(rules, files, d),
    ensures
        recording::ignored(rules, later)(p) ==> recording::ignored(rules, files)(p),
        later.contains_key(p) && later[p] is Directory && recording::ignored(rules, files)(p)
            ==> recording::ignored(rules, later)(p),
{
    if recording::ignored(rules, later)(p) {
        if recording::is_skipped(rules, later, p) {
            assert(recording::is_generated(rules, later, p) ==> recording::is_generated(
                rules,
                files,
                p,
            ));
        } else {
            let d = choose|d: Seq<u8>| #[trigger]
                disk::is_below(d, p) && recording::is_skipped(rules, later, d);
            assert(recording::is_generated(rules, later, d) ==> recording::is_generated(
                rules,
                files,
                d,
            ));
            assert(recording::is_sheltered(rules, files, p));
        }
    }
    if later.contains_key(p) && later[p] is Directory && recording::ignored(rules, files)(p) {
        assert(disk::is_reachable(later, p));
        if !recording::is_skipped(rules, files, p) {
            let d = choose|d: Seq<u8>| #[trigger]
                disk::is_below(d, p) && recording::is_skipped(rules, files, d);
            assert(later.contains_key(d) && later[d] is Directory);
            assert(recording::is_skipped(rules, later, d));
            assert(recording::is_sheltered(rules, later, p));
        }
    }
}

/// A restore that fails is undone: the steps back to what was recorded of the
/// directory before it can all be taken, and then each path that was recorded
/// leads to the very node that it led to, and no other path leads to anything
/// that would be recorded. What is ignored is as it was, but for empty ignored
/// directories in whose place the state that could not be restored has a file
/// or a link: where there is none, the same paths are ignored.
pub proof fn law_failed_restore_is_undone(
    store: Map<Seq<char>, Seq<u8>>,
    fresh: u32,
    rules: Rules,
    before: Map<Seq<u8>, Node>,
    target: Map<Seq<u8>, EntryView>,
    removals: Seq<OpView>,
    preparations: Seq<OpView>,
    placements: Seq<OpView>,
    seals: Seq<OpView>,
    middle: Map<Seq<u8>, Node>,
    back_removals: Seq<OpView>,
    back_preparations: Seq<OpView>,
    back_placements: Seq<OpView>,
    back_seals: Seq<OpView>,
) -> (after: Map<Seq<u8>, Node>)
    requires
        disk::is_disk(before),
        forall|p: Seq<u8>|
            disk::is_recorded(before, recording::ignored(rules, before), p) ==> disk::is_kept(
                store,
                #[trigger] before[p],
            ),
        disk::is_state(target),
        recording::is_recordable(rules, target),
        restore::is_plan(
            disk::snapshot_of(before, recording::ignored(rules, before)),
            target,
            removals,
            preparations,
            placements,
            seals,
        ),
        middle == disk::run(
            store,
            fresh,
            before,
            removals + preparations + placements + seals,
        ).0,
        restore::is_plan(
            disk::snapshot_of(middle, recording::ignored(rules, middle)),
            disk::snapshot_of(before, recording::ignored(rules, before)),
            back_removals,
            back_preparations,
            back_placements,
            back_seals,
        ),
    ensures
        disk::run(
            store,
            fresh,
            middle,
            back_removals + back_preparations + back_placements + back_seals,
        ) == (after, true),
        forall|p: Seq<u8>| #[trigger]
            disk::is_recorded(before, recording::ignored(rules, before), p) <==> disk::is_recorded(
                after,
                recording::ignored(rules, after),
                p,
            ),
        forall|p: Seq<u8>| #[trigger]
            disk::is_recorded(before, recording::ignored(rules, before), p) ==> after[p]
                == before[p],
        forall|p: Seq<u8>|
            recording::ignored(rules, before)(p) && (target.contains_key(p) ==> disk::is_occupied(
                before,
                p,
            )) ==> #[trigger] disk::is_same_at(before, after, p),
        (forall|p: Seq<u8>|
            #[trigger] target.contains_key(p) && recording::ignored(rules, before)(p)
                ==> disk::is_occupied(before, p)) ==> recording::ignored(rules, after)
            == recording::ignored(rules, before),
{
    let hidden = recording::ignored(rules, before);
    let hidden_now = recording::ignored(rules, middle);
    let current = disk::snapshot_of(before, hidden);
    recording::law_ignored_is_hereditary(rules, before);
    recording::law_snapshots_are_recordable(rules, before);
    disk::law_snapshot_is_restorable(store, before, hidden);
    lemma_steps_and_generated(
        store,
        fresh,
        rules,
        before,
        target,
        removals,
        preparations,
        placements,
        seals,
    );
    // What is not recorded in the middle was there before, in directories that
    // were there before.
    assert forall|p: Seq<u8>, d: Seq<u8>|
        middle.contains_key(p) && !disk::is_recorded(middle, hidden_now, p) && #[trigger] disk::is_below(
            d,
            p,
        ) implies before.contains_key(d) && before[d] is Directory by {
        assert(before.contains_key(p)) by {
            if hidden_now(p) {
                lemma_still_ignored(rules, before, middle, p);
                if target.contains_key(p) {
                    recording::law_ignored_paths_of_states(rules, before, target, p);
                } else {
                    assert(disk::is_same_at(before, middle, p));
                }
            }
        }
        assert(disk::is_reachable(before, p));
    }
    assert(disk::is_unobstructed(middle, hidden_now, current)) by {
        assert forall|d: Seq<u8>, p: Seq<u8>|
            disk::is_recorded(middle, hidden_now, d) && !current.contains_key(d)
                && middle.contains_key(p) && #[trigger] disk::is_below(
                d,
                p,
            ) implies disk::is_recorded(middle, hidden_now, p) by {
            if !disk::is_recorded(middle, hidden_now, p) {
                assert(disk::is_reachable(middle, p));
                lemma_still_ignored(rules, before, middle, d);
                assert(!hidden(d));
                assert(current.contains_key(d));
            }
        }
    }
    assert(disk::is_unblocked(middle, hidden_now, current)) by {
        assert forall|d: Seq<u8>, p: Seq<u8>|
            current.contains_key(d) && current[d] !is Directory && middle.contains_key(p)
                && #[trigger] disk::is_below(d, p) implies disk::is_recorded(
            middle,
            hidden_now,
            p,
        ) by {
            if !disk::is_recorded(middle, hidden_now, p) {
                assert(before[d] is Directory);
            }
        }
    }
    let after = recording::law_restored_directories_look_as_recorded(
        store,
        fresh,
        rules,
        middle,
        current,
        back_removals,
        back_preparations,
        back_placements,
        back_seals,
    );
    assert forall|p: Seq<u8>| #[trigger]
        disk::is_recorded(before, hidden, p) <==> disk::is_recorded(
            after,
            recording::ignored(rules, after),
            p,
        ) by {
        assert(disk::snapshot_of(after, recording::ignored(rules, after)).contains_key(p)
            <==> current.contains_key(p));
    }
    assert forall|p: Seq<u8>| #[trigger] disk::is_recorded(before, hidden, p) implies after[p]
        == before[p] by {
        assert(current.contains_key(p));
        assert(disk::node_of(store, disk::entry_of(before[p])) == before[p]);
    }
    assert forall|p: Seq<u8>|
        hidden(p) && (target.contains_key(p) ==> disk::is_occupied(
            before,
            p,
        )) implies #[trigger] disk::is_same_at(before, after, p) by {
        assert(disk::is_same_at(before, middle, p));
        assert(!current.contains_key(p));
        assert(!disk::is_recorded(middle, hidden_now, p)) by {
            if disk::is_recorded(middle, hidden_now, p) && !recording::is_skipped(
                rules,
                before,
                p,
            ) {
                let d = choose|d: Seq<u8>| #[trigger]
                    disk::is_below(d, p) && recording::is_skipped(rules, before, d);
                assert(disk::is_occupied(before, d));
                assert(hidden(d));
                assert(disk::is_same_at(before, middle, d));
                assert(recording::is_skipped(rules, middle, d));
                assert(recording::is_sheltered(rules, middle, p));
            }
        }
        assert(disk::is_same_at(middle, after, p));
    }
    if forall|p: Seq<u8>|
        #[trigger] target.contains_key(p) && hidden(p) ==> disk::is_occupied(before, p) {
        assert forall|p: Seq<u8>| #[trigger]
            recording::is_generated(rules, before, p) <==> recording::is_generated(
                rules,
                after,
                p,
            ) by {
            if recording::is_generated(rules, before, p) {
                assert(hidden(p));
                assert(disk::is_same_at(before, after, p));
            }
            if recording::is_generated(rules, after, p) {
                if current.contains_key(p) {
                    assert(current[p] is Directory);
                } else if !disk::is_recorded(middle, hidden_now, p) {
                    assert(disk::is_same_at(middle, after, p));
                    assert(recording::is_generated(rules, middle, p));
                }
            }
        }
        recording::lemma_same_ignored(rules, before, after);
    }
    after
}

} // verus!
