//! What a forced restore promises: what it replaced can be brought back.
//!
//! Nothing here runs.

use vstd::prelude::*;

use crate::checkpoint;
use crate::disk;
use crate::disk::Node;
use crate::recording;
use crate::repository;
use crate::repository::Fresh;
use crate::repository::Repository;
use crate::restore;
use crate::restore::OpView;
use crate::snapshot::Rules;

verus! {

/// A forced restore can be taken back: where it succeeded, and preserved what
/// the scope held in a safety checkpoint, restoring that checkpoint afterwards
/// needs no force and succeeds. Then each path that was recorded before leads
/// to the very node that it led to, a snapshot of the scope is the one that it
/// was, what is ignored is as it was, unless it was in the way of the forced
/// restore, the scope is at the safety checkpoint, which is hidden, and a
/// listing tells of the same checkpoints as before. `files` is what the scope
/// held, `target` the state that was restored first. This holds where no
/// directory that either restore drops holds anything but recorded entries.
pub proof fn law_safety_checkpoint_brings_back(
    store: Map<Seq<char>, Seq<u8>>,
    fresh: u32,
    rules: Rules,
    files: Map<Seq<u8>, Node>,
    repo: Repository,
    target: Seq<char>,
    safety: Fresh,
    other: Fresh,
    removals: Seq<OpView>,
    preparations: Seq<OpView>,
    placements: Seq<OpView>,
    seals: Seq<OpView>,
    middle: Map<Seq<u8>, Node>,
    back_removals: Seq<OpView>,
    back_preparations: Seq<OpView>,
    back_placements: Seq<OpView>,
    back_seals: Seq<OpView>,
) -> (after: Map<Seq<u8>, Node>)
    requires
        disk::is_disk(files),
        forall|p: Seq<u8>|
            disk::is_recorded(files, recording::ignored(rules, files), p) ==> disk::is_kept(
                store,
                #[trigger] files[p],
            ),
        repo.wf(),
        repo.manifests.contains_key(target),
        repo.has_diverged(
            repo.manifests[target].scope,
            disk::snapshot_of(files, recording::ignored(rules, files)),
        ),
        !repo.manifests.contains_key(safety.id),
        checkpoint::is_state_id("safe"@, safety.id),
        disk::is_restorable(store, repo.manifests[target].entries),
        recording::is_recordable(rules, repo.manifests[target].entries),
        disk::is_unobstructed(
            files,
            recording::ignored(rules, files),
            repo.manifests[target].entries,
        ),
        restore::is_plan(
            disk::snapshot_of(files, recording::ignored(rules, files)),
            repo.manifests[target].entries,
            removals,
            preparations,
            placements,
            seals,
        ),
        disk::run(store, fresh, files, removals + preparations + placements + seals) == (
            middle,
            true,
        ),
        disk::is_unobstructed(
            middle,
            recording::ignored(rules, middle),
            disk::snapshot_of(files, recording::ignored(rules, files)),
        ),
        restore::is_plan(
            disk::snapshot_of(middle, recording::ignored(rules, middle)),
            disk::snapshot_of(files, recording::ignored(rules, files)),
            back_removals,
            back_preparations,
            back_placements,
            back_seals,
        ),
    ensures
        ({
            let hidden = recording::ignored(rules, files);
            let held = disk::snapshot_of(files, hidden);
            let scope = repo.manifests[target].scope;
            let forced = repository::restored(repo, target, held, safety);
            let there = disk::snapshot_of(middle, recording::ignored(rules, middle));
            let end = repository::restored(forced, safety.id, there, other);
            &&& repository::can_restore(repo, target, held, true)
            &&& there == repo.manifests[target].entries
            &&& "safe-"@.is_prefix_of(safety.id)
            &&& forced.manifests[safety.id].scope == scope
            &&& forced.manifests[safety.id].entries == held
            &&& !repository::is_listed(forced, safety.id)
            &&& repository::same_listing(repo, forced)
            &&& repository::can_restore(forced, safety.id, there, false)
            &&& end.manifests == forced.manifests
            &&& end.heads[scope] == safety.id
            &&& repository::same_listing(repo, end)
            &&& disk::run(
                store,
                fresh,
                middle,
                back_removals + back_preparations + back_placements + back_seals,
            ) == (after, true)
            &&& disk::snapshot_of(after, recording::ignored(rules, after)) == held
            &&& forall|p: Seq<u8>| #[trigger]
                disk::is_recorded(files, hidden, p) ==> after.contains_key(p) && after[p]
                    == files[p]
            &&& forall|p: Seq<u8>|
                hidden(p) && !repo.manifests[target].entries.contains_key(p)
                    ==> #[trigger] disk::is_same_at(files, after, p)
        }),
{
    let hidden = recording::ignored(rules, files);
    let held = disk::snapshot_of(files, hidden);
    let scope = repo.manifests[target].scope;
    let forced = repository::restored(repo, target, held, safety);
    repository::law_restore_keeps_history(repo, target, held, true, safety);
    assert("safe-"@.is_prefix_of(safety.id)) by {
        reveal_strlit("safe");
        reveal_strlit("safe-");
        assert forall|i: int| 0 <= i < 5 implies "safe-"@[i] == safety.id[i] by {
            if i < 4 {
                assert("safe"@[i] == safety.id.take(4)[i]);
            }
        }
        assert("safe-"@ =~= safety.id.take(5));
    }
    let reached = recording::law_restored_directories_look_as_recorded(
        store,
        fresh,
        rules,
        files,
        repo.manifests[target].entries,
        removals,
        preparations,
        placements,
        seals,
    );
    assert(reached == middle);
    recording::law_ignored_is_hereditary(rules, files);
    disk::law_snapshot_is_restorable(store, files, hidden);
    recording::law_snapshots_are_recordable(rules, files);
    assert(disk::is_unblocked(middle, recording::ignored(rules, middle), held)) by {
        assert forall|d: Seq<u8>, p: Seq<u8>|
            held.contains_key(d) && held[d] !is Directory && middle.contains_key(p)
                && #[trigger] disk::is_below(d, p) implies disk::is_recorded(
            middle,
            recording::ignored(rules, middle),
            p,
        ) by {
            if !disk::is_recorded(middle, recording::ignored(rules, middle), p) {
                assert(!disk::snapshot_of(middle, recording::ignored(rules, middle)).contains_key(
                    p,
                ));
                assert(!disk::is_recorded(files, hidden, p));
                assert(disk::is_same_at(files, middle, p));
                assert(disk::is_reachable(files, p));
                assert(files[d] is Directory);
            }
        }
    }
    let after = recording::law_restored_directories_look_as_recorded(
        store,
        fresh,
        rules,
        middle,
        held,
        back_removals,
        back_preparations,
        back_placements,
        back_seals,
    );
    assert forall|p: Seq<u8>| #[trigger] disk::is_recorded(files, hidden, p) implies after.contains_key(
        p,
    ) && after[p] == files[p] by {
        assert(held.contains_key(p));
        assert(disk::node_of(store, disk::entry_of(files[p])) == files[p]);
    }
    assert forall|p: Seq<u8>|
        hidden(p) && !repo.manifests[target].entries.contains_key(
            p,
        ) implies #[trigger] disk::is_same_at(files, after, p) by {
        assert(disk::is_same_at(files, middle, p));
        assert(!disk::snapshot_of(middle, recording::ignored(rules, middle)).contains_key(p));
        assert(disk::is_same_at(middle, after, p));
    }
    let there = disk::snapshot_of(middle, recording::ignored(rules, middle));
    let end = repository::restored(forced, safety.id, there, other);
    assert(forced.is_at_head(scope, there));
    assert(!forced.has_diverged(scope, there));
    after
}

} // verus!
