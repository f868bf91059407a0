//! What the operations on checkpoints, taken together, promise.
//!
//! Nothing here runs. The files of a store are modelled by maps, and each
//! operation by what its steps write to them.

use vstd::prelude::*;

use crate::history::ChangeSummary;
use crate::history::ManifestView;
use crate::history::TransactionView;
use crate::operations;
use crate::tree::EntryView;

verus! {

/// What a store holds: recorded states, the state that each scope is at, and
/// the changes under way.
pub struct Repository {
    pub manifests: Map<Seq<char>, ManifestView>,
    pub heads: Map<Seq<char>, Seq<char>>,
    pub transactions: Map<Seq<char>, TransactionView>,
}

impl Repository {
    /// The state that a scope is at.
    pub open spec fn head(self, scope: Seq<char>) -> Option<Seq<char>> {
        if self.heads.contains_key(scope) {
            Some(self.heads[scope])
        } else {
            None
        }
    }

    /// Every state is recorded under its name, and every scope is at a
    /// recorded state.
    pub open spec fn wf(self) -> bool {
        &&& forall|id: Seq<char>| #[trigger]
            self.manifests.contains_key(id) ==> self.manifests[id].id == id
        &&& forall|scope: Seq<char>| #[trigger]
            self.heads.contains_key(scope) ==> self.manifests.contains_key(self.heads[scope])
    }

    /// Whether a scope whose entries are `current` is as its head recorded it.
    pub open spec fn is_at_head(self, scope: Seq<char>, current: Map<Seq<u8>, EntryView>) -> bool {
        self.heads.contains_key(scope) && self.manifests[self.heads[scope]].entries == current
    }

    /// Records a state.
    pub open spec fn recorded(self, manifest: ManifestView) -> Repository {
        Repository { manifests: self.manifests.insert(manifest.id, manifest), ..self }
    }

    /// Moves a scope to a state.
    pub open spec fn moved(self, scope: Seq<char>, id: Seq<char>) -> Repository {
        Repository { heads: self.heads.insert(scope, id), ..self }
    }

    /// Records a change under way.
    pub open spec fn under_way(self, transaction: TransactionView) -> Repository {
        Repository {
            transactions: self.transactions.insert(transaction.id, transaction),
            ..self
        }
    }

    /// Forgets a change under way.
    pub open spec fn ended(self, transaction: Seq<char>) -> Repository {
        Repository { transactions: self.transactions.remove(transaction), ..self }
    }

    /// Whether a restore would lose something: the scope differs from its
    /// head, or it has none and is not empty.
    pub open spec fn has_diverged(
        self,
        scope: Seq<char>,
        current: Map<Seq<u8>, EntryView>,
    ) -> bool {
        if self.heads.contains_key(scope) {
            self.manifests[self.heads[scope]].entries != current
        } else {
            current != Map::<Seq<u8>, EntryView>::empty()
        }
    }
}

/// What is new for an operation: names that nothing has, and the time.
pub struct Fresh {
    pub id: Seq<char>,
    pub now: u128,
}

/// The state that a change starts from, as it is recorded where the scope is
/// not as its head recorded it.
pub open spec fn with_base(
    repo: Repository,
    scope: Seq<char>,
    current: Map<Seq<u8>, EntryView>,
    base: Fresh,
) -> Repository {
    if repo.is_at_head(scope, current) {
        repo
    } else {
        repo.recorded(
            operations::hidden_state(base.id, scope, repo.head(scope), base.now, current),
        ).moved(scope, base.id)
    }
}

/// A store with a change under way that starts from the state that its scope
/// is at.
pub open spec fn with_transaction(
    repo: Repository,
    scope: Seq<char>,
    transaction: Fresh,
) -> Repository {
    repo.under_way(
        TransactionView {
            id: transaction.id,
            scope,
            base: repo.heads[scope],
            created_at_ms: transaction.now,
        },
    )
}

/// A store after a change has begun in a scope whose entries are `current`.
pub open spec fn begun(
    repo: Repository,
    scope: Seq<char>,
    current: Map<Seq<u8>, EntryView>,
    base: Fresh,
    transaction: Fresh,
) -> Repository {
    with_transaction(with_base(repo, scope, current, base), scope, transaction)
}

/// Whether a change can be finished: it is under way, and its scope has not
/// moved on.
pub open spec fn can_finish(repo: Repository, transaction: Seq<char>) -> bool {
    &&& repo.transactions.contains_key(transaction)
    &&& repo.manifests.contains_key(repo.transactions[transaction].base)
    &&& repo.head(repo.transactions[transaction].scope) == Some(repo.transactions[transaction].base)
}

/// A store after a change is finished in a scope whose entries are `current`.
pub open spec fn finished(
    repo: Repository,
    transaction: Seq<char>,
    current: Map<Seq<u8>, EntryView>,
    change: Fresh,
    summary: ChangeSummary,
) -> Repository {
    let t = repo.transactions[transaction];
    let base = repo.manifests[t.base];
    let next = if base.entries == current {
        repo
    } else {
        repo.recorded(
            operations::change_state(change.id, t.scope, base.id, change.now, summary, current),
        ).moved(t.scope, change.id)
    };
    next.ended(transaction)
}

/// Whether a state can be restored in a scope whose entries are `current`.
pub open spec fn can_restore(
    repo: Repository,
    target: Seq<char>,
    current: Map<Seq<u8>, EntryView>,
    force: bool,
) -> bool {
    repo.manifests.contains_key(target) && (force || !repo.has_diverged(
        repo.manifests[target].scope,
        current,
    ))
}

/// A store in which what a scope holds is recorded, where a restore would lose
/// it.
pub open spec fn preserved(
    repo: Repository,
    scope: Seq<char>,
    current: Map<Seq<u8>, EntryView>,
    safety: Fresh,
) -> Repository {
    if repo.has_diverged(scope, current) {
        repo.recorded(
            operations::hidden_state(safety.id, scope, repo.head(scope), safety.now, current),
        )
    } else {
        repo
    }
}

/// A store after a state is restored in a scope whose entries were `current`.
pub open spec fn restored(
    repo: Repository,
    target: Seq<char>,
    current: Map<Seq<u8>, EntryView>,
    safety: Fresh,
) -> Repository {
    let scope = repo.manifests[target].scope;
    preserved(repo, scope, current, safety).moved(scope, target)
}

/// Whether every state of one store is in another, unchanged.
pub open spec fn keeps_history(before: Repository, after: Repository) -> bool {
    before.manifests.submap_of(after.manifests)
}

/// Beginning a change keeps all that is recorded, and records the state before
/// the change: the state that the change starts from is that of the scope, and
/// is what the scope is at. No checkpoint becomes visible, other scopes stay
/// where they are, and other changes stay under way.
pub proof fn law_begin_captures_the_state(
    repo: Repository,
    scope: Seq<char>,
    current: Map<Seq<u8>, EntryView>,
    base: Fresh,
    transaction: Fresh,
)
    requires
        repo.wf(),
        !repo.manifests.contains_key(base.id),
    ensures
        ({
            let after = begun(repo, scope, current, base, transaction);
            let from = after.transactions[transaction.id].base;
            &&& after.wf()
            &&& keeps_history(repo, after)
            &&& can_finish(after, transaction.id)
            &&& after.transactions[transaction.id].scope == scope
            &&& after.manifests[from].entries == current
            &&& same_listing(repo, after)
            &&& forall|s: Seq<char>| s != scope ==> #[trigger] after.head(s) == repo.head(s)
            &&& after.transactions.remove(transaction.id) == repo.transactions.remove(
                transaction.id,
            )
        }),
{
    let after = begun(repo, scope, current, base, transaction);
    assert(repo.heads.contains_key(scope) ==> repo.manifests.contains_key(repo.heads[scope]));
    assert forall|s: Seq<char>| #[trigger]
        after.heads.contains_key(s) implies after.manifests.contains_key(after.heads[s]) by {
        if s != scope {
            assert(repo.heads.contains_key(s));
        }
    }
}

/// Finishing a change makes a checkpoint visible if and only if the scope
/// changed. The checkpoint records the scope as it is then, and its parent is
/// the state that the change started from. A listing tells of it and of what
/// it told before, and of nothing else; other scopes stay where they are, and
/// other changes stay under way.
pub proof fn law_finish_records_changes_only(
    repo: Repository,
    transaction: Seq<char>,
    current: Map<Seq<u8>, EntryView>,
    change: Fresh,
    summary: ChangeSummary,
)
    requires
        repo.wf(),
        can_finish(repo, transaction),
        !repo.manifests.contains_key(change.id),
    ensures
        ({
            let after = finished(repo, transaction, current, change, summary);
            let t = repo.transactions[transaction];
            let changed = repo.manifests[t.base].entries != current;
            &&& after.wf()
            &&& keeps_history(repo, after)
            &&& after.transactions == repo.transactions.remove(transaction)
            &&& after.is_at_head(t.scope, current)
            &&& forall|id: Seq<char>| #[trigger]
                is_listed(after, id) <==> is_listed(repo, id) || changed && id == change.id
            &&& forall|s: Seq<char>| s != t.scope ==> #[trigger] after.head(s) == repo.head(s)
            &&& !changed ==> after.manifests == repo.manifests && after.heads == repo.heads
            &&& changed ==> {
                &&& after.manifests.contains_key(change.id)
                &&& after.manifests[change.id].visible
                &&& after.manifests[change.id].entries == current
                &&& after.manifests[change.id].parent == Some(t.base)
                &&& after.manifests[change.id].summary == summary
                &&& after.heads[t.scope] == change.id
            }
        }),
{
    let after = finished(repo, transaction, current, change, summary);
    let scope = repo.transactions[transaction].scope;
    assert(repo.heads.contains_key(scope));
    assert forall|s: Seq<char>| #[trigger]
        after.heads.contains_key(s) implies after.manifests.contains_key(after.heads[s]) by {
        if s != scope {
            assert(repo.heads.contains_key(s));
        }
    }
}

/// Of two changes that began at the same state of a scope, the second cannot
/// be finished once the first is, unless the first changed nothing.
pub proof fn law_overtaken_changes_are_stale(
    repo: Repository,
    first: Seq<char>,
    second: Seq<char>,
    current: Map<Seq<u8>, EntryView>,
    change: Fresh,
    summary: ChangeSummary,
)
    requires
        repo.wf(),
        first != second,
        can_finish(repo, first),
        can_finish(repo, second),
        repo.transactions[first].scope == repo.transactions[second].scope,
        !repo.manifests.contains_key(change.id),
    ensures
        can_finish(finished(repo, first, current, change, summary), second)
            <==> repo.manifests[repo.transactions[first].base].entries == current,
{
    let t = repo.transactions[first];
    assert(repo.transactions[second].base == t.base);
    assert(change.id != t.base);
}

/// A change that begins at one state of a scope and is finished at another
/// leaves a checkpoint of the latter whose parent is the former: to restore
/// the checkpoint is to go to the state after the change, and to undo it is to
/// go to the state before.
pub proof fn law_change_connects_both_states(
    repo: Repository,
    scope: Seq<char>,
    before: Map<Seq<u8>, EntryView>,
    after: Map<Seq<u8>, EntryView>,
    base: Fresh,
    transaction: Fresh,
    change: Fresh,
    summary: ChangeSummary,
)
    requires
        repo.wf(),
        !repo.manifests.contains_key(base.id),
        !begun(repo, scope, before, base, transaction).manifests.contains_key(change.id),
        before != after,
    ensures
        ({
            let done = finished(
                begun(repo, scope, before, base, transaction),
                transaction.id,
                after,
                change,
                summary,
            );
            let checkpoint = done.manifests[change.id];
            &&& keeps_history(repo, done)
            &&& done.manifests.contains_key(change.id)
            &&& checkpoint.visible
            &&& checkpoint.scope == scope
            &&& checkpoint.entries == after
            &&& checkpoint.parent matches Some(parent)
            &&& done.manifests.contains_key(parent)
            &&& done.manifests[parent].entries == before
        }),
{
    law_begin_captures_the_state(repo, scope, before, base, transaction);
    let middle = begun(repo, scope, before, base, transaction);
    law_finish_records_changes_only(middle, transaction.id, after, change, summary);
}

/// Restoring a state destroys no history: every recorded state stays, also the
/// later ones, and the scope is then at the restored state. What the scope
/// held, where it was not recorded, is recorded as a hidden state first.
pub proof fn law_restore_keeps_history(
    repo: Repository,
    target: Seq<char>,
    current: Map<Seq<u8>, EntryView>,
    force: bool,
    safety: Fresh,
)
    requires
        repo.wf(),
        can_restore(repo, target, current, force),
        !repo.manifests.contains_key(safety.id),
    ensures
        ({
            let after = restored(repo, target, current, safety);
            let scope = repo.manifests[target].scope;
            let diverged = repo.has_diverged(scope, current);
            &&& after.wf()
            &&& keeps_history(repo, after)
            &&& after.transactions == repo.transactions
            &&& after.is_at_head(scope, repo.manifests[target].entries)
            &&& after.heads[scope] == target
            &&& diverged ==> {
                &&& after.manifests.contains_key(safety.id)
                &&& !after.manifests[safety.id].visible
                &&& after.manifests[safety.id].scope == scope
                &&& after.manifests[safety.id].entries == current
                &&& after.manifests[safety.id].parent == repo.head(scope)
            }
            &&& !diverged ==> after.manifests == repo.manifests
        }),
{
    let after = restored(repo, target, current, safety);
    let scope = repo.manifests[target].scope;
    assert(safety.id != target);
    assert forall|s: Seq<char>| #[trigger]
        after.heads.contains_key(s) implies after.manifests.contains_key(after.heads[s]) by {
        if s != scope {
            assert(repo.heads.contains_key(s));
        }
    }
}

/// What is not recorded is never lost: a restore without force is refused
/// unless what the scope holds is recorded, or the scope is empty and has no
/// history; and after any restore it is recorded, under the same conditions.
pub proof fn law_nothing_is_lost(
    repo: Repository,
    target: Seq<char>,
    current: Map<Seq<u8>, EntryView>,
    force: bool,
    safety: Fresh,
)
    requires
        repo.wf(),
        can_restore(repo, target, current, force),
        !repo.manifests.contains_key(safety.id),
        repo.heads.contains_key(repo.manifests[target].scope) || current != Map::<
            Seq<u8>,
            EntryView,
        >::empty(),
    ensures
        exists|id: Seq<char>|
            restored(repo, target, current, safety).manifests.contains_key(id) && (
            #[trigger] restored(repo, target, current, safety).manifests[id]).entries == current,
{
    let after = restored(repo, target, current, safety);
    let scope = repo.manifests[target].scope;
    law_restore_keeps_history(repo, target, current, force, safety);
    if repo.has_diverged(scope, current) {
        assert(after.manifests[safety.id].entries == current);
    } else {
        let head = repo.heads[scope];
        assert(repo.manifests.contains_key(head));
        assert(after.manifests.contains_key(head));
        assert(after.manifests[head].entries == current);
    }
}

/// After a restore that brought the state back, the scope has not diverged: a
/// further restore needs no force, and a change begins at the restored state
/// without recording anything.
pub proof fn law_restore_leaves_a_clean_scope(
    repo: Repository,
    target: Seq<char>,
    current: Map<Seq<u8>, EntryView>,
    force: bool,
    safety: Fresh,
    base: Fresh,
    transaction: Fresh,
)
    requires
        repo.wf(),
        can_restore(repo, target, current, force),
        !repo.manifests.contains_key(safety.id),
    ensures
        ({
            let after = restored(repo, target, current, safety);
            let scope = repo.manifests[target].scope;
            let there = repo.manifests[target].entries;
            &&& !after.has_diverged(scope, there)
            &&& begun(after, scope, there, base, transaction).manifests == after.manifests
            &&& begun(after, scope, there, base, transaction).transactions[transaction.id].base
                == target
        }),
{
    law_restore_keeps_history(repo, target, current, force, safety);
}

/// A change that begins in a scope where another has just begun and nothing
/// has changed since starts from the same state: nothing more is recorded, the
/// scope stays where it is, and both changes are under way under names of their
/// own.
pub proof fn law_second_begin_starts_from_the_same_state(
    repo: Repository,
    scope: Seq<char>,
    current: Map<Seq<u8>, EntryView>,
    base: Fresh,
    first: Fresh,
    other_base: Fresh,
    second: Fresh,
)
    requires
        repo.wf(),
        !repo.manifests.contains_key(base.id),
        !begun(repo, scope, current, base, first).transactions.contains_key(second.id),
    ensures
        ({
            let once = begun(repo, scope, current, base, first);
            let twice = begun(once, scope, current, other_base, second);
            &&& first.id != second.id
            &&& twice.transactions.contains_key(first.id)
            &&& twice.transactions[first.id] == once.transactions[first.id]
            &&& twice.transactions[second.id].scope == scope
            &&& twice.transactions[second.id].scope == twice.transactions[first.id].scope
            &&& twice.transactions[second.id].base == twice.transactions[first.id].base
            &&& twice.manifests == once.manifests
            &&& twice.heads == once.heads
            &&& can_finish(twice, first.id)
            &&& can_finish(twice, second.id)
        }),
{
    law_begin_captures_the_state(repo, scope, current, base, first);
    assert(begun(repo, scope, current, base, first).transactions.contains_key(first.id));
}

/// Whether a listing of the checkpoints tells of a state.
pub open spec fn is_listed(repo: Repository, id: Seq<char>) -> bool {
    repo.manifests.contains_key(id) && repo.manifests[id].visible
}

/// Whether listings of two stores tell the same.
pub open spec fn same_listing(a: Repository, b: Repository) -> bool {
    &&& forall|id: Seq<char>| #[trigger] is_listed(a, id) <==> is_listed(b, id)
    &&& forall|id: Seq<char>| #[trigger] is_listed(a, id) ==> a.manifests[id] == b.manifests[id]
}

/// A recorded state can be restored whenever that is insisted on; else only
/// where nothing is lost by it, that is where the scope looks as its head says,
/// or is empty and has none. A state that was never recorded cannot.
pub proof fn law_restores_are_allowed_where_nothing_is_lost(
    repo: Repository,
    target: Seq<char>,
    current: Map<Seq<u8>, EntryView>,
)
    ensures
        can_restore(repo, target, current, true) <==> repo.manifests.contains_key(target),
        can_restore(repo, target, current, false) <==> repo.manifests.contains_key(target) && {
            let scope = repo.manifests[target].scope;
            if repo.heads.contains_key(scope) {
                repo.manifests[repo.heads[scope]].entries == current
            } else {
                current == Map::<Seq<u8>, EntryView>::empty()
            }
        },
{
}

} // verus!
