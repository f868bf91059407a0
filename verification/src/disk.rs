//! A model of the directory that checkpoints are taken of, and what a restore
//! does to it.
//!
//! Nothing here runs: the file system operations that `restore` plans are
//! given their meaning on a map from paths to nodes, and a restore is proved
//! to bring back what was recorded.

use vstd::prelude::*;
use vstd::utf8;

use crate::digest;
use crate::error::FailureKind;
use crate::order;
use crate::path;
use crate::restore;
use crate::restore::ActionView;
use crate::restore::OpView;
use crate::restore::Phase;
use crate::restore::Seen;
use crate::sequence;
use crate::tree;
use crate::tree::EntryView;

verus! {

/// What a path can lead to. Permissions include the type of the file, as the
/// system reports them.
pub enum Node {
    File { content: Seq<u8>, mode: u32 },
    Directory { mode: u32 },
    Symlink { target: Seq<u8> },
    /// A socket, a pipe or a device.
    Other,
}

/// The permissions that a regular file has after they were set to `mode`.
pub open spec fn file_mode(mode: u32) -> u32 {
    0o100000u32 | (mode & 0o7777u32)
}

/// The permissions that a directory has after they were set to `mode`.
pub open spec fn directory_mode(mode: u32) -> u32 {
    0o40000u32 | (mode & 0o7777u32)
}

/// Whether a path lies below another.
pub open spec fn is_below(directory: Seq<u8>, path: Seq<u8>) -> bool {
    &&& directory.len() < path.len()
    &&& path[directory.len() as int] == path::SLASH
    &&& path.take(directory.len() as int) == directory
}

/// Whether a path is made of names with one slash between them.
pub open spec fn is_proper(path: Seq<u8>) -> bool {
    &&& path.len() > 0
    &&& path == path::joined(path::segments(path))
    &&& forall|i: int|
        0 <= i < path::segments(path).len() ==> path::is_name(#[trigger] path::segments(path)[i])
}

/// Whether everything above a path is a directory.
pub open spec fn is_reachable(disk: Map<Seq<u8>, Node>, path: Seq<u8>) -> bool {
    forall|d: Seq<u8>| #[trigger]
        is_below(d, path) ==> disk.contains_key(d) && disk[d] is Directory
}

/// Whether a map can be the contents of a directory.
pub open spec fn is_disk(disk: Map<Seq<u8>, Node>) -> bool {
    forall|p: Seq<u8>| #[trigger] disk.contains_key(p) ==> is_proper(p) && is_reachable(disk, p)
}

/// What is recorded of a node.
pub open spec fn entry_of(node: Node) -> EntryView {
    match node {
        Node::File { content, mode } => EntryView::File {
            object: digest::digest(content),
            mode,
            size: content.len() as u64,
        },
        Node::Directory { mode } => EntryView::Directory { mode },
        Node::Symlink { target } => EntryView::Symlink { target: utf8::decode_utf8(target) },
        Node::Other => EntryView::Directory { mode: 0 },
    }
}

/// Whether a path is recorded: it is there, it is not ignored, and it is a
/// file, a directory or a link.
pub open spec fn is_recorded(
    disk: Map<Seq<u8>, Node>,
    ignored: spec_fn(Seq<u8>) -> bool,
    path: Seq<u8>,
) -> bool {
    disk.contains_key(path) && !ignored(path) && disk[path] !is Other
}

/// What is recorded of a directory.
pub open spec fn snapshot_of(
    disk: Map<Seq<u8>, Node>,
    ignored: spec_fn(Seq<u8>) -> bool,
) -> Map<Seq<u8>, EntryView> {
    Map::new(|p: Seq<u8>| is_recorded(disk, ignored, p), |p: Seq<u8>| entry_of(disk[p]))
}

/// Whether what lies below an ignored path is ignored too.
pub open spec fn is_hereditary(ignored: spec_fn(Seq<u8>) -> bool) -> bool {
    forall|d: Seq<u8>, p: Seq<u8>| ignored(d) && #[trigger] is_below(d, p) ==> ignored(p)
}

/// Whether an entry can be brought back: its permissions are those of its
/// kind, and the object of a file is stored under the digest of its content.
pub open spec fn is_stored(store: Map<Seq<char>, Seq<u8>>, entry: EntryView) -> bool {
    match entry {
        EntryView::File { object, mode, size } => {
            &&& store.contains_key(object)
            &&& digest::digest(store[object]) == object
            &&& store[object].len() as u64 == size
            &&& file_mode(mode) == mode
        },
        EntryView::Directory { mode } => directory_mode(mode) == mode,
        EntryView::Symlink { .. } => true,
    }
}

/// Whether a map can be the recorded state of a directory.
pub open spec fn is_state(target: Map<Seq<u8>, EntryView>) -> bool {
    forall|p: Seq<u8>| #[trigger]
        target.contains_key(p) ==> is_proper(p) && above_are_directories(target, p)
}

/// Whether a recorded state can be brought back: it is that of a directory,
/// and all its objects are stored.
pub open spec fn is_restorable(
    store: Map<Seq<char>, Seq<u8>>,
    target: Map<Seq<u8>, EntryView>,
) -> bool {
    &&& is_state(target)
    &&& forall|p: Seq<u8>| #[trigger] target.contains_key(p) ==> is_stored(store, target[p])
}

/// Whether everything above a path is recorded as a directory.
pub open spec fn above_are_directories(target: Map<Seq<u8>, EntryView>, path: Seq<u8>) -> bool {
    forall|d: Seq<u8>| #[trigger]
        is_below(d, path) ==> target.contains_key(d) && target[d] is Directory
}

/// Whether something lies below a path.
pub open spec fn is_occupied(disk: Map<Seq<u8>, Node>, directory: Seq<u8>) -> bool {
    exists|p: Seq<u8>| disk.contains_key(p) && #[trigger] is_below(directory, p)
}

/// Whether the recorded directories that a state does not have hold nothing
/// but recorded entries.
pub open spec fn is_unobstructed(
    disk: Map<Seq<u8>, Node>,
    ignored: spec_fn(Seq<u8>) -> bool,
    target: Map<Seq<u8>, EntryView>,
) -> bool {
    forall|d: Seq<u8>, p: Seq<u8>|
        is_recorded(disk, ignored, d) && !target.contains_key(d) && disk.contains_key(p)
            && #[trigger] is_below(d, p) ==> is_recorded(disk, ignored, p)
}

/// Whether nothing but recorded entries lies where a state has a file or a
/// link: a directory that is there, whether or not it is ignored itself, holds
/// nothing that is not recorded.
pub open spec fn is_unblocked(
    disk: Map<Seq<u8>, Node>,
    ignored: spec_fn(Seq<u8>) -> bool,
    target: Map<Seq<u8>, EntryView>,
) -> bool {
    forall|d: Seq<u8>, p: Seq<u8>|
        target.contains_key(d) && target[d] !is Directory && disk.contains_key(p)
            && #[trigger] is_below(d, p) ==> is_recorded(disk, ignored, p)
}

/// What the system finds at a path.
pub open spec fn look(disk: Map<Seq<u8>, Node>, path: Seq<u8>) -> Seen {
    if !disk.contains_key(path) {
        Seen::Missing
    } else if disk[path] is Directory {
        Seen::Directory
    } else {
        Seen::Other
    }
}

/// The removal of a directory.
pub open spec fn remove_directory(disk: Map<Seq<u8>, Node>, path: Seq<u8>) -> Result<
    Map<Seq<u8>, Node>,
    FailureKind,
> {
    if !disk.contains_key(path) {
        Err(FailureKind::NotFound)
    } else if disk[path] !is Directory {
        Err(FailureKind::Other)
    } else if is_occupied(disk, path) {
        Err(FailureKind::DirectoryNotEmpty)
    } else {
        Ok(disk.remove(path))
    }
}

/// The removal of anything but a directory.
pub open spec fn remove_file(disk: Map<Seq<u8>, Node>, path: Seq<u8>) -> Result<
    Map<Seq<u8>, Node>,
    FailureKind,
> {
    if !disk.contains_key(path) {
        Err(FailureKind::NotFound)
    } else if disk[path] is Directory {
        Err(FailureKind::Other)
    } else {
        Ok(disk.remove(path))
    }
}

/// A new node at a path that has none.
pub open spec fn create(disk: Map<Seq<u8>, Node>, path: Seq<u8>, node: Node) -> Result<
    Map<Seq<u8>, Node>,
    FailureKind,
> {
    if disk.contains_key(path) {
        Err(FailureKind::Other)
    } else if !is_reachable(disk, path) {
        Err(FailureKind::NotFound)
    } else {
        Ok(disk.insert(path, node))
    }
}

/// New permissions for a file or a directory.
pub open spec fn set_mode(disk: Map<Seq<u8>, Node>, path: Seq<u8>, mode: u32) -> Result<
    Map<Seq<u8>, Node>,
    FailureKind,
> {
    if !disk.contains_key(path) {
        Err(FailureKind::NotFound)
    } else {
        match disk[path] {
            Node::File { content, .. } => Ok(
                disk.insert(path, Node::File { content, mode: file_mode(mode) }),
            ),
            Node::Directory { .. } => Ok(
                disk.insert(path, Node::Directory { mode: directory_mode(mode) }),
            ),
            _ => Err(FailureKind::Other),
        }
    }
}

/// What an operation does. New directories have the permissions `fresh`.
pub open spec fn perform(
    store: Map<Seq<char>, Seq<u8>>,
    fresh: u32,
    disk: Map<Seq<u8>, Node>,
    action: ActionView,
) -> Result<Map<Seq<u8>, Node>, FailureKind> {
    match action {
        ActionView::RemoveStaleDirectory { path } => remove_directory(disk, path),
        ActionView::ReplaceDirectory { path } => remove_directory(disk, path),
        ActionView::RemoveStaleFile { path } => remove_file(disk, path),
        ActionView::ReplaceFile { path } => remove_file(disk, path),
        ActionView::RemoveNonDirectory { path } => match look(disk, path) {
            Seen::Other => remove_file(disk, path),
            _ => Ok(disk),
        },
        ActionView::CreateDirectory { path } => create(
            disk,
            path,
            Node::Directory { mode: directory_mode(fresh) },
        ),
        ActionView::PrepareMode { path, mode } => set_mode(disk, path, mode),
        ActionView::SetFileMode { path, mode } => set_mode(disk, path, mode),
        ActionView::SetDirectoryMode { path, mode } => set_mode(disk, path, mode),
        ActionView::ReadObject { object } => if store.contains_key(object) {
            Ok(disk)
        } else {
            Err(FailureKind::NotFound)
        },
        ActionView::WriteFile { path, object } => if look(disk, path) is Directory {
            Err(FailureKind::Other)
        } else if !is_reachable(disk, path) {
            Err(FailureKind::NotFound)
        } else {
            Ok(disk.insert(path, Node::File { content: store[object], mode: file_mode(0o600) }))
        },
        ActionView::MakeSymlink { path, target } => create(
            disk,
            path,
            Node::Symlink { target: utf8::encode_utf8(target) },
        ),
    }
}

/// What some operations do, one after the other, and whether none of them
/// failed in a way that ends the restore.
pub open spec fn run_actions(
    store: Map<Seq<char>, Seq<u8>>,
    fresh: u32,
    disk: Map<Seq<u8>, Node>,
    actions: Seq<ActionView>,
) -> (Map<Seq<u8>, Node>, bool)
    decreases actions.len(),
{
    if actions.len() == 0 {
        (disk, true)
    } else {
        match perform(store, fresh, disk, actions[0]) {
            Ok(next) => run_actions(store, fresh, next, actions.drop_first()),
            Err(kind) => if restore::tolerates(actions[0], kind) {
                run_actions(store, fresh, disk, actions.drop_first())
            } else {
                (disk, false)
            },
        }
    }
}

/// What a step of a restore does.
pub open spec fn run_op(
    store: Map<Seq<char>, Seq<u8>>,
    fresh: u32,
    disk: Map<Seq<u8>, Node>,
    op: OpView,
) -> (Map<Seq<u8>, Node>, bool) {
    match restore::op_actions(op, look(disk, op.path())) {
        Some(actions) => run_actions(store, fresh, disk, actions),
        None => (disk, false),
    }
}

/// What some steps of a restore do, one after the other, and whether all of
/// them were taken.
pub open spec fn run(
    store: Map<Seq<char>, Seq<u8>>,
    fresh: u32,
    disk: Map<Seq<u8>, Node>,
    ops: Seq<OpView>,
) -> (Map<Seq<u8>, Node>, bool)
    decreases ops.len(),
{
    if ops.len() == 0 {
        (disk, true)
    } else {
        let before = run(store, fresh, disk, ops.drop_last());
        if before.1 {
            run_op(store, fresh, before.0, ops.last())
        } else {
            before
        }
    }
}

/// Steps can be taken in two runs.
proof fn lemma_run_append(
    store: Map<Seq<char>, Seq<u8>>,
    fresh: u32,
    disk: Map<Seq<u8>, Node>,
    a: Seq<OpView>,
    b: Seq<OpView>,
)
    requires
        run(store, fresh, disk, a).1,
    ensures
        run(store, fresh, disk, a + b) == run(store, fresh, run(store, fresh, disk, a).0, b),
    decreases b.len(),
{
    if b.len() == 0 {
        assert(a + b == a);
    } else {
        lemma_run_append(store, fresh, disk, a, b.drop_last());
        assert((a + b).drop_last() == a + b.drop_last());
        assert((a + b).last() == b.last());
    }
}

proof fn lemma_run_actions(
    store: Map<Seq<char>, Seq<u8>>,
    fresh: u32,
    disk: Map<Seq<u8>, Node>,
    actions: Seq<ActionView>,
)
    ensures
        actions.len() > 0 ==> actions == seq![actions[0]] + actions.drop_first(),
        actions.len() == 0 ==> run_actions(store, fresh, disk, actions) == (disk, true),
        actions.len() > 0 && perform(store, fresh, disk, actions[0]) is Ok ==> run_actions(
            store,
            fresh,
            disk,
            actions,
        ) == run_actions(
            store,
            fresh,
            perform(store, fresh, disk, actions[0])->Ok_0,
            actions.drop_first(),
        ),
{
    if actions.len() > 0 {
        assert(actions == seq![actions[0]] + actions.drop_first());
    }
}

/// A path below another has more components.
pub proof fn lemma_deeper(d: Seq<u8>, p: Seq<u8>)
    requires
        is_proper(p),
        is_below(d, p),
    ensures
        restore::depth(d) < restore::depth(p),
        d != p,
        d.len() > 0,
{
    let named = |s: Seq<u8>| s != path::dot();
    let parts = path::segments(p);
    assert forall|i: int| 0 <= i < parts.len() implies path::is_segment(#[trigger] parts[i]) by {
        assert(path::is_name(path::segments(p)[i]));
    }
    path::lemma_segments_joined(parts);
    assert(!path::is_rooted(p));
    let rest = p.skip(d.len() as int + 1);
    let head = d.push(path::SLASH);
    assert(p == head + rest);
    path::lemma_segments_join(head, rest);
    assert(head.drop_last() == d);
    assert(path::segments(head) == path::segments(d));
    assert(parts.len() > 0) by {
        if parts.len() == 0 {
            assert(path::joined(parts).len() == 0);
        }
    }
    assert(p.last() != path::SLASH);
    if d.len() == 0 {
        assert(p[0] == path::SLASH);
    }
    assert(rest.len() > 0 && rest.last() == p.last()) by {
        if rest.len() == 0 {
            assert(p.last() == p[d.len() as int]);
        }
    }
    assert(path::segments(rest).len() > 0);
    sequence::lemma_filter_all(parts, named);
    let above = path::segments(d);
    assert(parts == above + path::segments(rest));
    assert forall|i: int| 0 <= i < above.len() implies named(#[trigger] above[i]) by {
        assert(above[i] == path::segments(p)[i]);
    }
    sequence::lemma_filter_all(above, named);
    assert(!path::is_rooted(d)) by {
        assert(d[0] == p[0]);
    }
    assert(path::named_segments(p) == parts);
    assert(path::named_segments(d) == above);
    if above.len() > 0 {
        assert(above[0] == path::segments(p)[0]);
    }
    assert(path::segments(p)[0] != path::dot()) by {
        assert(path::is_name(path::segments(p)[0]));
    }
}

/// Whether one of some steps is about a path.
spec fn names(ops: Seq<OpView>, path: Seq<u8>) -> bool {
    exists|i: int| 0 <= i < ops.len() && (#[trigger] ops[i]).path() == path
}

/// A directory in which the paths that steps are about have new nodes.
spec fn overlay(
    disk: Map<Seq<u8>, Node>,
    ops: Seq<OpView>,
    node: spec_fn(Seq<u8>) -> Node,
) -> Map<Seq<u8>, Node> {
    Map::new(
        |p: Seq<u8>| disk.contains_key(p) || names(ops, p),
        |p: Seq<u8>| if names(ops, p) { node(p) } else { disk[p] },
    )
}

/// A directory without the paths that steps are about.
spec fn without(disk: Map<Seq<u8>, Node>, ops: Seq<OpView>) -> Map<Seq<u8>, Node> {
    Map::new(|p: Seq<u8>| disk.contains_key(p) && !names(ops, p), |p: Seq<u8>| disk[p])
}

proof fn lemma_names_push(ops: Seq<OpView>, k: int)
    requires
        0 <= k < ops.len(),
    ensures
        forall|p: Seq<u8>| #[trigger]
            names(ops.take(k + 1), p) <==> names(ops.take(k), p) || p == ops[k].path(),
{
    let a = ops.take(k);
    let b = ops.take(k + 1);
    assert forall|p: Seq<u8>| #[trigger] names(b, p) <==> names(a, p) || p == ops[k].path() by {
        if names(b, p) {
            let i = choose|i: int| 0 <= i < b.len() && (#[trigger] b[i]).path() == p;
            if i < k {
                assert(a[i].path() == p);
            }
        }
        if names(a, p) {
            let i = choose|i: int| 0 <= i < a.len() && (#[trigger] a[i]).path() == p;
            assert(b[i].path() == p);
        }
        assert(b[k] == ops[k]);
    }
}

/// No path comes before itself in a part of a restore.
proof fn lemma_phase_distinct(
    phase: Phase,
    current: Map<Seq<u8>, EntryView>,
    target: Map<Seq<u8>, EntryView>,
    ops: Seq<OpView>,
    k: int,
)
    requires
        restore::is_phase(phase, current, target, ops),
        0 <= k < ops.len(),
    ensures
        !names(ops.take(k), ops[k].path()),
{
    let p = ops[k].path();
    if names(ops.take(k), p) {
        let i = choose|i: int| 0 <= i < k && (#[trigger] ops.take(k)[i]).path() == p;
        assert(ops.take(k)[i] == ops[i]);
        assert(restore::phase_before(phase, ops[i].path(), ops[k].path()));
        order::lemma_before_irreflexive(p);
    }
}

/// A part of a restore has steps for just the paths it is meant for.
proof fn lemma_phase_names(
    phase: Phase,
    current: Map<Seq<u8>, EntryView>,
    target: Map<Seq<u8>, EntryView>,
    ops: Seq<OpView>,
)
    requires
        restore::is_phase(phase, current, target, ops),
    ensures
        forall|p: Seq<u8>| #[trigger]
            names(ops, p) <==> restore::phase_has(phase, current, target, p),
        forall|k: int, p: Seq<u8>| #[trigger]
            names(ops.take(k), p) && 0 <= k <= ops.len() ==> restore::phase_has(
                phase,
                current,
                target,
                p,
            ),
        ops.take(ops.len() as int) == ops,
{
    assert forall|p: Seq<u8>| #[trigger]
        names(ops, p) <==> restore::phase_has(phase, current, target, p) by {}
    assert forall|k: int, p: Seq<u8>| #[trigger]
        names(ops.take(k), p) && 0 <= k <= ops.len() implies restore::phase_has(
        phase,
        current,
        target,
        p,
    ) by {
        let t = ops.take(k);
        let i = choose|i: int| 0 <= i < t.len() && (#[trigger] t[i]).path() == p;
        assert(t[i] == ops[i]);
    }
    assert(ops.take(ops.len() as int) == ops);
}

/// What lies below a path that has to go has to go too.
proof fn lemma_stale_below(
    store: Map<Seq<char>, Seq<u8>>,
    disk: Map<Seq<u8>, Node>,
    ignored: spec_fn(Seq<u8>) -> bool,
    target: Map<Seq<u8>, EntryView>,
    d: Seq<u8>,
    p: Seq<u8>,
)
    requires
        is_disk(disk),
        is_restorable(store, target),
        is_unobstructed(disk, ignored, target),
        is_unblocked(disk, ignored, target),
        restore::is_stale(snapshot_of(disk, ignored), target, d),
        disk.contains_key(p),
        is_below(d, p),
    ensures
        restore::is_stale(snapshot_of(disk, ignored), target, p),
        disk[d] is Directory,
{
    assert(is_reachable(disk, p));
    assert(is_recorded(disk, ignored, p));
    if target.contains_key(p) {
        assert(above_are_directories(target, p));
        assert(tree::alike(snapshot_of(disk, ignored)[d], target[d]));
    }
}

/// The removals of a restore take away just what has to go.
proof fn lemma_removals(
    store: Map<Seq<char>, Seq<u8>>,
    fresh: u32,
    disk: Map<Seq<u8>, Node>,
    ignored: spec_fn(Seq<u8>) -> bool,
    target: Map<Seq<u8>, EntryView>,
    ops: Seq<OpView>,
    k: int,
)
    requires
        is_disk(disk),
        is_restorable(store, target),
        is_unobstructed(disk, ignored, target),
        is_unblocked(disk, ignored, target),
        restore::is_phase(Phase::Remove, snapshot_of(disk, ignored), target, ops),
        0 <= k <= ops.len(),
    ensures
        run(store, fresh, disk, ops.take(k)) == (without(disk, ops.take(k)), true),
    decreases k,
{
    let current = snapshot_of(disk, ignored);
    if k == 0 {
        assert(without(disk, ops.take(0)) =~= disk);
    } else {
        lemma_removals(store, fresh, disk, ignored, target, ops, k - 1);
        let op = ops[k - 1];
        let p = op.path();
        let now = without(disk, ops.take(k - 1));
        assert(ops.take(k).drop_last() == ops.take(k - 1));
        assert(ops.take(k).last() == op);
        lemma_names_push(ops, k - 1);
        lemma_phase_distinct(Phase::Remove, current, target, ops, k - 1);
        assert(restore::phase_has(Phase::Remove, current, target, p));
        assert(now.contains_key(p) && now[p] == disk[p]);
        assert(without(disk, ops.take(k)) =~= now.remove(p));
        if disk[p] is Directory {
            assert(!is_occupied(now, p)) by {
                if is_occupied(now, p) {
                    let q = choose|q: Seq<u8>| now.contains_key(q) && #[trigger] is_below(p, q);
                    lemma_stale_below(store, disk, ignored, target, p, q);
                    assert(is_proper(q));
                    lemma_deeper(p, q);
                    assert(restore::phase_has(Phase::Remove, current, target, q));
                    let i = choose|i: int| 0 <= i < ops.len() && (#[trigger] ops[i]).path() == q;
                    if i < k - 1 {
                        assert(ops.take(k - 1)[i] == ops[i]);
                        assert(names(ops.take(k - 1), q));
                    } else if i > k - 1 {
                        assert(restore::phase_before(
                            Phase::Remove,
                            ops[k - 1].path(),
                            ops[i].path(),
                        ));
                    }
                }
            }
        }
        let actions = restore::op_actions(op, look(now, p))->0;
        lemma_run_actions(store, fresh, now, actions);
        lemma_run_actions(store, fresh, now.remove(p), actions.drop_first());
    }
}

/// The node that an entry stands for.
pub open spec fn node_of(store: Map<Seq<char>, Seq<u8>>, entry: EntryView) -> Node {
    match entry {
        EntryView::File { object, mode, .. } => Node::File {
            content: store[object],
            mode: file_mode(mode),
        },
        EntryView::Directory { mode } => Node::Directory { mode: directory_mode(mode) },
        EntryView::Symlink { target } => Node::Symlink { target: utf8::encode_utf8(target) },
    }
}

/// The node that a step puts in its place.
spec fn result_of(
    phase: Phase,
    store: Map<Seq<char>, Seq<u8>>,
    target: Map<Seq<u8>, EntryView>,
) -> spec_fn(Seq<u8>) -> Node {
    |p: Seq<u8>|
        match target[p] {
            EntryView::Directory { mode } => if phase == Phase::Prepare {
                Node::Directory { mode: directory_mode(mode | restore::OWNER_ACCESS) }
            } else {
                node_of(store, target[p])
            },
            _ => node_of(store, target[p]),
        }
}

/// What holds once the removals are done: nothing lies below a path where a
/// file or a link is recorded.
spec fn is_cleared(disk: Map<Seq<u8>, Node>, target: Map<Seq<u8>, EntryView>) -> bool {
    forall|p: Seq<u8>| #[trigger]
        target.contains_key(p) && target[p] !is Directory ==> !is_occupied(disk, p)
}

proof fn lemma_overlay_step(
    disk: Map<Seq<u8>, Node>,
    ops: Seq<OpView>,
    node: spec_fn(Seq<u8>) -> Node,
    k: int,
)
    requires
        0 <= k < ops.len(),
    ensures
        overlay(disk, ops.take(k + 1), node) == overlay(disk, ops.take(k), node).insert(
            ops[k].path(),
            node(ops[k].path()),
        ),
        overlay(disk, ops.take(0), node) == disk,
{
    lemma_names_push(ops, k);
    assert(overlay(disk, ops.take(k + 1), node) =~= overlay(disk, ops.take(k), node).insert(
        ops[k].path(),
        node(ops[k].path()),
    ));
    assert(overlay(disk, ops.take(0), node) =~= disk);
}

/// Without a node, a path is as reachable as with it.
proof fn lemma_reachable_without(disk: Map<Seq<u8>, Node>, p: Seq<u8>)
    requires
        is_reachable(disk, p),
    ensures
        is_reachable(disk.remove(p), p),
{
    let gone = disk.remove(p);
    assert forall|d: Seq<u8>| #[trigger] is_below(d, p) implies gone.contains_key(d)
        && gone[d] is Directory by {
        assert(d.len() < p.len());
    }
}

/// A preparation makes a directory of whatever there is.
proof fn lemma_prepare(
    store: Map<Seq<char>, Seq<u8>>,
    fresh: u32,
    now: Map<Seq<u8>, Node>,
    p: Seq<u8>,
    mode: u32,
)
    requires
        is_reachable(now, p),
    ensures
        run_op(store, fresh, now, OpView::PrepareDirectory { path: p, mode }) == (
            now.insert(
                p,
                Node::Directory { mode: directory_mode(mode | restore::OWNER_ACCESS) },
            ),
            true,
        ),
{
    let op = OpView::PrepareDirectory { path: p, mode };
    let node = Node::Directory { mode: directory_mode(mode | restore::OWNER_ACCESS) };
    let made = now.insert(p, Node::Directory { mode: directory_mode(fresh) });
    let done = now.insert(p, node);
    let actions = restore::op_actions(op, look(now, p))->0;
    match look(now, p) {
        Seen::Directory => {
            lemma_run_actions(store, fresh, now, actions);
            lemma_run_actions(store, fresh, done, actions.drop_first());
        },
        Seen::Missing => {
            lemma_run_actions(store, fresh, now, actions);
            lemma_run_actions(store, fresh, made, actions.drop_first());
            assert(made.insert(p, node) =~= done);
            lemma_run_actions(store, fresh, done, actions.drop_first().drop_first());
        },
        _ => {
            let gone = now.remove(p);
            assert(gone.insert(p, Node::Directory { mode: directory_mode(fresh) }) =~= made);
            lemma_reachable_without(now, p);
            lemma_run_actions(store, fresh, now, actions);
            lemma_run_actions(store, fresh, gone, actions.drop_first());
            lemma_run_actions(store, fresh, made, actions.drop_first().drop_first());
            assert(made.insert(p, node) =~= done);
            lemma_run_actions(store, fresh, done, actions.drop_first().drop_first().drop_first());
        },
    }
}

/// A placement puts a stored file, or a link, where nothing lies below.
proof fn lemma_place(
    store: Map<Seq<char>, Seq<u8>>,
    fresh: u32,
    now: Map<Seq<u8>, Node>,
    p: Seq<u8>,
    entry: EntryView,
)
    requires
        is_reachable(now, p),
        !is_occupied(now, p),
        entry !is Directory,
        is_stored(store, entry),
    ensures
        run_op(store, fresh, now, restore::entry_op(Phase::Place, p, entry)) == (
            now.insert(p, node_of(store, entry)),
            true,
        ),
    decreases (if look(now, p) is Directory { 1int } else { 0int }),
{
    let op = restore::entry_op(Phase::Place, p, entry);
    let node = node_of(store, entry);
    let done = now.insert(p, node);
    let actions = restore::op_actions(op, look(now, p))->0;
    if look(now, p) is Directory {
        let gone = now.remove(p);
        lemma_run_actions(store, fresh, now, actions);
        assert(!gone.contains_key(p));
        lemma_reachable_without(now, p);
        assert(!is_occupied(gone, p)) by {
            if is_occupied(gone, p) {
                let q = choose|q: Seq<u8>| gone.contains_key(q) && #[trigger] is_below(p, q);
                assert(now.contains_key(q) && is_below(p, q));
            }
        }
        assert(actions.drop_first() == restore::op_actions(op, look(gone, p))->0);
        lemma_place(store, fresh, gone, p, entry);
        assert(gone.insert(p, node) =~= done);
    } else {
        match entry {
            EntryView::File { object, mode, .. } => {
                let written = now.insert(
                    p,
                    Node::File { content: store[object], mode: file_mode(0o600) },
                );
                lemma_run_actions(store, fresh, now, actions);
                lemma_run_actions(store, fresh, now, actions.drop_first());
                lemma_run_actions(store, fresh, written, actions.drop_first().drop_first());
                assert(written.insert(p, node) =~= done);
                lemma_run_actions(store, fresh, done, actions.drop_first().drop_first().drop_first());
            },
            EntryView::Symlink { .. } => {
                lemma_run_actions(store, fresh, now, actions);
                if look(now, p) is Missing {
                    lemma_run_actions(store, fresh, done, actions.drop_first());
                } else {
                    let gone = now.remove(p);
                    lemma_reachable_without(now, p);
                    assert(gone.insert(p, node) =~= done);
                    lemma_run_actions(store, fresh, gone, actions.drop_first());
                    lemma_run_actions(store, fresh, done, actions.drop_first().drop_first());
                }
            },
            _ => {},
        }
    }
}

/// The preparations of a restore make the recorded directories.
proof fn lemma_preparations(
    store: Map<Seq<char>, Seq<u8>>,
    fresh: u32,
    disk: Map<Seq<u8>, Node>,
    current: Map<Seq<u8>, EntryView>,
    target: Map<Seq<u8>, EntryView>,
    ops: Seq<OpView>,
    k: int,
)
    requires
        is_restorable(store, target),
        restore::is_phase(Phase::Prepare, current, target, ops),
        0 <= k <= ops.len(),
    ensures
        run(store, fresh, disk, ops.take(k)) == (
            overlay(disk, ops.take(k), result_of(Phase::Prepare, store, target)),
            true,
        ),
    decreases k,
{
    let node = result_of(Phase::Prepare, store, target);
    if k == 0 {
        assert(overlay(disk, ops.take(0), node) =~= disk);
    } else {
        lemma_preparations(store, fresh, disk, current, target, ops, k - 1);
        let op = ops[k - 1];
        let p = op.path();
        let now = overlay(disk, ops.take(k - 1), node);
        assert(ops.take(k).drop_last() == ops.take(k - 1));
        assert(ops.take(k).last() == op);
        lemma_overlay_step(disk, ops, node, k - 1);
        lemma_phase_distinct(Phase::Prepare, current, target, ops, k - 1);
        assert(restore::phase_has(Phase::Prepare, current, target, p));
        assert(is_proper(p));
        assert(is_reachable(now, p)) by {
            assert forall|d: Seq<u8>| #[trigger] is_below(d, p) implies now.contains_key(d)
                && now[d] is Directory by {
                lemma_deeper(d, p);
                assert(above_are_directories(target, p));
                assert(restore::phase_has(Phase::Prepare, current, target, d));
                let i = choose|i: int| 0 <= i < ops.len() && (#[trigger] ops[i]).path() == d;
                if i > k - 1 {
                    assert(restore::phase_before(Phase::Prepare, ops[k - 1].path(), ops[i].path()));
                }
                assert(ops.take(k - 1)[i] == ops[i]);
                assert(names(ops.take(k - 1), d));
            }
        }
        assert(now.contains_key(p) ==> now[p] == disk[p]);
        let mode = target[p]->Directory_mode;
        assert(op == OpView::PrepareDirectory { path: p, mode });
        lemma_prepare(store, fresh, now, p, mode);
    }
}

/// The placements of a restore put the recorded files and links in their
/// places.
proof fn lemma_placements(
    store: Map<Seq<char>, Seq<u8>>,
    fresh: u32,
    disk: Map<Seq<u8>, Node>,
    current: Map<Seq<u8>, EntryView>,
    target: Map<Seq<u8>, EntryView>,
    ops: Seq<OpView>,
    k: int,
)
    requires
        is_cleared(disk, target),
        is_restorable(store, target),
        forall|p: Seq<u8>| #[trigger]
            target.contains_key(p) && target[p] is Directory ==> disk.contains_key(p)
                && disk[p] is Directory,
        restore::is_phase(Phase::Place, current, target, ops),
        0 <= k <= ops.len(),
    ensures
        run(store, fresh, disk, ops.take(k)) == (
            overlay(disk, ops.take(k), result_of(Phase::Place, store, target)),
            true,
        ),
    decreases k,
{
    let node = result_of(Phase::Place, store, target);
    if k == 0 {
        assert(overlay(disk, ops.take(0), node) =~= disk);
    } else {
        lemma_placements(store, fresh, disk, current, target, ops, k - 1);
        let op = ops[k - 1];
        let p = op.path();
        let now = overlay(disk, ops.take(k - 1), node);
        assert(ops.take(k).drop_last() == ops.take(k - 1));
        assert(ops.take(k).last() == op);
        lemma_overlay_step(disk, ops, node, k - 1);
        lemma_phase_distinct(Phase::Place, current, target, ops, k - 1);
        lemma_phase_names(Phase::Place, current, target, ops);
        assert(restore::phase_has(Phase::Place, current, target, p));
        assert(is_proper(p) && is_stored(store, target[p]));
        assert(is_reachable(now, p)) by {
            assert forall|d: Seq<u8>| #[trigger] is_below(d, p) implies now.contains_key(d)
                && now[d] is Directory by {
                assert(above_are_directories(target, p));
                assert(target.contains_key(d) && target[d] is Directory);
                assert(!names(ops.take(k - 1), d));
            }
        }
        assert(!is_occupied(now, p)) by {
            if is_occupied(now, p) {
                let q = choose|q: Seq<u8>| now.contains_key(q) && #[trigger] is_below(p, q);
                if disk.contains_key(q) {
                    assert(is_occupied(disk, p));
                } else {
                    assert(names(ops.take(k - 1), q));
                    assert(target.contains_key(q));
                    assert(above_are_directories(target, q));
                }
            }
        }
        assert(op == restore::entry_op(Phase::Place, p, target[p]));
        lemma_place(store, fresh, now, p, target[p]);
    }
}

/// The seals of a restore give the recorded directories their permissions.
proof fn lemma_seals(
    store: Map<Seq<char>, Seq<u8>>,
    fresh: u32,
    disk: Map<Seq<u8>, Node>,
    current: Map<Seq<u8>, EntryView>,
    target: Map<Seq<u8>, EntryView>,
    ops: Seq<OpView>,
    k: int,
)
    requires
        forall|p: Seq<u8>| #[trigger]
            target.contains_key(p) && target[p] is Directory ==> disk.contains_key(p)
                && disk[p] is Directory,
        restore::is_phase(Phase::Seal, current, target, ops),
        0 <= k <= ops.len(),
    ensures
        run(store, fresh, disk, ops.take(k)) == (
            overlay(disk, ops.take(k), result_of(Phase::Seal, store, target)),
            true,
        ),
    decreases k,
{
    let node = result_of(Phase::Seal, store, target);
    if k == 0 {
        assert(overlay(disk, ops.take(0), node) =~= disk);
    } else {
        lemma_seals(store, fresh, disk, current, target, ops, k - 1);
        let op = ops[k - 1];
        let p = op.path();
        let now = overlay(disk, ops.take(k - 1), node);
        assert(ops.take(k).drop_last() == ops.take(k - 1));
        assert(ops.take(k).last() == op);
        lemma_overlay_step(disk, ops, node, k - 1);
        lemma_phase_distinct(Phase::Seal, current, target, ops, k - 1);
        assert(restore::phase_has(Phase::Seal, current, target, p));
        assert(now.contains_key(p) && now[p] == disk[p]);
        let actions = restore::op_actions(op, look(now, p))->0;
        lemma_run_actions(store, fresh, now, actions);
        lemma_run_actions(store, fresh, now.insert(p, node(p)), actions.drop_first());
    }
}

/// Whether a path has the same in both directories.
pub open spec fn is_same_at(
    a: Map<Seq<u8>, Node>,
    b: Map<Seq<u8>, Node>,
    path: Seq<u8>,
) -> bool {
    &&& a.contains_key(path) <==> b.contains_key(path)
    &&& a.contains_key(path) ==> a[path] == b[path]
}

/// What a directory is after a restore: each recorded path leads to what was
/// recorded, and every other path that need not go to what it led to.
spec fn is_outcome(
    store: Map<Seq<char>, Seq<u8>>,
    disk: Map<Seq<u8>, Node>,
    ignored: spec_fn(Seq<u8>) -> bool,
    target: Map<Seq<u8>, EntryView>,
    after: Map<Seq<u8>, Node>,
) -> bool {
    let current = snapshot_of(disk, ignored);
    &&& forall|p: Seq<u8>| #[trigger]
        target.contains_key(p) ==> after.contains_key(p) && after[p] == node_of(store, target[p])
    &&& forall|p: Seq<u8>|
        !target.contains_key(p) ==> (#[trigger] after.contains_key(p) <==> disk.contains_key(p)
            && !restore::is_stale(current, target, p))
    &&& forall|p: Seq<u8>|
        !target.contains_key(p) && #[trigger] after.contains_key(p) ==> after[p] == disk[p]
}

/// The steps of a restore can be taken, and have its outcome.
proof fn lemma_outcome(
    store: Map<Seq<char>, Seq<u8>>,
    fresh: u32,
    disk: Map<Seq<u8>, Node>,
    ignored: spec_fn(Seq<u8>) -> bool,
    target: Map<Seq<u8>, EntryView>,
    removals: Seq<OpView>,
    preparations: Seq<OpView>,
    placements: Seq<OpView>,
    seals: Seq<OpView>,
) -> (after: Map<Seq<u8>, Node>)
    requires
        is_disk(disk),
        is_restorable(store, target),
        is_unobstructed(disk, ignored, target),
        is_unblocked(disk, ignored, target),
        restore::is_plan(
            snapshot_of(disk, ignored),
            target,
            removals,
            preparations,
            placements,
            seals,
        ),
    ensures
        run(store, fresh, disk, removals + preparations + placements + seals) == (after, true),
        is_outcome(store, disk, ignored, target, after),
{
    let current = snapshot_of(disk, ignored);
    lemma_removals(store, fresh, disk, ignored, target, removals, removals.len() as int);
    lemma_phase_names(Phase::Remove, current, target, removals);
    let cleared = without(disk, removals);
    assert(is_cleared(cleared, target)) by {
        assert forall|p: Seq<u8>| #[trigger]
            target.contains_key(p) && target[p] !is Directory implies !is_occupied(cleared, p) by {
            if is_occupied(cleared, p) {
                let q = choose|q: Seq<u8>| cleared.contains_key(q) && #[trigger] is_below(p, q);
                assert(disk.contains_key(q));
                assert(is_recorded(disk, ignored, q));
                if target.contains_key(q) {
                    assert(above_are_directories(target, q));
                }
                assert(restore::phase_has(Phase::Remove, current, target, q));
                assert(names(removals, q));
            }
        }
    }
    lemma_preparations(
        store,
        fresh,
        cleared,
        current,
        target,
        preparations,
        preparations.len() as int,
    );
    lemma_phase_names(Phase::Prepare, current, target, preparations);
    let prepared = overlay(cleared, preparations, result_of(Phase::Prepare, store, target));
    assert(is_cleared(prepared, target)) by {
        assert forall|p: Seq<u8>| #[trigger]
            target.contains_key(p) && target[p] !is Directory implies !is_occupied(prepared, p) by {
            if is_occupied(prepared, p) {
                let q = choose|q: Seq<u8>| prepared.contains_key(q) && #[trigger] is_below(p, q);
                if names(preparations, q) {
                    assert(restore::phase_has(Phase::Prepare, current, target, q));
                    assert(above_are_directories(target, q));
                } else {
                    assert(cleared.contains_key(q));
                    assert(is_occupied(cleared, p));
                }
            }
        }
    }
    assert forall|p: Seq<u8>| #[trigger]
        target.contains_key(p) && target[p] is Directory implies prepared.contains_key(p)
        && prepared[p] is Directory by {
        assert(restore::phase_has(Phase::Prepare, current, target, p));
        assert(names(preparations, p));
    }
    lemma_placements(
        store,
        fresh,
        prepared,
        current,
        target,
        placements,
        placements.len() as int,
    );
    lemma_phase_names(Phase::Place, current, target, placements);
    let placed = overlay(prepared, placements, result_of(Phase::Place, store, target));
    assert forall|p: Seq<u8>| #[trigger]
        target.contains_key(p) && target[p] is Directory implies placed.contains_key(p)
        && placed[p] is Directory by {
        assert(prepared.contains_key(p));
        assert(!restore::phase_has(Phase::Place, current, target, p));
        assert(!names(placements, p));
    }
    lemma_seals(store, fresh, placed, current, target, seals, seals.len() as int);
    lemma_phase_names(Phase::Seal, current, target, seals);
    let after = overlay(placed, seals, result_of(Phase::Seal, store, target));

    lemma_run_append(store, fresh, disk, removals, preparations);
    lemma_run_append(store, fresh, disk, removals + preparations, placements);
    lemma_run_append(store, fresh, disk, removals + preparations + placements, seals);

    assert forall|p: Seq<u8>| #[trigger] target.contains_key(p) implies after.contains_key(p)
        && after[p] == node_of(store, target[p]) by {
        assert(names(seals, p) <==> restore::phase_has(Phase::Seal, current, target, p));
        assert(names(placements, p) <==> restore::phase_has(Phase::Place, current, target, p));
    }
    assert forall|p: Seq<u8>| !target.contains_key(p) implies (#[trigger] after.contains_key(p)
        <==> disk.contains_key(p) && !restore::is_stale(current, target, p)) && (
    after.contains_key(p) ==> after[p] == disk[p]) by {
        assert(!restore::phase_has(Phase::Seal, current, target, p));
        assert(!restore::phase_has(Phase::Place, current, target, p));
        assert(!restore::phase_has(Phase::Prepare, current, target, p));
        assert(!names(seals, p) && !names(placements, p) && !names(preparations, p));
        assert(names(removals, p) <==> restore::phase_has(Phase::Remove, current, target, p));
    }
    after
}

/// The outcome of a restore is the contents of a directory.
proof fn lemma_outcome_is_disk(
    store: Map<Seq<char>, Seq<u8>>,
    disk: Map<Seq<u8>, Node>,
    ignored: spec_fn(Seq<u8>) -> bool,
    target: Map<Seq<u8>, EntryView>,
    after: Map<Seq<u8>, Node>,
)
    requires
        is_disk(disk),
        is_restorable(store, target),
        is_unobstructed(disk, ignored, target),
        is_unblocked(disk, ignored, target),
        is_outcome(store, disk, ignored, target, after),
    ensures
        is_disk(after),
{
    let current = snapshot_of(disk, ignored);
    assert forall|p: Seq<u8>| #[trigger] after.contains_key(p) implies is_proper(p)
        && is_reachable(after, p) by {
        if target.contains_key(p) {
            assert(is_proper(p));
            assert(above_are_directories(target, p));
            assert forall|d: Seq<u8>| #[trigger] is_below(d, p) implies after.contains_key(d)
                && after[d] is Directory by {
                assert(target.contains_key(d));
            }
        } else {
            assert(disk.contains_key(p) && !restore::is_stale(current, target, p));
            assert(is_reachable(disk, p));
            assert forall|d: Seq<u8>| #[trigger] is_below(d, p) implies after.contains_key(d)
                && after[d] is Directory by {
                if restore::is_stale(current, target, d) {
                    lemma_stale_below(store, disk, ignored, target, d, p);
                }
                assert(disk.contains_key(d) && disk[d] is Directory);
                if target.contains_key(d) && target[d] !is Directory {
                    assert(is_recorded(disk, ignored, p));
                    assert(restore::is_stale(current, target, p));
                }
            }
        }
    }
}

/// The ignored paths that do not belong to a state.
pub open spec fn ignored_outside(
    ignored: spec_fn(Seq<u8>) -> bool,
    target: Map<Seq<u8>, EntryView>,
) -> spec_fn(Seq<u8>) -> bool {
    |p: Seq<u8>| ignored(p) && !target.contains_key(p)
}

/// A restore brings back what was recorded: after its steps, each path of the
/// recorded state leads to what was recorded, every other path that was
/// recorded before is gone, and all else has what it had. So a snapshot that
/// ignores the same paths, but none of the recorded state, is that state. This
/// holds where the directories that the state does not have hold nothing but
/// recorded entries, as one that holds something else is left in place; and
/// where nothing else lies below a path at which the state has a file or a
/// link, as the restore is refused otherwise.
pub proof fn law_restore_brings_back(
    store: Map<Seq<char>, Seq<u8>>,
    fresh: u32,
    disk: Map<Seq<u8>, Node>,
    ignored: spec_fn(Seq<u8>) -> bool,
    target: Map<Seq<u8>, EntryView>,
    removals: Seq<OpView>,
    preparations: Seq<OpView>,
    placements: Seq<OpView>,
    seals: Seq<OpView>,
) -> (after: Map<Seq<u8>, Node>)
    requires
        is_disk(disk),
        is_restorable(store, target),
        is_unobstructed(disk, ignored, target),
        is_unblocked(disk, ignored, target),
        restore::is_plan(
            snapshot_of(disk, ignored),
            target,
            removals,
            preparations,
            placements,
            seals,
        ),
    ensures
        run(store, fresh, disk, removals + preparations + placements + seals) == (after, true),
        is_disk(after),
        snapshot_of(after, ignored_outside(ignored, target)) == target,
        forall|p: Seq<u8>| #[trigger]
            target.contains_key(p) ==> after.contains_key(p) && after[p] == node_of(
                store,
                target[p],
            ) && entry_of(after[p]) == target[p] && after[p] !is Other,
        forall|p: Seq<u8>|
            !target.contains_key(p) && is_recorded(disk, ignored, p)
                ==> !#[trigger] after.contains_key(p),
        forall|p: Seq<u8>|
            !target.contains_key(p) && !is_recorded(disk, ignored, p) ==> #[trigger] is_same_at(
                disk,
                after,
                p,
            ),
{
    broadcast use utf8::encode_utf8_decode_utf8;

    let after = lemma_outcome(
        store,
        fresh,
        disk,
        ignored,
        target,
        removals,
        preparations,
        placements,
        seals,
    );
    lemma_outcome_is_disk(store, disk, ignored, target, after);
    assert forall|p: Seq<u8>|
        !target.contains_key(p) && is_recorded(disk, ignored, p) implies !#[trigger] after.contains_key(
        p,
    ) by {
        assert(restore::is_stale(snapshot_of(disk, ignored), target, p));
    }
    assert forall|p: Seq<u8>|
        !target.contains_key(p) && !is_recorded(disk, ignored, p) implies #[trigger] is_same_at(
        disk,
        after,
        p,
    ) by {
        assert(after.contains_key(p) <==> disk.contains_key(p) && !restore::is_stale(
            snapshot_of(disk, ignored),
            target,
            p,
        ));
    }
    let later = ignored_outside(ignored, target);
    let taken = snapshot_of(after, later);
    assert forall|p: Seq<u8>| #[trigger] target.contains_key(p) implies after[p] !is Other
        && entry_of(after[p]) == target[p] by {
        assert(is_stored(store, target[p]));
    }
    assert forall|p: Seq<u8>| #[trigger] taken.contains_key(p) <==> target.contains_key(p) by {
        if !target.contains_key(p) && is_recorded(after, later, p) {
            if !is_recorded(disk, ignored, p) {
                assert(is_same_at(disk, after, p));
            }
        }
    }
    assert(taken =~= target);
    after
}

/// The path that an operation works on, if there is one.
pub open spec fn place(action: ActionView) -> Option<Seq<u8>> {
    match action {
        ActionView::RemoveStaleDirectory { path } => Some(path),
        ActionView::RemoveStaleFile { path } => Some(path),
        ActionView::RemoveNonDirectory { path } => Some(path),
        ActionView::CreateDirectory { path } => Some(path),
        ActionView::PrepareMode { path, .. } => Some(path),
        ActionView::ReplaceDirectory { path } => Some(path),
        ActionView::ReplaceFile { path } => Some(path),
        ActionView::ReadObject { .. } => None,
        ActionView::WriteFile { path, .. } => Some(path),
        ActionView::SetFileMode { path, .. } => Some(path),
        ActionView::MakeSymlink { path, .. } => Some(path),
        ActionView::SetDirectoryMode { path, .. } => Some(path),
    }
}

proof fn lemma_actions_keep(
    store: Map<Seq<char>, Seq<u8>>,
    fresh: u32,
    disk: Map<Seq<u8>, Node>,
    actions: Seq<ActionView>,
    p: Seq<u8>,
)
    requires
        forall|i: int| 0 <= i < actions.len() ==> place(#[trigger] actions[i]) != Some(p),
    ensures
        is_same_at(disk, run_actions(store, fresh, disk, actions).0, p),
    decreases actions.len(),
{
    if actions.len() > 0 {
        assert(place(actions[0]) != Some(p));
        let rest = actions.drop_first();
        assert forall|i: int| 0 <= i < rest.len() implies place(#[trigger] rest[i]) != Some(p) by {
            assert(rest[i] == actions[i + 1]);
        }
        match perform(store, fresh, disk, actions[0]) {
            Ok(next) => {
                lemma_actions_keep(store, fresh, next, rest, p);
            },
            Err(_) => {
                lemma_actions_keep(store, fresh, disk, rest, p);
            },
        }
    }
}

/// Steps of a restore, whether or not all of them can be taken, change nothing
/// but the paths that they are about.
pub proof fn law_steps_change_only_their_paths(
    store: Map<Seq<char>, Seq<u8>>,
    fresh: u32,
    disk: Map<Seq<u8>, Node>,
    ops: Seq<OpView>,
    p: Seq<u8>,
)
    requires
        forall|i: int| 0 <= i < ops.len() ==> (#[trigger] ops[i]).path() != p,
    ensures
        is_same_at(disk, run(store, fresh, disk, ops).0, p),
    decreases ops.len(),
{
    if ops.len() > 0 {
        let front = ops.drop_last();
        assert forall|i: int| 0 <= i < front.len() implies (#[trigger] front[i]).path() != p by {
            assert(front[i] == ops[i]);
        }
        law_steps_change_only_their_paths(store, fresh, disk, front, p);
        let before = run(store, fresh, disk, front);
        if before.1 {
            let op = ops.last();
            assert(op.path() != p);
            if let Some(actions) = restore::op_actions(op, look(before.0, op.path())) {
                lemma_actions_keep(store, fresh, before.0, actions, p);
            }
        }
    }
}

/// A restore, whether or not it succeeds, leaves ignored paths as they are,
/// unless they belong to the state that is restored.
pub proof fn law_restore_keeps_ignored(
    store: Map<Seq<char>, Seq<u8>>,
    fresh: u32,
    disk: Map<Seq<u8>, Node>,
    ignored: spec_fn(Seq<u8>) -> bool,
    target: Map<Seq<u8>, EntryView>,
    removals: Seq<OpView>,
    preparations: Seq<OpView>,
    placements: Seq<OpView>,
    seals: Seq<OpView>,
    p: Seq<u8>,
)
    requires
        restore::is_plan(
            snapshot_of(disk, ignored),
            target,
            removals,
            preparations,
            placements,
            seals,
        ),
        ignored(p),
        !target.contains_key(p),
    ensures
        is_same_at(
            disk,
            run(store, fresh, disk, removals + preparations + placements + seals).0,
            p,
        ),
{
    let current = snapshot_of(disk, ignored);
    let all = removals + preparations + placements + seals;
    assert forall|i: int| 0 <= i < all.len() implies (#[trigger] all[i]).path() != p by {
        let a = removals.len() as int;
        let b = a + preparations.len();
        let c = b + placements.len();
        if i < a {
            assert(all[i] == removals[i]);
            assert(restore::phase_has(Phase::Remove, current, target, removals[i].path()));
        } else if i < b {
            assert(all[i] == preparations[i - a]);
            assert(restore::phase_has(Phase::Prepare, current, target, preparations[i - a].path()));
        } else if i < c {
            assert(all[i] == placements[i - b]);
            assert(restore::phase_has(Phase::Place, current, target, placements[i - b].path()));
        } else {
            assert(all[i] == seals[i - c]);
            assert(restore::phase_has(Phase::Seal, current, target, seals[i - c].path()));
        }
    }
    law_steps_change_only_their_paths(store, fresh, disk, all, p);
}

/// Whether a snapshot keeps all there is to know of a node: its permissions
/// are those of its kind, the content of a file is stored under its digest and
/// can be counted, and the target of a link is text.
pub open spec fn is_kept(store: Map<Seq<char>, Seq<u8>>, node: Node) -> bool {
    match node {
        Node::File { content, mode } => {
            &&& store.contains_key(digest::digest(content))
            &&& store[digest::digest(content)] == content
            &&& file_mode(mode) == mode
        },
        Node::Directory { mode } => directory_mode(mode) == mode,
        Node::Symlink { target } => utf8::valid_utf8(target),
        Node::Other => true,
    }
}

/// What a snapshot records can be brought back.
pub proof fn law_snapshot_is_restorable(
    store: Map<Seq<char>, Seq<u8>>,
    disk: Map<Seq<u8>, Node>,
    ignored: spec_fn(Seq<u8>) -> bool,
)
    requires
        is_disk(disk),
        is_hereditary(ignored),
        forall|p: Seq<u8>|
            is_recorded(disk, ignored, p) ==> is_kept(store, #[trigger] disk[p]),
    ensures
        is_restorable(store, snapshot_of(disk, ignored)),
        forall|p: Seq<u8>|
            is_recorded(disk, ignored, p) ==> node_of(store, entry_of(#[trigger] disk[p]))
                == disk[p],
{
    broadcast use utf8::decode_utf8_encode_utf8;

    let target = snapshot_of(disk, ignored);
    assert forall|p: Seq<u8>| #[trigger] target.contains_key(p) implies is_proper(p) && is_stored(
        store,
        target[p],
    ) && above_are_directories(target, p) by {
        assert(is_kept(store, disk[p]));
        assert(is_reachable(disk, p));
        assert forall|d: Seq<u8>| #[trigger] is_below(d, p) implies target.contains_key(d)
            && target[d] is Directory by {
            assert(disk.contains_key(d) && disk[d] is Directory);
            assert(!ignored(d));
        }
    }
    assert forall|p: Seq<u8>| is_recorded(disk, ignored, p) implies node_of(
        store,
        entry_of(#[trigger] disk[p]),
    ) == disk[p] by {
        assert(is_kept(store, disk[p]));
    }
}

/// Steps that leave something below a path alone cannot remove the directory
/// there, nor put anything in its place.
pub proof fn lemma_blocked(
    store: Map<Seq<char>, Seq<u8>>,
    fresh: u32,
    disk: Map<Seq<u8>, Node>,
    ops: Seq<OpView>,
    p: Seq<u8>,
    q: Seq<u8>,
)
    requires
        disk.contains_key(p),
        disk[p] is Directory,
        disk.contains_key(q),
        is_below(p, q),
        forall|i: int| 0 <= i < ops.len() ==> (#[trigger] ops[i]).path() != q,
        forall|i: int|
            0 <= i < ops.len() && (#[trigger] ops[i]).path() == p ==> ops[i] is RemoveDirectory
                || ops[i] is PlaceFile || ops[i] is PlaceSymlink,
    ensures
        is_same_at(disk, run(store, fresh, disk, ops).0, p),
        is_same_at(disk, run(store, fresh, disk, ops).0, q),
        run(store, fresh, disk, ops).1 ==> forall|i: int|
            0 <= i < ops.len() && (#[trigger] ops[i]).path() == p ==> ops[i] is RemoveDirectory,
    decreases ops.len(),
{
    if ops.len() > 0 {
        let front = ops.drop_last();
        assert forall|i: int| 0 <= i < front.len() implies (#[trigger] front[i]).path() != q && (
        front[i].path() == p ==> front[i] is RemoveDirectory || front[i] is PlaceFile
            || front[i] is PlaceSymlink) by {
            assert(front[i] == ops[i]);
        }
        lemma_blocked(store, fresh, disk, front, p, q);
        let before = run(store, fresh, disk, front);
        let op = ops.last();
        assert(op == ops[ops.len() - 1]);
        if before.1 {
            assert(is_occupied(before.0, p));
            if let Some(actions) = restore::op_actions(op, look(before.0, op.path())) {
                lemma_actions_keep(store, fresh, before.0, actions, q);
                if op.path() != p {
                    lemma_actions_keep(store, fresh, before.0, actions, p);
                } else {
                    assert(perform(store, fresh, before.0, actions[0]) == Err::<
                        Map<Seq<u8>, Node>,
                        FailureKind,
                    >(FailureKind::DirectoryNotEmpty));
                    if op is RemoveDirectory {
                        lemma_run_actions(store, fresh, before.0, actions.drop_first());
                    }
                }
            }
            assert forall|i: int|
                run(store, fresh, disk, ops).1 && 0 <= i < ops.len() && (#[trigger] ops[i]).path()
                    == p implies ops[i] is RemoveDirectory by {
                if i < ops.len() - 1 {
                    assert(front[i] == ops[i]);
                }
            }
        }
    }
}

/// Where something that is not recorded lies below a path at which the state
/// has a file or a link, the restore fails, and leaves both as they are.
pub proof fn law_blocked_restore_fails(
    store: Map<Seq<char>, Seq<u8>>,
    fresh: u32,
    disk: Map<Seq<u8>, Node>,
    ignored: spec_fn(Seq<u8>) -> bool,
    target: Map<Seq<u8>, EntryView>,
    removals: Seq<OpView>,
    preparations: Seq<OpView>,
    placements: Seq<OpView>,
    seals: Seq<OpView>,
    p: Seq<u8>,
    q: Seq<u8>,
)
    requires
        is_disk(disk),
        is_state(target),
        restore::is_plan(
            snapshot_of(disk, ignored),
            target,
            removals,
            preparations,
            placements,
            seals,
        ),
        target.contains_key(p),
        target[p] !is Directory,
        disk.contains_key(q),
        is_below(p, q),
        !is_recorded(disk, ignored, q),
    ensures
        !run(store, fresh, disk, removals + preparations + placements + seals).1,
        is_same_at(
            disk,
            run(store, fresh, disk, removals + preparations + placements + seals).0,
            p,
        ),
        is_same_at(
            disk,
            run(store, fresh, disk, removals + preparations + placements + seals).0,
            q,
        ),
{
    let current = snapshot_of(disk, ignored);
    let all = removals + preparations + placements + seals;
    let a = removals.len() as int;
    let b = a + preparations.len();
    let c = b + placements.len();
    assert(is_reachable(disk, q));
    assert(!target.contains_key(q)) by {
        if target.contains_key(q) {
            assert(above_are_directories(target, q));
        }
    }
    assert forall|i: int| 0 <= i < all.len() implies (#[trigger] all[i]).path() != q && (
    all[i].path() == p ==> all[i] is RemoveDirectory || all[i] is PlaceFile
        || all[i] is PlaceSymlink) by {
        if i < a {
            assert(all[i] == removals[i]);
            assert(restore::phase_has(Phase::Remove, current, target, removals[i].path()));
            assert(removals[i] == restore::phase_op(
                Phase::Remove,
                current,
                target,
                removals[i].path(),
            ));
        } else if i < b {
            assert(all[i] == preparations[i - a]);
            assert(restore::phase_has(Phase::Prepare, current, target, preparations[i - a].path()));
        } else if i < c {
            assert(all[i] == placements[i - b]);
            assert(restore::phase_has(Phase::Place, current, target, placements[i - b].path()));
            assert(placements[i - b] == restore::phase_op(
                Phase::Place,
                current,
                target,
                placements[i - b].path(),
            ));
        } else {
            assert(all[i] == seals[i - c]);
            assert(restore::phase_has(Phase::Seal, current, target, seals[i - c].path()));
        }
    }
    lemma_blocked(store, fresh, disk, all, p, q);
    assert(restore::phase_has(Phase::Place, current, target, p));
    let i = choose|i: int| 0 <= i < placements.len() && (#[trigger] placements[i]).path() == p;
    assert(placements[i] == restore::phase_op(Phase::Place, current, target, p));
    assert(all[b + i] == placements[i]);
}

} // verus!
