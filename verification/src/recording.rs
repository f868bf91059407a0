//! What a snapshot records of the directory model.
//!
//! Nothing here runs. A snapshot that is answered truthfully is proved to
//! record every entry that is not ignored, and nothing else.

use vstd::prelude::*;
use vstd::utf8;

use crate::digest;
use crate::disk;
use crate::disk::Node;
use crate::history;
use crate::history::ChangeSummary;
use crate::order;
use crate::path;
use crate::restore;
use crate::restore::OpView;
use crate::sequence;
use crate::snapshot;
use crate::snapshot::Rules;
use crate::snapshot::WalkView;
use crate::tree::EntryView;

verus! {

/// Whether a snapshot leaves a path out, whatever is there.
pub open spec fn is_excluded(rules: Rules, p: Seq<u8>) -> bool {
    ||| path::is_within(rules.state_root, snapshot::absolute(rules, p))
    ||| snapshot::is_vcs_name(path::segments(p).last())
}

/// Whether a path leads to a directory that a snapshot leaves out on account
/// of its name.
pub open spec fn is_generated(rules: Rules, files: Map<Seq<u8>, Node>, p: Seq<u8>) -> bool {
    files.contains_key(p) && files[p] is Directory && snapshot::leaves_out_directory(rules, p)
}

/// Whether a snapshot leaves a path out on account of the path itself and of
/// what is there.
pub open spec fn is_skipped(rules: Rules, files: Map<Seq<u8>, Node>, p: Seq<u8>) -> bool {
    is_excluded(rules, p) || is_generated(rules, files, p)
}

/// Whether a path lies below one that a snapshot leaves out.
pub open spec fn is_sheltered(rules: Rules, files: Map<Seq<u8>, Node>, p: Seq<u8>) -> bool {
    exists|d: Seq<u8>| #[trigger] disk::is_below(d, p) && is_skipped(rules, files, d)
}

/// The paths that checkpoints have nothing to do with in a directory: those
/// that a snapshot of it leaves out, and what lies below them.
pub open spec fn ignored(rules: Rules, files: Map<Seq<u8>, Node>) -> spec_fn(Seq<u8>) -> bool {
    |p: Seq<u8>| is_skipped(rules, files, p) || is_sheltered(rules, files, p)
}

/// What lies below something below a path lies below the path.
proof fn lemma_below_transitive(a: Seq<u8>, b: Seq<u8>, c: Seq<u8>)
    requires
        disk::is_below(a, b),
        disk::is_below(b, c),
    ensures
        disk::is_below(a, c),
{
    let n = a.len() as int;
    assert(c[n] == c.take(b.len() as int)[n]);
    assert(c.take(n) =~= c.take(b.len() as int).take(n));
}

/// What lies below an ignored path is ignored.
pub proof fn law_ignored_is_hereditary(rules: Rules, files: Map<Seq<u8>, Node>)
    ensures
        disk::is_hereditary(ignored(rules, files)),
{
    let f = ignored(rules, files);
    assert forall|d: Seq<u8>, p: Seq<u8>| f(d) && #[trigger] disk::is_below(d, p) implies f(p) by {
        if !is_skipped(rules, files, d) {
            let e = choose|e: Seq<u8>| #[trigger]
                disk::is_below(e, d) && is_skipped(rules, files, e);
            lemma_below_transitive(e, d, p);
        }
    }
}

/// A file or a link is recorded whatever its name, unless it belongs to the
/// checkpoints themselves or to a version control system, or lies below a
/// directory that is left out: only directories are taken for generated.
pub proof fn law_files_are_recorded(rules: Rules, files: Map<Seq<u8>, Node>, p: Seq<u8>)
    requires
        files.contains_key(p),
        files[p] is File || files[p] is Symlink,
        !is_excluded(rules, p),
        !is_sheltered(rules, files, p),
    ensures
        disk::is_recorded(files, ignored(rules, files), p),
{
}

/// Directories in which the same directories count as generated have the same
/// ignored paths.
pub proof fn lemma_same_ignored(rules: Rules, a: Map<Seq<u8>, Node>, b: Map<Seq<u8>, Node>)
    requires
        forall|p: Seq<u8>| #[trigger] is_generated(rules, a, p) <==> is_generated(rules, b, p),
    ensures
        ignored(rules, a) == ignored(rules, b),
{
    let f = ignored(rules, a);
    let g = ignored(rules, b);
    assert forall|p: Seq<u8>| #[trigger] f(p) == g(p) by {
        assert(is_skipped(rules, a, p) == is_skipped(rules, b, p)) by {
            assert(is_generated(rules, a, p) <==> is_generated(rules, b, p));
        }
        if is_sheltered(rules, a, p) {
            let d = choose|d: Seq<u8>| #[trigger]
                disk::is_below(d, p) && is_skipped(rules, a, d);
            assert(is_generated(rules, a, d) <==> is_generated(rules, b, d));
            assert(disk::is_below(d, p) && is_skipped(rules, b, d));
        }
        if is_sheltered(rules, b, p) {
            let d = choose|d: Seq<u8>| #[trigger]
                disk::is_below(d, p) && is_skipped(rules, b, d);
            assert(is_generated(rules, a, d) <==> is_generated(rules, b, d));
            assert(disk::is_below(d, p) && is_skipped(rules, a, d));
        }
    }
    assert(f =~= g);
}

/// Joined segments hold single slashes only, none of them at an end.
proof fn lemma_joined_slashes(parts: Seq<Seq<u8>>)
    requires
        forall|i: int| 0 <= i < parts.len() ==> path::is_segment(#[trigger] parts[i]),
        parts.len() > 0,
    ensures
        path::joined(parts).len() > 0,
        path::joined(parts)[0] != path::SLASH,
        path::joined(parts).last() != path::SLASH,
        forall|i: int|
            0 <= i < path::joined(parts).len() - 1 && #[trigger] path::joined(parts)[i]
                == path::SLASH ==> path::joined(parts)[i + 1] != path::SLASH,
    decreases parts.len(),
{
    let whole = path::joined(parts);
    let last = parts.last();
    assert(path::is_segment(last));
    assert forall|i: int| 0 <= i < last.len() implies last[i] != path::SLASH by {
        assert(last.contains(last[i]));
    }
    if parts.len() > 1 {
        let front = parts.drop_last();
        assert forall|i: int| 0 <= i < front.len() implies path::is_segment(
            #[trigger] front[i],
        ) by {
            assert(front[i] == parts[i]);
        }
        lemma_joined_slashes(front);
        let head = path::joined(front);
        let n = head.len() as int;
        assert(whole == head.push(path::SLASH) + last);
        assert forall|i: int|
            0 <= i < whole.len() - 1 && #[trigger] whole[i] == path::SLASH implies whole[i + 1]
            != path::SLASH by {
            if i < n - 1 {
                assert(head[i] == whole[i]);
                assert(head[i + 1] == whole[i + 1]);
            } else if i == n - 1 {
                assert(head.last() == whole[i]);
            } else if i == n {
                assert(whole[i + 1] == last[0]);
            } else {
                assert(whole[i] == last[i - n - 1]);
            }
        }
    } else {
        assert(whole == parts[0]);
    }
}

/// Proper paths hold single slashes only, none of them at an end.
proof fn lemma_proper_slashes(p: Seq<u8>)
    requires
        disk::is_proper(p),
    ensures
        p[0] != path::SLASH,
        p.last() != path::SLASH,
        forall|i: int|
            0 <= i < p.len() - 1 && #[trigger] p[i] == path::SLASH ==> p[i + 1] != path::SLASH,
        path::segments(p).len() > 0,
{
    let parts = path::segments(p);
    assert forall|i: int| 0 <= i < parts.len() implies path::is_segment(#[trigger] parts[i]) by {
        assert(path::is_name(path::segments(p)[i]));
    }
    if parts.len() == 0 {
        assert(path::joined(parts).len() == 0);
    }
    lemma_joined_slashes(parts);
}

/// A name in a directory makes a proper path, whose last segment it is.
proof fn lemma_child(d: Seq<u8>, name: Seq<u8>)
    requires
        d.len() == 0 || disk::is_proper(d),
        path::is_name(name),
    ensures
        disk::is_proper(path::join(d, name)),
        path::segments(path::join(d, name)) == path::segments(d).push(name),
        d.len() > 0 ==> disk::is_below(d, path::join(d, name)),
{
    let p = path::join(d, name);
    assert(name.contains(name[0]));
    assert(!path::is_rooted(name));
    if d.len() == 0 {
        assert(p == d + name);
        path::lemma_segments_push(d, name);
        let parts = path::segments(p);
        assert(path::segments(d) == Seq::<Seq<u8>>::empty());
        assert(parts[0] == name);
        assert(p == name);
        assert(path::joined(parts) == name);
    } else {
        lemma_proper_slashes(d);
        let head = d.push(path::SLASH);
        assert(p == head + name);
        assert(head.drop_last() == d);
        path::lemma_segments_push(head, name);
        let parts = path::segments(p);
        assert(parts.drop_last() == path::segments(d));
        assert(path::joined(parts) == path::joined(path::segments(d)).push(path::SLASH) + name);
        assert(p.take(d.len() as int) == d);
        assert forall|i: int| 0 <= i < parts.len() implies path::is_name(#[trigger] parts[i]) by {
            if i < path::segments(d).len() {
                assert(parts[i] == path::segments(d)[i]);
            }
        }
    }
}

/// What lies below a directory is an entry of it or lies below one.
proof fn lemma_through_child(d: Seq<u8>, p: Seq<u8>) -> (name: Seq<u8>)
    requires
        d.len() == 0 || disk::is_below(d, p),
        disk::is_proper(p),
    ensures
        path::is_name(name),
        p == path::join(d, name) || disk::is_below(path::join(d, name), p),
{
    lemma_proper_slashes(p);
    let start: int = if d.len() == 0 { 0 } else { d.len() as int + 1 };
    if d.len() > 0 {
        assert(p[start - 1] == path::SLASH);
        if start == p.len() {
            assert(p.last() == p[start - 1]);
        }
        assert(p[start] != path::SLASH);
    }
    let end = first_slash(p, start);
    lemma_first_slash(p, start);
    let name = p.subrange(start, end);
    assert(name.len() > 0);
    assert(!name.contains(path::SLASH)) by {
        if name.contains(path::SLASH) {
            let i = choose|i: int| 0 <= i < name.len() && name[i] == path::SLASH;
            assert(p[start + i] == path::SLASH);
        }
    }
    let c = p.take(end);
    let head = p.take(start);
    assert(c == head + name);
    if d.len() > 0 {
        assert(head.last() == path::SLASH);
        assert(d[0] == p[0]) by {
            assert(p.take(d.len() as int)[0] == p[0]);
        }
        assert(d.last() != path::SLASH) by {
            assert(p.take(d.len() as int).last() == p[d.len() - 1]);
            if d.last() == path::SLASH {
                assert(p[d.len() - 1] == path::SLASH);
                assert(p[d.len() - 1 + 1] != path::SLASH);
            }
        }
        assert(head == d.push(path::SLASH));
    } else {
        assert(head == d);
    }
    assert(name[0] == p[start]);
    assert(!path::is_rooted(name));
    assert(c == path::join(d, name));
    path::lemma_segments_push(head, name);
    let k = path::segments(head).len() as int;
    assert(path::segments(c)[k] == name);
    if end == p.len() {
        assert(c == p);
    } else {
        let back = p.skip(end + 1);
        let front = c.push(path::SLASH);
        assert(p == front + back);
        path::lemma_segments_join(front, back);
        assert(front.drop_last() == c);
        assert(path::segments(front) == path::segments(c));
        assert(path::segments(p)[k] == name);
    }
    assert(path::is_name(path::segments(p)[k]));
    name
}

spec fn first_slash(p: Seq<u8>, from: int) -> int
    decreases p.len() - from,
{
    if from >= p.len() {
        p.len() as int
    } else if p[from] == path::SLASH {
        from
    } else {
        first_slash(p, from + 1)
    }
}

proof fn lemma_first_slash(p: Seq<u8>, from: int)
    requires
        0 <= from <= p.len(),
    ensures
        from <= first_slash(p, from) <= p.len(),
        from < p.len() && p[from] != path::SLASH ==> from < first_slash(p, from),
        forall|i: int| from <= i < first_slash(p, from) ==> p[i] != path::SLASH,
        first_slash(p, from) < p.len() ==> p[first_slash(p, from)] == path::SLASH,
    decreases p.len() - from,
{
    if from < p.len() && p[from] != path::SLASH {
        lemma_first_slash(p, from + 1);
    }
}

/// A path with a segment that names the metadata of a version control system
/// is ignored, wherever it is and whatever it leads to. So is a path of a
/// directory with a segment by which a directory counts as generated, unless
/// it is the name of a file or a link itself.
pub proof fn law_names_are_ignored(rules: Rules, files: Map<Seq<u8>, Node>, p: Seq<u8>, k: int)
    requires
        disk::is_disk(files),
        disk::is_proper(p),
        0 <= k < path::segments(p).len(),
        snapshot::is_vcs_name(path::segments(p)[k]) || (!rules.include_generated
            && snapshot::is_generated_name(path::segments(p)[k]) && files.contains_key(p) && (k
            < path::segments(p).len() - 1 || files[p] is Directory)),
    ensures
        ignored(rules, files)(p),
    decreases p.len(),
{
    let parts = path::segments(p);
    if k < parts.len() - 1 {
        let front = parts.drop_last();
        let d = path::joined(front);
        assert forall|i: int| 0 <= i < parts.len() implies path::is_segment(
            #[trigger] parts[i],
        ) by {
            assert(path::is_name(path::segments(p)[i]));
        }
        assert forall|i: int| 0 <= i < front.len() implies path::is_name(#[trigger] front[i])
            && path::is_segment(front[i]) by {
            assert(front[i] == path::segments(p)[i]);
            assert(path::is_name(path::segments(p)[i]));
        }
        path::lemma_segments_joined(front);
        assert(p == d.push(path::SLASH) + parts.last());
        assert(p.take(d.len() as int) == d);
        assert(disk::is_below(d, p));
        assert(disk::is_proper(d));
        assert(path::segments(d)[k] == parts[k]);
        if files.contains_key(p) {
            assert(disk::is_reachable(files, p));
            assert(files.contains_key(d) && files[d] is Directory);
        }
        law_names_are_ignored(rules, files, d, k);
        law_ignored_is_hereditary(rules, files);
        let f = ignored(rules, files);
        assert(f(d) && disk::is_below(d, p));
    }
}

/// Whether these are the names in a directory, each of them once.
pub open spec fn lists(files: Map<Seq<u8>, Node>, d: Seq<u8>, names: Seq<Seq<u8>>) -> bool {
    &&& names.no_duplicates()
    &&& forall|name: Seq<u8>| #[trigger]
        names.contains(name) <==> path::is_name(name) && files.contains_key(path::join(d, name))
}

/// Whether a path is still to be visited, or lies below one that is.
pub open spec fn is_covered(pending: Seq<Seq<u8>>, p: Seq<u8>) -> bool {
    exists|i: int|
        0 <= i < pending.len() && (#[trigger] pending[i] == p || disk::is_below(pending[i], p))
}

/// Whether a path is one that a snapshot visits: something is there that is
/// not left out whatever it is, in directories that are not left out.
pub open spec fn is_open(rules: Rules, files: Map<Seq<u8>, Node>, p: Seq<u8>) -> bool {
    files.contains_key(p) && !is_excluded(rules, p) && !is_sheltered(rules, files, p)
}

/// Whether a snapshot is on its way: what is recorded is what is there, but
/// for what is still to be visited, and nothing will be visited twice.
pub open spec fn is_on_its_way(files: Map<Seq<u8>, Node>, rules: Rules, walk: WalkView) -> bool {
    &&& forall|p: Seq<u8>| #[trigger]
        walk.entries.contains_key(p) <==> disk::is_recorded(files, ignored(rules, files), p)
            && !is_covered(walk.pending, p)
    &&& forall|p: Seq<u8>| #[trigger]
        walk.entries.contains_key(p) ==> walk.entries[p] == disk::entry_of(files[p])
    &&& forall|i: int|
        0 <= i < walk.pending.len() ==> is_open(rules, files, #[trigger] walk.pending[i])
    &&& forall|i: int, j: int|
        #![trigger walk.pending[i], walk.pending[j]]
        0 <= i < walk.pending.len() && 0 <= j < walk.pending.len() && i != j ==> walk.pending[i]
            != walk.pending[j] && !disk::is_below(walk.pending[i], walk.pending[j])
}

/// The state of a snapshot after the next path was visited, where `names` are
/// those in that directory, if it is one.
pub open spec fn visited(
    files: Map<Seq<u8>, Node>,
    rules: Rules,
    walk: WalkView,
    names: Seq<Seq<u8>>,
) -> WalkView {
    let p = walk.pending.last();
    let rest = WalkView { pending: walk.pending.drop_last(), ..walk };
    match files[p] {
        Node::Other => rest,
        Node::Directory { .. } if is_generated(rules, files, p) => rest,
        Node::Directory { .. } => rest.record(p, disk::entry_of(files[p])).enter(rules, p, names),
        _ => rest.record(p, disk::entry_of(files[p])),
    }
}

/// What the visits of a directory are.
proof fn lemma_visits(
    files: Map<Seq<u8>, Node>,
    rules: Rules,
    d: Seq<u8>,
    names: Seq<Seq<u8>>,
)
    requires
        disk::is_disk(files),
        d.len() == 0 || disk::is_proper(d),
        d.len() == 0 || !ignored(rules, files)(d),
        lists(files, d, names),
    ensures
        forall|i: int|
            0 <= i < snapshot::visits(rules, d, names).len() ==> {
                let c = #[trigger] snapshot::visits(rules, d, names)[i];
                &&& is_open(rules, files, c)
                &&& d.len() > 0 ==> disk::is_below(d, c)
            },
        forall|i: int, j: int|
            #![trigger snapshot::visits(rules, d, names)[i], snapshot::visits(rules, d, names)[j]]
            0 <= i < snapshot::visits(rules, d, names).len() && 0 <= j < snapshot::visits(
                rules,
                d,
                names,
            ).len() && i != j ==> snapshot::visits(rules, d, names)[i] != snapshot::visits(
                rules,
                d,
                names,
            )[j] && !disk::is_below(
                snapshot::visits(rules, d, names)[i],
                snapshot::visits(rules, d, names)[j],
            ),
        forall|p: Seq<u8>|
            (d.len() == 0 || disk::is_below(d, p)) && #[trigger] files.contains_key(p) && !ignored(
                rules,
                files,
            )(p) ==> is_covered(snapshot::visits(rules, d, names), p),
{
    let all = order::sorted(names);
    order::lemma_sorted(names);
    let kept = |name: Seq<u8>| !snapshot::is_left_out(rules, d, name);
    let list = all.filter(kept);
    let v = snapshot::visits(rules, d, names);
    assert(v.len() == list.len());
    sequence::lemma_filter_distinct(all, kept);
    assert forall|i: int| 0 <= i < v.len() implies {
        let c = #[trigger] v[i];
        &&& is_open(rules, files, c)
        &&& d.len() > 0 ==> disk::is_below(d, c)
        &&& c == path::join(d, list[i])
        &&& path::is_name(list[i])
    } by {
        let name = list[i];
        sequence::lemma_filter_members(all, kept);
        assert(names.contains(name));
        lemma_child(d, name);
        let c = path::join(d, name);
        lemma_skip_is_left_out(rules, d, name);
        if is_sheltered(rules, files, c) {
            let e = choose|e: Seq<u8>| #[trigger]
                disk::is_below(e, c) && is_skipped(rules, files, e);
            lemma_above_child(d, name, e);
            if d.len() > 0 && e != d {
                assert(disk::is_below(e, d));
            }
        }
    }
    assert forall|i: int, j: int|
        #![trigger v[i], v[j]]
        0 <= i < v.len() && 0 <= j < v.len() && i != j implies v[i] != v[j] && !disk::is_below(
        v[i],
        v[j],
    ) by {
        assert(v[i] == path::join(d, list[i]) && v[j] == path::join(d, list[j]));
        assert(list[i] != list[j]);
        lemma_child(d, list[i]);
        lemma_child(d, list[j]);
        assert(path::segments(v[i]).last() == list[i]);
        assert(path::segments(v[j]).last() == list[j]);
        if disk::is_below(v[i], v[j]) {
            disk::lemma_deeper(v[i], v[j]);
            lemma_above_child(d, list[j], v[i]);
            if v[i] == d {
                assert(disk::is_below(d, v[i]));
            } else {
                lemma_below_transitive(v[i], d, v[i]);
            }
        }
    }
    assert forall|p: Seq<u8>|
        (d.len() == 0 || disk::is_below(d, p)) && #[trigger] files.contains_key(p) && !ignored(
            rules,
            files,
        )(p) implies is_covered(v, p) by {
        let name = lemma_through_child(d, p);
        let c = path::join(d, name);
        lemma_child(d, name);
        assert(disk::is_reachable(files, p));
        assert(files.contains_key(c));
        assert(names.contains(name));
        assert(all.contains(name));
        lemma_skip_is_left_out(rules, d, name);
        assert(!is_skipped(rules, files, c)) by {
            if is_skipped(rules, files, c) {
                assert(ignored(rules, files)(p));
            }
        }
        assert(kept(name));
        assert(list.contains(name)) by {
            let k = all.index_of(name);
            assert(all[k] == name);
            sequence::lemma_filter_keeps(all, kept, k);
        }
        let k = list.index_of(name);
        assert(v[k] == c);
    }
}

/// For an entry of a directory it is one and the same whether its path or its
/// name is left out.
proof fn lemma_skip_is_left_out(rules: Rules, d: Seq<u8>, name: Seq<u8>)
    requires
        d.len() == 0 || disk::is_proper(d),
        path::is_name(name),
    ensures
        is_excluded(rules, path::join(d, name)) == snapshot::is_left_out(rules, d, name),
{
    lemma_child(d, name);
}

/// What an entry of a directory lies below is that directory, or the directory
/// lies below it.
proof fn lemma_above_child(d: Seq<u8>, name: Seq<u8>, e: Seq<u8>)
    requires
        d.len() == 0 || disk::is_proper(d),
        path::is_name(name),
        disk::is_below(e, path::join(d, name)),
    ensures
        d.len() > 0,
        e == d || disk::is_below(e, d),
{
    let c = path::join(d, name);
    assert(name.contains(name[0]));
    let n = e.len() as int;
    assert(c[n] == path::SLASH);
    if d.len() == 0 {
        assert(c == name);
        assert(name.contains(name[n]));
    } else {
        lemma_proper_slashes(d);
        assert(c == d.push(path::SLASH) + name);
        if n > d.len() {
            assert(c[n] == name[n - d.len() - 1]);
            assert(name.contains(name[n - d.len() - 1]));
        } else if n == d.len() {
            assert(c.take(n) == d);
        } else {
            assert(d[n] == c[n]);
            assert(c.take(n) == d.take(n));
        }
    }
}

/// A snapshot is on its way once the names in the directory are known.
pub proof fn law_snapshot_starts(
    files: Map<Seq<u8>, Node>,
    rules: Rules,
    names: Seq<Seq<u8>>,
)
    requires
        disk::is_disk(files),
        lists(files, seq![], names),
    ensures
        is_on_its_way(
            files,
            rules,
            (WalkView { entries: Map::empty(), pending: seq![] }).enter(rules, seq![], names),
        ),
{
    let empty: Seq<u8> = seq![];
    let start = WalkView { entries: Map::empty(), pending: seq![] };
    let walk = start.enter(rules, empty, names);
    let v = snapshot::visits(rules, empty, names);
    lemma_visits(files, rules, empty, names);
    let n = v.len();
    assert(walk.pending.len() == n);
    assert forall|i: int| 0 <= i < n implies #[trigger] walk.pending[i] == v[n - 1 - i] by {}
    assert forall|p: Seq<u8>| #[trigger]
        walk.entries.contains_key(p) <==> disk::is_recorded(files, ignored(rules, files), p)
            && !is_covered(walk.pending, p) by {
        if disk::is_recorded(files, ignored(rules, files), p) {
            assert(is_covered(v, p));
            let i = choose|i: int|
                0 <= i < v.len() && (#[trigger] v[i] == p || disk::is_below(v[i], p));
            assert(walk.pending[n - 1 - i] == v[i]);
        }
    }
}

/// A truthful visit keeps a snapshot on its way, and leaves less to visit.
pub proof fn law_snapshot_goes_on(
    files: Map<Seq<u8>, Node>,
    rules: Rules,
    walk: WalkView,
    names: Seq<Seq<u8>>,
)
    requires
        disk::is_disk(files),
        is_on_its_way(files, rules, walk),
        walk.pending.len() > 0,
        files[walk.pending.last()] is Directory ==> lists(files, walk.pending.last(), names),
    ensures
        is_on_its_way(files, rules, visited(files, rules, walk, names)),
        forall|p: Seq<u8>| #[trigger]
            is_covered(visited(files, rules, walk, names).pending, p) ==> is_covered(
                walk.pending,
                p,
            ),
        is_covered(walk.pending, walk.pending.last()),
        !is_covered(visited(files, rules, walk, names).pending, walk.pending.last()),
{
    let p = walk.pending.last();
    let n = walk.pending.len() - 1;
    let next = visited(files, rules, walk, names);
    let rest = walk.pending.drop_last();
    let entered = files[p] is Directory && !is_generated(rules, files, p);
    let v = if entered { snapshot::visits(rules, p, names) } else { seq![] };
    assert(walk.pending[n] == p);
    assert(is_open(rules, files, p) && disk::is_proper(p));
    assert(!ignored(rules, files)(p) <==> !is_generated(rules, files, p));
    assert(next.pending == rest + v.reverse());
    if entered {
        lemma_visits(files, rules, p, names);
    }
    let m = v.len() as int;
    assert forall|i: int| 0 <= i < n implies #[trigger] next.pending[i] == walk.pending[i] by {}
    assert forall|i: int| n <= i < n + m implies #[trigger] next.pending[i] == v[m - 1 - (i - n)] by {}
    // What the new visits cover lies below the path.
    assert forall|q: Seq<u8>| #[trigger] is_covered(next.pending, q) implies is_covered(
        walk.pending,
        q,
    ) && q != p by {
        let i = choose|i: int|
            0 <= i < next.pending.len() && (#[trigger] next.pending[i] == q || disk::is_below(
                next.pending[i],
                q,
            ));
        if i < n {
            assert(walk.pending[i] == next.pending[i]);
            assert(walk.pending[i] != walk.pending[n]);
        } else {
            let c = v[m - 1 - (i - n)];
            assert(next.pending[i] == c);
            assert(disk::is_below(p, c));
            if c != q {
                lemma_below_transitive(p, c, q);
            }
            assert(walk.pending[n] == p);
        }
    }
    // What was covered and is recorded stays covered, but for the path itself.
    assert forall|q: Seq<u8>|
        is_covered(walk.pending, q) && disk::is_recorded(files, ignored(rules, files), q) && q
            != p implies #[trigger] is_covered(next.pending, q) by {
        let i = choose|i: int|
            0 <= i < walk.pending.len() && (#[trigger] walk.pending[i] == q || disk::is_below(
                walk.pending[i],
                q,
            ));
        if i < n {
            assert(next.pending[i] == walk.pending[i]);
        } else {
            assert(disk::is_below(p, q));
            assert(disk::is_reachable(files, q));
            assert(files[p] is Directory);
            if is_generated(rules, files, p) {
                assert(is_skipped(rules, files, p));
                assert(is_sheltered(rules, files, q));
            }
            assert(is_covered(v, q));
            let k = choose|k: int|
                0 <= k < v.len() && (#[trigger] v[k] == q || disk::is_below(v[k], q));
            assert(next.pending[n + m - 1 - k] == v[k]);
        }
    }
    assert forall|q: Seq<u8>| #[trigger]
        next.entries.contains_key(q) <==> disk::is_recorded(files, ignored(rules, files), q)
            && !is_covered(next.pending, q) by {
        if q == p {
            assert(!is_covered(next.pending, p));
            assert(is_covered(walk.pending, p));
        } else {
            assert(next.entries.contains_key(q) <==> walk.entries.contains_key(q));
        }
    }
    assert forall|q: Seq<u8>| #[trigger] next.entries.contains_key(q) implies next.entries[q]
        == disk::entry_of(files[q]) by {
        if q != p {
            assert(walk.entries.contains_key(q));
        }
    }
    assert forall|i: int| 0 <= i < next.pending.len() implies is_open(
        rules,
        files,
        #[trigger] next.pending[i],
    ) by {
        if i < n {
            assert(next.pending[i] == walk.pending[i]);
        } else {
            assert(next.pending[i] == v[m - 1 - (i - n)]);
        }
    }
    assert forall|i: int, j: int|
        #![trigger next.pending[i], next.pending[j]]
        0 <= i < next.pending.len() && 0 <= j < next.pending.len() && i != j implies next.pending[i]
        != next.pending[j] && !disk::is_below(next.pending[i], next.pending[j]) by {
        let a = next.pending[i];
        let b = next.pending[j];
        if i < n && j < n {
            assert(walk.pending[i] == a && walk.pending[j] == b);
        } else if i < n {
            let k = m - 1 - (j - n);
            assert(b == v[k]);
            assert(a == walk.pending[i]);
            assert(disk::is_below(p, b));
            assert(a != p && !disk::is_below(a, p) && !disk::is_below(p, a)) by {
                assert(walk.pending[i] != walk.pending[n]);
                assert(!disk::is_below(walk.pending[n], walk.pending[i]));
            }
            if disk::is_below(a, b) {
                lemma_comparable(a, p, b);
            }
        } else if j < n {
            let k = m - 1 - (i - n);
            assert(a == v[k]);
            assert(b == walk.pending[j]);
            assert(disk::is_below(p, a));
            assert(b != p && !disk::is_below(p, b)) by {
                assert(walk.pending[n] != walk.pending[j]);
            }
            if disk::is_below(a, b) {
                lemma_below_transitive(p, a, b);
            }
        } else {
            assert(a == v[m - 1 - (i - n)] && b == v[m - 1 - (j - n)]);
        }
    }
}

/// Of two paths that a third lies below, one lies below the other.
proof fn lemma_comparable(a: Seq<u8>, b: Seq<u8>, c: Seq<u8>)
    requires
        disk::is_below(a, c),
        disk::is_below(b, c),
    ensures
        a == b || disk::is_below(a, b) || disk::is_below(b, a),
{
    let m = a.len() as int;
    let n = b.len() as int;
    if m == n {
        assert(a == b);
    } else if m < n {
        assert(b[m] == c[m]);
        assert(b.take(m) == c.take(m));
    } else {
        assert(a[n] == c[n]);
        assert(a.take(n) == c.take(n));
    }
}

/// A snapshot with nothing left to visit has recorded just what is there.
pub proof fn law_snapshot_is_complete(files: Map<Seq<u8>, Node>, rules: Rules, walk: WalkView)
    requires
        is_on_its_way(files, rules, walk),
        walk.pending.len() == 0,
    ensures
        walk.entries == disk::snapshot_of(files, ignored(rules, files)),
{
    let taken = disk::snapshot_of(files, ignored(rules, files));
    assert forall|p: Seq<u8>| #[trigger]
        walk.entries.contains_key(p) <==> taken.contains_key(p) by {
        assert(!is_covered(walk.pending, p));
    }
    assert(walk.entries =~= taken);
}

/// Whether a state can have been recorded under some rules: it has no path
/// that a snapshot leaves out whatever is there, and no directory that it
/// leaves out on account of its name.
pub open spec fn is_recordable(rules: Rules, target: Map<Seq<u8>, EntryView>) -> bool {
    forall|p: Seq<u8>| #[trigger]
        target.contains_key(p) ==> !is_excluded(rules, p) && (target[p] is Directory
            ==> !snapshot::leaves_out_directory(rules, p))
}

/// What a snapshot records can be recorded.
pub proof fn law_snapshots_are_recordable(rules: Rules, files: Map<Seq<u8>, Node>)
    ensures
        is_recordable(rules, disk::snapshot_of(files, ignored(rules, files))),
{
}

/// A path of a recordable state that is ignored now leads to a generated
/// directory, where the state has a file or a link.
pub proof fn law_ignored_paths_of_states(
    rules: Rules,
    files: Map<Seq<u8>, Node>,
    target: Map<Seq<u8>, EntryView>,
    p: Seq<u8>,
)
    requires
        disk::is_disk(files),
        disk::is_state(target),
        is_recordable(rules, target),
        target.contains_key(p),
        ignored(rules, files)(p),
    ensures
        is_generated(rules, files, p),
        target[p] !is Directory,
{
    if is_sheltered(rules, files, p) {
        let d = choose|d: Seq<u8>| #[trigger]
            disk::is_below(d, p) && is_skipped(rules, files, d);
        assert(disk::above_are_directories(target, p));
        assert(target.contains_key(d) && target[d] is Directory);
    }
}

/// A restore makes a directory look as it was recorded. It succeeds if and
/// only if nothing but recorded entries lies below the paths at which the
/// recorded state has a file or a link; so an ignored directory in such a place
/// has to be empty. Where it succeeds, a snapshot of the directory is then the
/// recorded state, and each path of that state leads to what was recorded
/// there. Whether or not it does, every ignored path outside that state leads
/// to what it led to. This holds where the directories that the state does not
/// have hold nothing but recorded entries: one that holds something else is
/// left in place.
pub proof fn law_restored_directories_look_as_recorded(
    store: Map<Seq<char>, Seq<u8>>,
    fresh: u32,
    rules: Rules,
    files: Map<Seq<u8>, Node>,
    target: Map<Seq<u8>, EntryView>,
    removals: Seq<OpView>,
    preparations: Seq<OpView>,
    placements: Seq<OpView>,
    seals: Seq<OpView>,
) -> (after: Map<Seq<u8>, Node>)
    requires
        disk::is_disk(files),
        disk::is_restorable(store, target),
        is_recordable(rules, target),
        disk::is_unobstructed(files, ignored(rules, files), target),
        restore::is_plan(
            disk::snapshot_of(files, ignored(rules, files)),
            target,
            removals,
            preparations,
            placements,
            seals,
        ),
    ensures
        ({
            let end = disk::run(
                store,
                fresh,
                files,
                removals + preparations + placements + seals,
            );
            &&& after == end.0
            &&& end.1 <==> disk::is_unblocked(files, ignored(rules, files), target)
            &&& end.1 ==> {
                &&& disk::is_disk(after)
                &&& disk::snapshot_of(after, ignored(rules, after)) == target
                &&& forall|p: Seq<u8>| #[trigger]
                    target.contains_key(p) ==> after.contains_key(p) && after[p] == disk::node_of(
                        store,
                        target[p],
                    )
                &&& forall|p: Seq<u8>|
                    !target.contains_key(p) && disk::is_recorded(files, ignored(rules, files), p)
                        ==> !#[trigger] after.contains_key(p)
                &&& forall|p: Seq<u8>|
                    !target.contains_key(p) && !disk::is_recorded(files, ignored(rules, files), p)
                        ==> #[trigger] disk::is_same_at(files, after, p)
            }
            &&& forall|p: Seq<u8>|
                ignored(rules, files)(p) && !target.contains_key(p)
                    ==> #[trigger] disk::is_same_at(files, after, p)
        }),
{
    let hidden = ignored(rules, files);
    let all = removals + preparations + placements + seals;
    let after = disk::run(store, fresh, files, all).0;
    assert forall|p: Seq<u8>|
        hidden(p) && !target.contains_key(p) implies #[trigger] disk::is_same_at(
        files,
        after,
        p,
    ) by {
        disk::law_restore_keeps_ignored(
            store,
            fresh,
            files,
            hidden,
            target,
            removals,
            preparations,
            placements,
            seals,
            p,
        );
    }
    if !disk::is_unblocked(files, hidden, target) {
        let (d, q) = choose|d: Seq<u8>, q: Seq<u8>|
            target.contains_key(d) && target[d] !is Directory && files.contains_key(q)
                && #[trigger] disk::is_below(d, q) && !disk::is_recorded(files, hidden, q);
        disk::law_blocked_restore_fails(
            store,
            fresh,
            files,
            hidden,
            target,
            removals,
            preparations,
            placements,
            seals,
            d,
            q,
        );
    } else {
        let reached = disk::law_restore_brings_back(
            store,
            fresh,
            files,
            hidden,
            target,
            removals,
            preparations,
            placements,
            seals,
        );
        assert(reached == after);
        lemma_taken_again(store, rules, files, target, after);
    }
    after
}

/// A snapshot after a restore finds the recorded state.
proof fn lemma_taken_again(
    store: Map<Seq<char>, Seq<u8>>,
    rules: Rules,
    files: Map<Seq<u8>, Node>,
    target: Map<Seq<u8>, EntryView>,
    after: Map<Seq<u8>, Node>,
)
    requires
        disk::is_disk(files),
        disk::is_disk(after),
        disk::is_state(target),
        is_recordable(rules, target),
        disk::is_unblocked(files, ignored(rules, files), target),
        forall|p: Seq<u8>| #[trigger]
            target.contains_key(p) ==> after.contains_key(p) && after[p] == disk::node_of(
                store,
                target[p],
            ) && disk::entry_of(after[p]) == target[p] && after[p] !is Other,
        forall|p: Seq<u8>|
            !target.contains_key(p) && disk::is_recorded(files, ignored(rules, files), p)
                ==> !#[trigger] after.contains_key(p),
        forall|p: Seq<u8>|
            !target.contains_key(p) && !disk::is_recorded(files, ignored(rules, files), p)
                ==> #[trigger] disk::is_same_at(files, after, p),
    ensures
        disk::snapshot_of(after, ignored(rules, after)) == target,
{
    let hidden = ignored(rules, files);
    let later = ignored(rules, after);
    let taken = disk::snapshot_of(after, later);
    assert forall|p: Seq<u8>| #[trigger] taken.contains_key(p) <==> target.contains_key(p) by {
        if target.contains_key(p) {
            if later(p) {
                law_ignored_paths_of_states(rules, after, target, p);
                assert(after[p] is Directory);
            }
        } else if disk::is_recorded(after, later, p) {
            assert(!disk::is_recorded(files, hidden, p));
            assert(disk::is_same_at(files, after, p));
            assert(hidden(p));
            if is_skipped(rules, files, p) {
                assert(is_skipped(rules, after, p));
            } else {
                let d = choose|d: Seq<u8>| #[trigger]
                    disk::is_below(d, p) && is_skipped(rules, files, d);
                assert(is_skipped(rules, after, d)) by {
                    if !is_excluded(rules, d) {
                        assert(is_generated(rules, files, d));
                        if target.contains_key(d) {
                            assert(hidden(d));
                            law_ignored_paths_of_states(rules, files, target, d);
                            assert(disk::is_recorded(files, hidden, p));
                        }
                        assert(hidden(d));
                        assert(disk::is_same_at(files, after, d));
                    }
                }
                assert(is_sheltered(rules, after, p));
            }
        }
    }
    assert(taken =~= target);
}

/// What checkpoints are for: a directory that was recorded by one snapshot, and
/// then changed in any way and recorded by another, has again, after the steps
/// from the second state to the first, what the first snapshot found. Each path
/// that it recorded leads to the very node that it led to, no other path leads
/// to anything that would be recorded, and what is ignored, such as the
/// metadata of version control systems, is as it was before the restore, unless
/// it was in the way. The steps can all be taken if and only if nothing but
/// recorded entries lies below the paths at which the first snapshot found a
/// file or a link.
pub proof fn law_checkpoints_bring_directories_back(
    store: Map<Seq<char>, Seq<u8>>,
    fresh: u32,
    rules: Rules,
    recorded: Map<Seq<u8>, Node>,
    first: WalkView,
    changed: Map<Seq<u8>, Node>,
    second: WalkView,
    removals: Seq<OpView>,
    preparations: Seq<OpView>,
    placements: Seq<OpView>,
    seals: Seq<OpView>,
) -> (after: Map<Seq<u8>, Node>)
    requires
        disk::is_disk(recorded),
        disk::is_disk(changed),
        is_on_its_way(recorded, rules, first) && first.pending.len() == 0,
        is_on_its_way(changed, rules, second) && second.pending.len() == 0,
        forall|p: Seq<u8>|
            disk::is_recorded(recorded, ignored(rules, recorded), p) ==> disk::is_kept(
                store,
                #[trigger] recorded[p],
            ),
        disk::is_unobstructed(changed, ignored(rules, changed), first.entries),
        restore::is_plan(
            second.entries,
            first.entries,
            removals,
            preparations,
            placements,
            seals,
        ),
    ensures
        ({
            let end = disk::run(
                store,
                fresh,
                changed,
                removals + preparations + placements + seals,
            );
            &&& after == end.0
            &&& end.1 <==> disk::is_unblocked(changed, ignored(rules, changed), first.entries)
            &&& end.1 ==> {
                &&& disk::is_disk(after)
                &&& forall|p: Seq<u8>| #[trigger]
                    disk::is_recorded(recorded, ignored(rules, recorded), p) <==> disk::is_recorded(
                        after,
                        ignored(rules, after),
                        p,
                    )
                &&& forall|p: Seq<u8>| #[trigger]
                    disk::is_recorded(recorded, ignored(rules, recorded), p) ==> after[p]
                        == recorded[p]
                &&& forall|p: Seq<u8>|
                    !disk::is_recorded(recorded, ignored(rules, recorded), p)
                        && !disk::is_recorded(changed, ignored(rules, changed), p)
                        ==> #[trigger] disk::is_same_at(changed, after, p)
            }
            &&& forall|p: Seq<u8>|
                ignored(rules, changed)(p) && !disk::is_recorded(
                    recorded,
                    ignored(rules, recorded),
                    p,
                ) ==> #[trigger] disk::is_same_at(changed, after, p)
        }),
{
    let before = ignored(rules, recorded);
    let target = first.entries;
    law_snapshot_is_complete(recorded, rules, first);
    law_snapshot_is_complete(changed, rules, second);
    law_ignored_is_hereditary(rules, recorded);
    disk::law_snapshot_is_restorable(store, recorded, before);
    law_snapshots_are_recordable(rules, recorded);
    let after = law_restored_directories_look_as_recorded(
        store,
        fresh,
        rules,
        changed,
        target,
        removals,
        preparations,
        placements,
        seals,
    );
    if disk::run(store, fresh, changed, removals + preparations + placements + seals).1 {
        assert forall|p: Seq<u8>| #[trigger]
            disk::is_recorded(recorded, before, p) <==> disk::is_recorded(
                after,
                ignored(rules, after),
                p,
            ) by {
            assert(disk::snapshot_of(after, ignored(rules, after)).contains_key(p)
                <==> target.contains_key(p));
        }
        assert forall|p: Seq<u8>| #[trigger]
            disk::is_recorded(recorded, before, p) implies after[p] == recorded[p] by {
            assert(target.contains_key(p));
            assert(disk::node_of(store, disk::entry_of(recorded[p])) == recorded[p]);
        }
    }
    after
}

/// What lies below a path, seen from the scope, lies within whatever the path
/// lies within.
proof fn lemma_within_below(rules: Rules, outer: Seq<u8>, d: Seq<u8>, p: Seq<u8>)
    requires
        path::is_rooted(rules.scope_root),
        disk::is_proper(d),
        disk::is_proper(p),
        disk::is_below(d, p),
        path::is_within(outer, snapshot::absolute(rules, d)),
    ensures
        path::is_within(outer, snapshot::absolute(rules, p)),
{
    let named = |s: Seq<u8>| s != path::dot();
    lemma_proper_slashes(d);
    lemma_proper_slashes(p);
    let rest = p.skip(d.len() as int + 1);
    let head = d.push(path::SLASH);
    assert(p == head + rest);
    path::lemma_segments_join(head, rest);
    assert(head.drop_last() == d);
    assert(path::segments(head) == path::segments(d));
    Seq::filter_distributes_over_add(path::segments(d), path::segments(rest), named);
    path::lemma_components_join(rules.scope_root, d);
    path::lemma_components_join(rules.scope_root, p);
    let a = path::components(snapshot::absolute(rules, d));
    let b = path::components(snapshot::absolute(rules, p));
    let o = path::components(outer);
    assert(b.take(a.len() as int) == a);
    assert(b.take(o.len() as int) == a.take(o.len() as int));
}

/// Everything else is recorded: a file, a directory or a link at a path that
/// has none of the listed names in it, and that does not belong to the
/// checkpoints themselves, is in a snapshot, with its permissions and, for a
/// file, the digest and the length of its content.
pub proof fn law_ordinary_paths_are_recorded(rules: Rules, files: Map<Seq<u8>, Node>, p: Seq<u8>)
    requires
        disk::is_disk(files),
        path::is_rooted(rules.scope_root),
        files.contains_key(p),
        files[p] !is Other,
        !path::is_within(rules.state_root, path::join(rules.scope_root, p)),
        ({
            let names = seq![
                "node_modules"@,
                "target"@,
                ".venv"@,
                "venv"@,
                "__pycache__"@,
                ".pytest_cache"@,
                ".mypy_cache"@,
                ".cache"@,
                "dist"@,
                "build"@,
                ".next"@,
                ".nuxt"@,
                "coverage"@,
                ".git"@,
                ".hg"@,
                ".svn"@,
            ];
            forall|k: int, i: int|
                #![trigger path::segments(p)[k], names[i]]
                0 <= k < path::segments(p).len() && 0 <= i < names.len() ==> path::segments(p)[k]
                    != utf8::encode_utf8(names[i])
        }),
    ensures
        ({
            let taken = disk::snapshot_of(files, ignored(rules, files));
            &&& taken.contains_key(p)
            &&& files[p] matches Node::File { content, mode } ==> taken[p] == (EntryView::File {
                object: digest::digest(content),
                mode,
                size: content.len() as u64,
            })
            &&& files[p] matches Node::Directory { mode } ==> taken[p] == (EntryView::Directory {
                mode,
            })
            &&& files[p] matches Node::Symlink { target } ==> taken[p] == (EntryView::Symlink {
                target: utf8::decode_utf8(target),
            })
        }),
{
    let names = seq![
        "node_modules"@,
        "target"@,
        ".venv"@,
        "venv"@,
        "__pycache__"@,
        ".pytest_cache"@,
        ".mypy_cache"@,
        ".cache"@,
        "dist"@,
        "build"@,
        ".next"@,
        ".nuxt"@,
        "coverage"@,
        ".git"@,
        ".hg"@,
        ".svn"@,
    ];
    assert(names[0] == "node_modules"@ && names[1] == "target"@ && names[2] == ".venv"@ && names[3] == "venv"@ && names[4] == "__pycache__"@ && names[5] == ".pytest_cache"@ && names[6] == ".mypy_cache"@ && names[7] == ".cache"@ && names[8] == "dist"@ && names[9] == "build"@ && names[10] == ".next"@ && names[11] == ".nuxt"@ && names[12] == "coverage"@ && names[13] == ".git"@ && names[14] == ".hg"@ && names[15] == ".svn"@);
    assert(disk::is_proper(p) && disk::is_reachable(files, p));
    lemma_proper_slashes(p);
    let parts = path::segments(p);
    assert forall|k: int| 0 <= k < parts.len() implies !snapshot::is_vcs_name(#[trigger] parts[k])
        && !snapshot::is_generated_name(parts[k]) by {
        assert forall|i: int| 0 <= i < names.len() implies parts[k] != utf8::encode_utf8(
            #[trigger] names[i],
        ) by {}
        if snapshot::is_generated_name(parts[k]) || snapshot::is_vcs_name(parts[k]) {
            assert(parts[k] == utf8::encode_utf8(names[0]) || parts[k] == utf8::encode_utf8(names[1]) || parts[k] == utf8::encode_utf8(names[2]) || parts[k] == utf8::encode_utf8(names[3]) || parts[k] == utf8::encode_utf8(names[4]) || parts[k] == utf8::encode_utf8(names[5]) || parts[k] == utf8::encode_utf8(names[6]) || parts[k] == utf8::encode_utf8(names[7]) || parts[k] == utf8::encode_utf8(names[8]) || parts[k] == utf8::encode_utf8(names[9]) || parts[k] == utf8::encode_utf8(names[10]) || parts[k] == utf8::encode_utf8(names[11]) || parts[k] == utf8::encode_utf8(names[12]) || parts[k] == utf8::encode_utf8(names[13]) || parts[k] == utf8::encode_utf8(names[14]) || parts[k] == utf8::encode_utf8(names[15]));
        }
    }
    assert(!is_skipped(rules, files, p)) by {
        assert(parts.last() == parts[parts.len() - 1]);
    }
    if is_sheltered(rules, files, p) {
        let d = choose|d: Seq<u8>| #[trigger]
            disk::is_below(d, p) && is_skipped(rules, files, d);
        assert(files.contains_key(d) && disk::is_proper(d));
        lemma_proper_slashes(d);
        let rest = p.skip(d.len() as int + 1);
        let head = d.push(path::SLASH);
        assert(p == head + rest);
        path::lemma_segments_join(head, rest);
        assert(head.drop_last() == d);
        assert(path::segments(head) == path::segments(d));
        let k = path::segments(d).len() - 1;
        assert(parts[k] == path::segments(d).last());
        if path::is_within(rules.state_root, snapshot::absolute(rules, d)) {
            lemma_within_below(rules, rules.state_root, d, p);
        }
    }
}

/// A change that touches an ordinary path is noticed: where the path is there
/// only before or only after, or leads to something that is recorded
/// otherwise, the summary of the change counts something, and the states differ.
pub proof fn law_changes_are_noticed(
    rules: Rules,
    before: Map<Seq<u8>, Node>,
    after: Map<Seq<u8>, Node>,
    p: Seq<u8>,
    summary: ChangeSummary,
)
    requires
        disk::is_disk(before),
        disk::is_disk(after),
        before.dom().finite(),
        after.dom().finite(),
        path::is_rooted(rules.scope_root),
        after.contains_key(p),
        after[p] !is Other,
        !path::is_within(rules.state_root, path::join(rules.scope_root, p)),
        ({
            let names = seq![
                "node_modules"@,
                "target"@,
                ".venv"@,
                "venv"@,
                "__pycache__"@,
                ".pytest_cache"@,
                ".mypy_cache"@,
                ".cache"@,
                "dist"@,
                "build"@,
                ".next"@,
                ".nuxt"@,
                "coverage"@,
                ".git"@,
                ".hg"@,
                ".svn"@,
            ];
            forall|k: int, i: int|
                #![trigger path::segments(p)[k], names[i]]
                0 <= k < path::segments(p).len() && 0 <= i < names.len() ==> path::segments(p)[k]
                    != utf8::encode_utf8(names[i])
        }),
        before.contains_key(p) ==> disk::entry_of(before[p]) != disk::entry_of(after[p])
            || before[p] is Other,
        history::is_summary(
            disk::snapshot_of(before, ignored(rules, before)),
            disk::snapshot_of(after, ignored(rules, after)),
            summary,
        ) || history::is_summary(
            disk::snapshot_of(after, ignored(rules, after)),
            disk::snapshot_of(before, ignored(rules, before)),
            summary,
        ),
    ensures
        disk::snapshot_of(before, ignored(rules, before)) != disk::snapshot_of(
            after,
            ignored(rules, after),
        ),
        summary.created + summary.modified + summary.deleted > 0,
{
    law_ordinary_paths_are_recorded(rules, after, p);
    let a = disk::snapshot_of(before, ignored(rules, before));
    let b = disk::snapshot_of(after, ignored(rules, after));
    assert(b.contains_key(p) && b[p] == disk::entry_of(after[p]));
    assert(a.contains_key(p) ==> a[p] != b[p]);
    assert(a.dom().subset_of(before.dom()));
    assert(b.dom().subset_of(after.dom()));
    vstd::set_lib::lemma_len_subset(a.dom(), before.dom());
    vstd::set_lib::lemma_len_subset(b.dom(), after.dom());
    if history::is_summary(a, b, summary) {
        history::law_summary_is_empty_iff_unchanged(a, b, summary);
    } else {
        history::law_summary_is_empty_iff_unchanged(b, a, summary);
    }
}

/// Whatever lies below one of the names of version control systems is left out,
/// at any depth; and so is, unless generated directories are asked for, whatever
/// lies below a directory with one of the names of generated ones.
pub proof fn law_listed_names_are_left_out(
    rules: Rules,
    files: Map<Seq<u8>, Node>,
    p: Seq<u8>,
    k: int,
    i: int,
)
    requires
        disk::is_disk(files),
        files.contains_key(p),
        0 <= k < path::segments(p).len(),
    ensures
        ({
            let vcs = seq![".git"@, ".hg"@, ".svn"@];
            0 <= i < vcs.len() && path::segments(p)[k] == utf8::encode_utf8(vcs[i])
                ==> !disk::snapshot_of(files, ignored(rules, files)).contains_key(p)
        }),
        ({
            let generated = seq![
                "node_modules"@,
                "target"@,
                ".venv"@,
                "venv"@,
                "__pycache__"@,
                ".pytest_cache"@,
                ".mypy_cache"@,
                ".cache"@,
                "dist"@,
                "build"@,
                ".next"@,
                ".nuxt"@,
                "coverage"@,
            ];
            0 <= i < generated.len() && path::segments(p)[k] == utf8::encode_utf8(generated[i])
                && !rules.include_generated && (k < path::segments(p).len() - 1
                || files[p] is Directory) ==> !disk::snapshot_of(
                files,
                ignored(rules, files),
            ).contains_key(p)
        }),
{
    let vcs = seq![".git"@, ".hg"@, ".svn"@];
    let generated = seq![
        "node_modules"@,
        "target"@,
        ".venv"@,
        "venv"@,
        "__pycache__"@,
        ".pytest_cache"@,
        ".mypy_cache"@,
        ".cache"@,
        "dist"@,
        "build"@,
        ".next"@,
        ".nuxt"@,
        "coverage"@,
    ];
    let name = path::segments(p)[k];
    assert(disk::is_proper(p));
    snapshot::law_vcs_names(name);
    snapshot::law_generated_names(name);
    if 0 <= i < vcs.len() && name == utf8::encode_utf8(vcs[i]) {
        law_names_are_ignored(rules, files, p, k);
    }
    if 0 <= i < generated.len() && name == utf8::encode_utf8(generated[i])
        && !rules.include_generated && (k < path::segments(p).len() - 1
        || files[p] is Directory) {
        law_names_are_ignored(rules, files, p, k);
    }
}

/// Where generated directories are asked for, their names are names like any
/// other: only version control systems and the checkpoints themselves are left
/// out.
pub proof fn law_generated_directories_are_recorded_on_demand(
    rules: Rules,
    files: Map<Seq<u8>, Node>,
    p: Seq<u8>,
)
    requires
        disk::is_disk(files),
        path::is_rooted(rules.scope_root),
        rules.include_generated,
        files.contains_key(p),
        files[p] !is Other,
        !path::is_within(rules.state_root, path::join(rules.scope_root, p)),
        ({
            let vcs = seq![".git"@, ".hg"@, ".svn"@];
            forall|k: int, i: int|
                #![trigger path::segments(p)[k], vcs[i]]
                0 <= k < path::segments(p).len() && 0 <= i < vcs.len() ==> path::segments(p)[k]
                    != utf8::encode_utf8(vcs[i])
        }),
    ensures
        disk::snapshot_of(files, ignored(rules, files)).contains_key(p),
        disk::snapshot_of(files, ignored(rules, files))[p] == disk::entry_of(files[p]),
{
    let vcs = seq![".git"@, ".hg"@, ".svn"@];
    assert(vcs[0] == ".git"@ && vcs[1] == ".hg"@ && vcs[2] == ".svn"@);
    assert(disk::is_proper(p) && disk::is_reachable(files, p));
    lemma_proper_slashes(p);
    let parts = path::segments(p);
    assert forall|k: int| 0 <= k < parts.len() implies !snapshot::is_vcs_name(
        #[trigger] parts[k],
    ) by {
        assert forall|i: int| 0 <= i < vcs.len() implies parts[k] != utf8::encode_utf8(
            #[trigger] vcs[i],
        ) by {}
        assert(parts[k] != utf8::encode_utf8(vcs[0]) && parts[k] != utf8::encode_utf8(vcs[1])
            && parts[k] != utf8::encode_utf8(vcs[2]));
    }
    assert(!is_skipped(rules, files, p)) by {
        assert(parts.last() == parts[parts.len() - 1]);
    }
    if is_sheltered(rules, files, p) {
        let d = choose|d: Seq<u8>| #[trigger]
            disk::is_below(d, p) && is_skipped(rules, files, d);
        assert(files.contains_key(d) && disk::is_proper(d));
        lemma_proper_slashes(d);
        let rest = p.skip(d.len() as int + 1);
        let head = d.push(path::SLASH);
        assert(p == head + rest);
        path::lemma_segments_join(head, rest);
        assert(head.drop_last() == d);
        assert(path::segments(head) == path::segments(d));
        let k = path::segments(d).len() - 1;
        assert(parts[k] == path::segments(d).last());
        if path::is_within(rules.state_root, snapshot::absolute(rules, d)) {
            lemma_within_below(rules, rules.state_root, d, p);
        }
    }
}

/// What the steps of a snapshot record of something is what a snapshot holds of
/// it.
pub proof fn law_steps_record_what_is_there(content: Seq<u8>, mode: u32)
    ensures
        disk::entry_of(Node::File { content, mode }) == snapshot::file_entry(
            content,
            mode,
            content.len() as u64,
        ),
        disk::entry_of(Node::Symlink { target: content }) == snapshot::link_entry(content),
        disk::entry_of(Node::Directory { mode }) == snapshot::directory_entry(mode),
{
}

} // verus!
