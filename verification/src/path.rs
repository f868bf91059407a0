//! File system paths as byte sequences, with the meaning that `std::path`
//! documents on Unix.

use vstd::prelude::*;

use crate::sequence;
use crate::text::bytes_eq;

verus! {

broadcast use crate::text::lemma_bytes_deep_view;

/// The separator of path segments.
pub const SLASH: u8 = 47;

/// The byte of which the names `.` and `..` are made.
pub const DOT: u8 = 46;

/// Where the last segment of a path starts.
pub open spec fn segment_start(p: Seq<u8>) -> int
    decreases p.len(),
{
    if p.len() == 0 || p.last() == SLASH {
        p.len() as int
    } else {
        segment_start(p.drop_last())
    }
}

/// The segments of a path: what stands between slashes, where that is not
/// empty.
pub open spec fn segments(p: Seq<u8>) -> Seq<Seq<u8>>
    decreases p.len(),
{
    if p.len() == 0 {
        seq![]
    } else if p.last() == SLASH {
        segments(p.drop_last())
    } else {
        let start = segment_start(p);
        proof {
            lemma_segment_start(p);
        }
        segments(p.take(start)).push(p.skip(start))
    }
}

/// The last segment starts within the path.
pub proof fn lemma_segment_start(p: Seq<u8>)
    ensures
        0 <= segment_start(p) <= p.len(),
        p.len() > 0 && p.last() != SLASH ==> segment_start(p) < p.len(),
    decreases p.len(),
{
    if p.len() > 0 && p.last() != SLASH {
        lemma_segment_start(p.drop_last());
    }
}

/// The name of the directory itself.
pub open spec fn dot() -> Seq<u8> {
    seq![DOT]
}

/// The name of the parent directory.
pub open spec fn dot_dot() -> Seq<u8> {
    seq![DOT, DOT]
}

/// The component that stands for the root directory.
pub open spec fn root_component() -> Seq<u8> {
    seq![SLASH]
}

/// Whether a path starts at the root directory.
pub open spec fn is_rooted(p: Seq<u8>) -> bool {
    p.len() > 0 && p[0] == SLASH
}

/// The segments of a path that are not `.`.
pub open spec fn named_segments(p: Seq<u8>) -> Seq<Seq<u8>> {
    segments(p).filter(|s: Seq<u8>| s != dot())
}

/// The components of a path: the root directory, if the path starts there, or
/// else a leading `.`; then each segment other than `.`.
pub open spec fn components(p: Seq<u8>) -> Seq<Seq<u8>> {
    if is_rooted(p) {
        seq![root_component()] + named_segments(p)
    } else if segments(p).len() > 0 && segments(p)[0] == dot() {
        seq![dot()] + named_segments(p)
    } else {
        named_segments(p)
    }
}

/// Whether `path` is `root` or lies below it, component by component.
pub open spec fn is_within(root: Seq<u8>, path: Seq<u8>) -> bool {
    components(root).is_prefix_of(components(path))
}

/// Some segments with slashes between them.
pub open spec fn joined(parts: Seq<Seq<u8>>) -> Seq<u8>
    decreases parts.len(),
{
    if parts.len() == 0 {
        seq![]
    } else if parts.len() == 1 {
        parts[0]
    } else {
        joined(parts.drop_last()).push(SLASH) + parts.last()
    }
}

/// A path seen from a directory.
pub open spec fn join(directory: Seq<u8>, path: Seq<u8>) -> Seq<u8> {
    if is_rooted(path) {
        path
    } else if directory.len() == 0 || directory.last() == SLASH {
        directory + path
    } else {
        directory.push(SLASH) + path
    }
}

/// Whether a path starts with `.` as a component.
pub open spec fn is_dotted(p: Seq<u8>) -> bool {
    !is_rooted(p) && segments(p).len() > 0 && segments(p)[0] == dot()
}

/// How many bytes the root directory, or a leading `.`, has in a path.
pub open spec fn start_len(p: Seq<u8>) -> int {
    if is_rooted(p) || is_dotted(p) {
        1
    } else {
        0
    }
}

/// Whether the first byte of a path is a slash or a segment `.`.
pub open spec fn is_blank_start(p: Seq<u8>) -> bool {
    p.len() > 0 && (p[0] == SLASH || p[0] == DOT && (p.len() == 1 || p[1] == SLASH))
}

/// Whether the last byte of a path is a slash or a segment `.`.
pub open spec fn is_blank_end(p: Seq<u8>) -> bool {
    p.len() > 0 && (p.last() == SLASH || p.last() == DOT && (p.len() == 1 || p[p.len() - 2]
        == SLASH))
}

/// A path without slashes and segments `.` at its start.
pub open spec fn without_start(p: Seq<u8>) -> Seq<u8>
    decreases p.len(),
{
    if is_blank_start(p) {
        without_start(p.skip(1))
    } else {
        p
    }
}

/// A path without slashes and segments `.` at its end, as far as it is longer
/// than `floor`.
pub open spec fn without_end(p: Seq<u8>, floor: int) -> Seq<u8>
    decreases p.len(),
{
    if p.len() > floor && is_blank_end(p) {
        without_end(p.drop_last(), floor)
    } else {
        p
    }
}

/// A path without what stands before its first slash.
pub open spec fn without_segment(p: Seq<u8>) -> Seq<u8>
    decreases p.len(),
{
    if p.len() == 0 || p[0] == SLASH {
        p
    } else {
        without_segment(p.skip(1))
    }
}

/// A path without its first `n` segments that are not `.`.
pub open spec fn without_segments(p: Seq<u8>, n: int) -> Seq<u8>
    decreases n,
{
    if n <= 0 {
        p
    } else {
        without_segments(without_segment(without_start(p)), n - 1)
    }
}

/// The path without its last component, and without slashes and segments `.`
/// at the end of what is left. The root directory and the empty path have no
/// parent.
pub open spec fn parent(p: Seq<u8>) -> Option<Seq<u8>> {
    let floor = start_len(p);
    let body = without_end(p, floor);
    if body.len() > floor {
        Some(without_end(body.take(segment_start(body)), floor))
    } else if is_dotted(p) {
        Some(seq![])
    } else {
        None
    }
}

/// What is left of a path, byte for byte, behind the components of a directory
/// that it lies in, without slashes and segments `.` at both ends.
pub open spec fn rest_behind(root: Seq<u8>, path: Seq<u8>) -> Seq<u8> {
    let n = components(root).len() as int;
    let start = start_len(path);
    if n == 0 {
        without_end(path, start)
    } else {
        without_end(without_start(without_segments(path.skip(start), n - start)), 0)
    }
}

/// The last component of a path, if it is a name.
pub open spec fn file_name(p: Seq<u8>) -> Option<Seq<u8>> {
    let parts = components(p);
    if parts.len() == 0 || parts.last() == root_component() || parts.last() == dot()
        || parts.last() == dot_dot() {
        None
    } else {
        Some(parts.last())
    }
}

/// Whether a byte sequence can be a segment of a path.
pub open spec fn is_segment(s: Seq<u8>) -> bool {
    s.len() > 0 && !s.contains(SLASH)
}

/// Whether a byte sequence can name an entry of a directory.
pub open spec fn is_name(s: Seq<u8>) -> bool {
    is_segment(s) && s != dot() && s != dot_dot()
}

/// A segment appended to a path becomes its last segment.
pub proof fn lemma_segments_push(p: Seq<u8>, name: Seq<u8>)
    requires
        is_segment(name),
        p.len() == 0 || p.last() == SLASH,
    ensures
        segments(p + name) == segments(p).push(name),
{
    let q = p + name;
    lemma_segment_start_at(q, p.len() as int);
    assert(q.last() == name.last());
    assert(name.contains(name.last()));
    assert(q.take(p.len() as int) == p);
    assert(q.skip(p.len() as int) == name);
}

/// The last segment starts behind the last slash.
proof fn lemma_segment_start_at(p: Seq<u8>, k: int)
    requires
        0 <= k <= p.len(),
        forall|i: int| k <= i < p.len() ==> p[i] != SLASH,
        k == 0 || p[k - 1] == SLASH,
    ensures
        segment_start(p) == k,
    decreases p.len() - k,
{
    if k < p.len() {
        lemma_segment_start_at(p.drop_last(), k);
    }
}

/// Segments are nonempty and hold no slash.
pub proof fn lemma_segments_are_segments(p: Seq<u8>)
    ensures
        forall|i: int| 0 <= i < segments(p).len() ==> is_segment(#[trigger] segments(p)[i]),
    decreases p.len(),
{
    if p.len() > 0 {
        if p.last() == SLASH {
            lemma_segments_are_segments(p.drop_last());
            assert(segments(p) == segments(p.drop_last()));
        } else {
            let k = segment_start(p);
            lemma_segment_start(p);
            lemma_segment_start_clear(p);
            lemma_segments_are_segments(p.take(k));
            assert(!p.skip(k).contains(SLASH)) by {
                if p.skip(k).contains(SLASH) {
                    let i = choose|i: int| 0 <= i < p.skip(k).len() && p.skip(k)[i] == SLASH;
                    assert(p[k + i] == SLASH);
                }
            }
            assert forall|i: int| 0 <= i < segments(p).len() implies is_segment(
                #[trigger] segments(p)[i],
            ) by {
                if i < segments(p.take(k)).len() {
                    assert(segments(p)[i] == segments(p.take(k))[i]);
                }
            }
        }
    } else {
        assert(segments(p).len() == 0);
    }
}

pub proof fn lemma_segment_start_clear(p: Seq<u8>)
    ensures
        forall|i: int| segment_start(p) <= i < p.len() ==> p[i] != SLASH,
        segment_start(p) == 0 || p[segment_start(p) - 1] == SLASH,
    decreases p.len(),
{
    lemma_segment_start(p);
    if p.len() > 0 && p.last() != SLASH {
        lemma_segment_start_clear(p.drop_last());
        lemma_segment_start(p.drop_last());
        let k = segment_start(p);
        assert(k == segment_start(p.drop_last()));
        assert forall|i: int| k <= i < p.len() implies p[i] != SLASH by {
            if i < p.len() - 1 {
                assert(p.drop_last()[i] == p[i]);
            }
        }
        if k > 0 {
            assert(p.drop_last()[k - 1] == p[k - 1]);
        }
    }
}

/// A path behind a slash contributes its segments.
pub proof fn lemma_segments_join(p: Seq<u8>, q: Seq<u8>)
    requires
        p.len() == 0 || p.last() == SLASH,
    ensures
        segments(p + q) == segments(p) + segments(q),
    decreases q.len(),
{
    if q.len() == 0 {
        assert(p + q == p);
        assert(segments(p) + segments(q) == segments(p));
    } else if q.last() == SLASH {
        assert((p + q).drop_last() == p + q.drop_last());
        lemma_segments_join(p, q.drop_last());
    } else {
        let k = segment_start(q);
        lemma_segment_start(q);
        lemma_segment_start_clear(q);
        lemma_segments_are_segments(q);
        let head = q.take(k);
        let name = q.skip(k);
        assert(q == head + name);
        assert(segments(q).last() == name);
        lemma_segments_join(p, head);
        assert(p + q == (p + head) + name);
        if k > 0 {
            assert((p + head).last() == q[k - 1]);
        } else {
            assert(p + head == p);
        }
        lemma_segments_push(p + head, name);
        assert(segments(p + q) == segments(p) + segments(head).push(name));
    }
}

/// Joined segments come apart again.
pub proof fn lemma_segments_joined(parts: Seq<Seq<u8>>)
    requires
        forall|i: int| 0 <= i < parts.len() ==> is_segment(#[trigger] parts[i]),
    ensures
        segments(joined(parts)) == parts,
        !is_rooted(joined(parts)),
        parts.len() > 0 ==> joined(parts).len() > 0 && joined(parts).last() != SLASH,
    decreases parts.len(),
{
    if parts.len() == 0 {
        assert(parts == Seq::<Seq<u8>>::empty());
    } else {
        let last = parts.last();
        assert(is_segment(last));
        assert(last.contains(last.last()));
        if parts.len() == 1 {
            lemma_segments_push(seq![], last);
            assert(Seq::<u8>::empty() + last == last);
            assert(segments(Seq::<u8>::empty()) == Seq::<Seq<u8>>::empty());
            assert(parts == Seq::<Seq<u8>>::empty().push(last));
            assert(last.contains(last[0]));
        } else {
            let front = parts.drop_last();
            assert forall|i: int| 0 <= i < front.len() implies is_segment(#[trigger] front[i]) by {
                assert(front[i] == parts[i]);
            }
            lemma_segments_joined(front);
            let p = joined(front).push(SLASH);
            assert(p.drop_last() == joined(front));
            lemma_segments_push(p, last);
            assert(parts == front.push(last));
            assert(joined(parts)[0] == joined(front)[0]);
        }
    }
}

/// The components of a path seen from an absolute directory: those of the
/// directory, then the segments of the path.
pub proof fn lemma_components_join(directory: Seq<u8>, path: Seq<u8>)
    requires
        is_rooted(directory),
        !is_rooted(path),
    ensures
        is_rooted(join(directory, path)),
        components(join(directory, path)) == components(directory) + named_segments(path),
{
    let named = |s: Seq<u8>| s != dot();
    if directory.last() == SLASH {
        lemma_segments_join(directory, path);
    } else {
        let p = directory.push(SLASH);
        assert(p.drop_last() == directory);
        lemma_segments_join(p, path);
    }
    Seq::filter_distributes_over_add(segments(directory), segments(path), named);
    assert(components(join(directory, path)) == seq![root_component()] + (named_segments(directory)
        + named_segments(path)));
}

/// A path that starts with a name has segments, the first of which is what
/// stands before its first slash.
proof fn lemma_first_segment(p: Seq<u8>) -> (j: int)
    requires
        p.len() > 0,
        p[0] != SLASH,
    ensures
        0 < j <= p.len(),
        j < p.len() ==> p[j] == SLASH,
        is_segment(p.take(j)),
        without_segment(p) == p.skip(j),
        segments(p) == seq![p.take(j)] + segments(p.skip(j)),
{
    let j = lemma_first_slash(p, 0);
    let name = p.take(j);
    assert(!name.contains(SLASH)) by {
        if name.contains(SLASH) {
            let i = choose|i: int| 0 <= i < name.len() && name[i] == SLASH;
            assert(p[i] == SLASH);
        }
    }
    assert(p.skip(0) == p);
    lemma_segments_push(seq![], name);
    assert(Seq::<u8>::empty() + name == name);
    assert(segments(Seq::<u8>::empty()) == Seq::<Seq<u8>>::empty());
    assert(segments(name) == seq![name]);
    if j == p.len() {
        assert(p == name);
        assert(p.skip(j) == Seq::<u8>::empty());
        assert(seq![name] + Seq::<Seq<u8>>::empty() == seq![name]);
    } else {
        let front = name.push(SLASH);
        let back = p.skip(j + 1);
        let slash = seq![SLASH];
        assert(p == front + back);
        assert(p.skip(j) == slash + back);
        lemma_segments_join(front, back);
        assert(front.drop_last() == name);
        lemma_slash(back);
    }
    j
}

proof fn lemma_first_slash(p: Seq<u8>, i: int) -> (j: int)
    requires
        0 <= i <= p.len(),
    ensures
        i <= j <= p.len(),
        i < p.len() && p[i] != SLASH ==> i < j,
        j < p.len() ==> p[j] == SLASH,
        forall|k: int| i <= k < j ==> p[k] != SLASH,
        without_segment(p.skip(i)) == p.skip(j),
    decreases p.len() - i,
{
    if i == p.len() || p[i] == SLASH {
        i
    } else {
        assert(p.skip(i).skip(1) == p.skip(i + 1));
        lemma_first_slash(p, i + 1)
    }
}

/// A slash in front adds no segment.
proof fn lemma_slash(p: Seq<u8>)
    ensures
        segments(seq![SLASH] + p) == segments(p),
{
    let slash = seq![SLASH];
    lemma_segments_join(slash, p);
    assert(slash.drop_last() == Seq::<u8>::empty());
    assert(segments(slash) == segments(slash.drop_last()));
    assert(segments(slash) == Seq::<Seq<u8>>::empty());
    assert(Seq::<Seq<u8>>::empty() + segments(p) == segments(p));
}

/// A segment more or less at the front or at the end of a path.
proof fn lemma_named_add(a: Seq<Seq<u8>>, b: Seq<Seq<u8>>)
    ensures
        (a + b).filter(|s: Seq<u8>| s != dot()) == a.filter(|s: Seq<u8>| s != dot()) + b.filter(
            |s: Seq<u8>| s != dot(),
        ),
{
    let named = |s: Seq<u8>| s != dot();
    Seq::filter_distributes_over_add(a, b, named);
}

/// What stands at the start of a path without meaning makes no difference.
proof fn lemma_without_start(p: Seq<u8>)
    ensures
        named_segments(without_start(p)) == named_segments(p),
        !is_blank_start(without_start(p)),
    decreases p.len(),
{
    if is_blank_start(p) {
        let q = p.skip(1);
        lemma_without_start(q);
        if p[0] == SLASH {
            assert(p == seq![SLASH] + q);
            lemma_slash(q);
        } else {
            let named = |s: Seq<u8>| s != dot();
            let j = lemma_first_segment(p);
            assert(p.take(j) == dot()) by {
                if j > 1 {
                    assert(p.take(j).contains(p[1])) by {
                        assert(p.take(j)[1] == p[1]);
                    }
                }
                assert(p.take(j) =~= dot());
            }
            assert(j == 1);
            lemma_named_add(seq![dot()], segments(q));
            sequence::lemma_filter_one(dot(), named);
            assert(Seq::<Seq<u8>>::empty() + named_segments(q) == named_segments(q));
        }
    }
}

/// What stands at the end of a path without meaning makes no difference.
proof fn lemma_without_end(p: Seq<u8>, floor: int)
    requires
        0 <= floor,
    ensures
        without_end(p, floor).len() <= p.len(),
        without_end(p, floor) == p.take(without_end(p, floor).len() as int),
        p.len() >= floor ==> without_end(p, floor).len() >= floor,
        without_end(p, floor).len() > floor ==> !is_blank_end(without_end(p, floor)),
        named_segments(without_end(p, floor)) == named_segments(p),
        floor == start_len(p) ==> is_rooted(without_end(p, floor)) == is_rooted(p) && is_dotted(
            without_end(p, floor),
        ) == is_dotted(p),
    decreases p.len(),
{
    if p.len() > floor && is_blank_end(p) {
        let q = p.drop_last();
        lemma_without_end(q, floor);
        let r = without_end(q, floor);
        assert(r == p.take(r.len() as int));
        let named = |s: Seq<u8>| s != dot();
        if p.last() == SLASH {
            assert(segments(p) == segments(q));
        } else {
            assert(p == q + dot());
            if q.len() > 0 {
                assert(q.last() == p[p.len() - 2]);
            }
            assert(dot()[0] == DOT);
            assert(is_segment(dot())) by {
                if dot().contains(SLASH) {
                    let i = choose|i: int| 0 <= i < dot().len() && dot()[i] == SLASH;
                    assert(dot()[i] == DOT);
                }
            }
            lemma_segments_push(q, dot());
            assert(segments(p) == segments(q) + seq![dot()]);
            lemma_named_add(segments(q), seq![dot()]);
            sequence::lemma_filter_one(dot(), named);
            assert(named_segments(q) + Seq::<Seq<u8>>::empty() == named_segments(q));
        }
        if floor == start_len(p) {
            if q.len() > 0 {
                assert(q[0] == p[0]);
                if q[0] != SLASH {
                    let j = lemma_first_segment(q);
                    assert(segments(q).len() > 0);
                    assert(segments(p)[0] == segments(q)[0]);
                }
            } else {
                assert(segments(q) == Seq::<Seq<u8>>::empty());
                if p.last() != SLASH {
                    assert(segments(p)[0] == dot());
                }
            }
            assert(start_len(q) == floor);
        }
    } else {
        assert(p == p.take(p.len() as int));
    }
}

/// What stands before the last segment of a path has its components but that
/// segment.
#[verifier::spinoff_prover]
proof fn lemma_last_segment(body: Seq<u8>, floor: int)
    requires
        floor == start_len(body),
        body.len() > floor,
        !is_blank_end(body),
    ensures
        ({
            let head = body.take(segment_start(body));
            let name = body.skip(segment_start(body));
            &&& components(body) == components(head).push(name)
            &&& name != root_component()
            &&& start_len(head) == floor
            &&& is_rooted(head) == is_rooted(body)
        }),
{
    let named = |s: Seq<u8>| s != dot();
    let k = segment_start(body);
    lemma_segment_start(body);
    lemma_segment_start_clear(body);
    let head = body.take(k);
    let name = body.skip(k);
    assert(segments(body) == segments(head).push(name));
    assert(name != dot()) by {
        if name == dot() {
            assert(name.len() == 1);
            assert(body.last() == name[0]);
        }
    }
    assert(name != root_component()) by {
        if name == root_component() {
            assert(body.last() == name.last());
        }
    }
    assert(segments(body) == segments(head) + seq![name]);
    lemma_named_add(segments(head), seq![name]);
    sequence::lemma_filter_one(name, named);
    assert(named_segments(body) == named_segments(head).push(name));
    if is_rooted(body) {
        assert(k > 0);
        assert(head[0] == body[0]);
    } else if k > 0 {
        assert(head[0] == body[0]);
        let j = lemma_first_segment(head);
        assert(segments(head)[0] == segments(body)[0]);
    } else {
        assert(head == Seq::<u8>::empty());
        assert(segments(head) == Seq::<Seq<u8>>::empty());
        assert(segments(body)[0] == name);
    }
    assert(components(body) == components(head).push(name));
    assert(start_len(head) == floor);
}

/// The parent of a path has its components but the last. Only a path without
/// components and the root directory have none.
#[verifier::spinoff_prover]
pub proof fn law_parent_drops_one_component(p: Seq<u8>)
    ensures
        match parent(p) {
            Some(above) => components(p).len() > 0 && components(above) == components(
                p,
            ).drop_last() && components(p).last() != root_component() && (is_rooted(p)
                ==> is_rooted(above)),
            None => components(p).len() == 0 || components(p) == seq![root_component()],
        },
{
    let named = |s: Seq<u8>| s != dot();
    let floor = start_len(p);
    let body = without_end(p, floor);
    lemma_without_end(p, floor);
    assert(components(body) == components(p));
    if body.len() > floor {
        lemma_last_segment(body, floor);
        let head = body.take(segment_start(body));
        lemma_without_end(head, floor);
        let above = without_end(head, floor);
        assert(components(above) == components(head));
        assert(components(p).drop_last() == components(head));
    } else if floor == 1 {
        assert(body == seq![body[0]]);
        if is_rooted(p) {
            lemma_slash(Seq::<u8>::empty());
            assert(body == seq![SLASH] + Seq::<u8>::empty());
            assert(segments(Seq::<u8>::empty()) == Seq::<Seq<u8>>::empty());
            sequence::lemma_filter_none(segments(body), named);
        } else {
            let j = lemma_first_segment(body);
            assert(body.take(j) == body);
            assert(body.skip(j) == Seq::<u8>::empty());
            assert(segments(Seq::<u8>::empty()) == Seq::<Seq<u8>>::empty());
            assert(segments(body) == seq![dot()]);
            sequence::lemma_filter_one(dot(), named);
            assert(components(p) == seq![dot()]);
            let none = Seq::<u8>::empty();
            sequence::lemma_filter_none(segments(none), named);
            assert(components(none) == Seq::<Seq<u8>>::empty());
        }
    } else {
        assert(body == Seq::<u8>::empty());
        assert(segments(body) == Seq::<Seq<u8>>::empty());
        sequence::lemma_filter_none(segments(body), named);
    }
}

proof fn lemma_without_segments(p: Seq<u8>, n: int)
    requires
        0 <= n <= named_segments(p).len(),
    ensures
        named_segments(without_segments(p, n)) == named_segments(p).skip(n),
    decreases n,
{
    if n == 0 {
        assert(named_segments(p).skip(0) == named_segments(p));
    } else {
        let named = |s: Seq<u8>| s != dot();
        let t = without_start(p);
        lemma_without_start(p);
        assert(t.len() > 0) by {
            if t.len() == 0 {
                assert(segments(t) == Seq::<Seq<u8>>::empty());
                sequence::lemma_filter_none(segments(t), named);
            }
        }
        let j = lemma_first_segment(t);
        let name = t.take(j);
        let rest = t.skip(j);
        assert(name != dot()) by {
            if name == dot() {
                assert(j == 1);
                assert(t[0] == name[0]);
            }
        }
        lemma_named_add(seq![name], segments(rest));
        sequence::lemma_filter_one(name, named);
        assert(named_segments(t) == seq![name] + named_segments(rest));
        lemma_without_segments(rest, n - 1);
        assert(named_segments(p).skip(n) == named_segments(rest).skip(n - 1));
    }
}

/// Behind a directory, what is left of a path that lies in it has the names of
/// the components that are left; and seen from that directory, where it is an
/// absolute one, it leads to the path.
pub proof fn law_rest_leads_back(root: Seq<u8>, path: Seq<u8>)
    requires
        is_within(root, path),
        components(root).len() > 0,
    ensures
        !is_rooted(rest_behind(root, path)),
        named_segments(rest_behind(root, path)) == components(path).skip(
            components(root).len() as int,
        ),
        is_rooted(root) ==> components(join(root, rest_behind(root, path))) == components(path),
{
    let named = |s: Seq<u8>| s != dot();
    let n = components(root).len() as int;
    let start = start_len(path);
    let body = path.skip(start);
    let all = components(path);
    assert(n <= all.len());
    assert(named_segments(body) == all.skip(start)) by {
        if is_rooted(path) {
            assert(path == seq![SLASH] + body);
            lemma_slash(body);
            assert(all.skip(1) == named_segments(path));
        } else if is_dotted(path) {
            assert(path.len() > 0) by {
                if path.len() == 0 {
                    assert(segments(path) == Seq::<Seq<u8>>::empty());
                }
            }
            let j = lemma_first_segment(path);
            assert(path.take(j) == segments(path)[0]);
            assert(j == 1);
            lemma_named_add(seq![dot()], segments(body));
            sequence::lemma_filter_one(dot(), named);
            assert(Seq::<Seq<u8>>::empty() + named_segments(body) == named_segments(body));
            assert(named_segments(path) == named_segments(body));
            assert(all.skip(1) == named_segments(path));
        } else {
            assert(body == path);
            assert(all.skip(0) == all);
        }
    }
    let tail = without_segments(body, n - start);
    lemma_without_segments(body, n - start);
    let trimmed = without_start(tail);
    lemma_without_start(tail);
    lemma_without_end(trimmed, 0);
    let rest = without_end(trimmed, 0);
    assert(rest == rest_behind(root, path));
    assert(!is_rooted(rest)) by {
        if rest.len() > 0 {
            assert(rest[0] == trimmed[0]);
        }
    }
    assert(all.skip(start).skip(n - start) == all.skip(n));
    if is_rooted(root) {
        lemma_components_join(root, rest);
        assert(components(root) == all.take(n));
        assert(all == all.take(n) + all.skip(n));
    }
}

/// Whether a path starts at the root directory.
pub fn rooted(p: &[u8]) -> (r: bool)
    ensures
        r == is_rooted(p@),
{
    p.len() > 0 && p[0] == SLASH
}

/// The segments of a path.
fn split_segments(p: &[u8]) -> (r: Vec<Vec<u8>>)
    ensures
        r.deep_view() == segments(p@),
{
    let n = p.len();
    let mut r: Vec<Vec<u8>> = Vec::new();
    let mut i: usize = 0;
    while i < n
        invariant
            i <= n,
            n == p@.len(),
            i == 0 || i == n || p@[i - 1] == SLASH,
            r.deep_view() == segments(p@.take(i as int)),
        decreases n - i,
    {
        let start = i;
        let ghost head = p@.take(start as int);
        let ghost done = r.deep_view();
        if start > 0 {
            assert(head.last() == p@[start - 1]);
        }
        while i < n && p[i] != SLASH
            invariant
                start <= i <= n,
                n == p@.len(),
                forall|k: int| start <= k < i ==> p@[k] != SLASH,
            decreases n - i,
        {
            i = i + 1;
        }
        let ghost body = p@.subrange(start as int, i as int);
        assert(p@.take(i as int) == head + body);
        if i > start {
            r.push(vstd::slice::slice_to_vec(vstd::slice::slice_subrange(p, start, i)));
            proof {
                assert(!body.contains(SLASH)) by {
                    if body.contains(SLASH) {
                        let k = choose|k: int| 0 <= k < body.len() && body[k] == SLASH;
                        assert(p@[start + k] == SLASH);
                    }
                }
                assert(r.deep_view() == done.push(body));
                lemma_segments_push(head, body);
            }
        } else {
            assert(p@.take(i as int) == head);
        }
        if i < n {
            assert(p@.take(i + 1).drop_last() == p@.take(i as int));
            assert(p@.take(i + 1).last() == SLASH);
            i = i + 1;
        }
    }
    assert(p@.take(n as int) == p@);
    r
}

/// The last segment of a path, if it has any.
pub fn last_segment(p: &[u8]) -> (r: Option<Vec<u8>>)
    ensures
        segments(p@).len() == 0 ==> r is None,
        segments(p@).len() > 0 ==> r.deep_view() == Some(segments(p@).last()),
{
    let mut parts = split_segments(p);
    let ghost all = parts.deep_view();
    let last = parts.pop();
    if let Some(name) = &last {
        assert(all.last() == name@);
    }
    last
}

fn is_dot(s: &[u8]) -> (r: bool)
    ensures
        r == (s@ == dot()),
{
    let r = s.len() == 1 && s[0] == DOT;
    assert(r ==> s@ == dot());
    r
}

fn is_dot_dot(s: &[u8]) -> (r: bool)
    ensures
        r == (s@ == dot_dot()),
{
    let r = s.len() == 2 && s[0] == DOT && s[1] == DOT;
    assert(r ==> s@ == dot_dot());
    r
}

fn is_root(s: &[u8]) -> (r: bool)
    ensures
        r == (s@ == root_component()),
{
    let r = s.len() == 1 && s[0] == SLASH;
    assert(r ==> s@ == root_component());
    r
}

fn copy(s: &[u8]) -> (r: Vec<u8>)
    ensures
        r@ == s@,
{
    vstd::slice::slice_to_vec(s)
}

/// Adds the segments of a path other than `.` to some components.
fn push_named(p: &[u8], r: &mut Vec<Vec<u8>>)
    ensures
        final(r).deep_view() == old(r).deep_view() + named_segments(p@),
{
    let parts = split_segments(p);
    let n = parts.len();
    let mut i: usize = 0;
    let ghost named = |s: Seq<u8>| s != dot();
    let ghost all = parts.deep_view();
    let ghost first = r.deep_view();
    proof {
        reveal(Seq::filter);
        assert(all.take(0).filter(named) == Seq::<Seq<u8>>::empty());
        assert(first + Seq::<Seq<u8>>::empty() == first);
    }
    while i < n
        invariant
            i <= n,
            n == parts@.len(),
            all == parts.deep_view(),
            named == (|s: Seq<u8>| s != dot()),
            r.deep_view() == first + all.take(i as int).filter(named),
        decreases n - i,
    {
        let ghost sofar = r.deep_view();
        proof {
            reveal(Seq::filter);
            assert(all.take(i + 1).drop_last() == all.take(i as int));
            assert(all.take(i + 1).last() == parts@[i as int]@);
        }
        if !is_dot(parts[i].as_slice()) {
            r.push(copy(parts[i].as_slice()));
            assert(r.deep_view() == sofar.push(parts@[i as int]@));
            assert(r.deep_view() == first + all.take(i + 1).filter(named));
        }
        i = i + 1;
    }
    assert(all.take(n as int) == all);
}

/// A path without empty and `.` segments, unless it names a parent directory.
pub fn clean_relative(p: &[u8]) -> (r: Option<Vec<u8>>)
    ensures
        r is Some <==> !segments(p@).contains(dot_dot()),
        r matches Some(clean) ==> clean@ == joined(named_segments(p@)),
{
    let parts = split_segments(p);
    let n = parts.len();
    let mut i: usize = 0;
    while i < n
        invariant
            i <= n,
            n == parts@.len(),
            parts.deep_view() == segments(p@),
            forall|k: int| 0 <= k < i ==> segments(p@)[k] != dot_dot(),
        decreases n - i,
    {
        assert(segments(p@)[i as int] == parts@[i as int]@);
        if is_dot_dot(parts[i].as_slice()) {
            return None;
        }
        i = i + 1;
    }
    let mut named: Vec<Vec<u8>> = Vec::new();
    push_named(p, &mut named);
    proof {
        assert(named.deep_view() == named_segments(p@));
        assert(named.deep_view().subrange(0, named@.len() as int) == named.deep_view());
    }
    Some(join_parts(&named, 0, named.len()))
}

/// The components of a path.
pub fn split_components(p: &[u8]) -> (r: Vec<Vec<u8>>)
    ensures
        r.deep_view() == components(p@),
{
    let mut r: Vec<Vec<u8>> = Vec::new();
    assert(r.deep_view() == Seq::<Seq<u8>>::empty());
    if rooted(p) {
        let mut root: Vec<u8> = Vec::new();
        root.push(SLASH);
        assert(root@ == root_component());
        r.push(root);
        assert(r.deep_view() == seq![root_component()]);
        push_named(p, &mut r);
        return r;
    }
    let parts = split_segments(p);
    if parts.len() > 0 && is_dot(parts[0].as_slice()) {
        assert(segments(p@)[0] == parts@[0]@);
        r.push(copy(parts[0].as_slice()));
        assert(r.deep_view() == seq![dot()]);
        push_named(p, &mut r);
        return r;
    }
    proof {
        if parts@.len() > 0 {
            assert(segments(p@)[0] == parts@[0]@);
        }
    }
    push_named(p, &mut r);
    assert(Seq::<Seq<u8>>::empty() + named_segments(p@) == named_segments(p@));
    r
}

/// Whether `path` is `root` or lies below it.
pub fn within(root: &[u8], path: &[u8]) -> (r: bool)
    ensures
        r == is_within(root@, path@),
{
    let a = split_components(root);
    let b = split_components(path);
    let ghost x = a.deep_view();
    let ghost y = b.deep_view();
    if a.len() > b.len() {
        return false;
    }
    let n = a.len();
    let mut i: usize = 0;
    while i < n
        invariant
            i <= n,
            n == a@.len(),
            n <= b@.len(),
            x == a.deep_view(),
            y == b.deep_view(),
            x == components(root@),
            y == components(path@),
            forall|k: int| 0 <= k < i ==> x[k] == y[k],
        decreases n - i,
    {
        if !bytes_eq(a[i].as_slice(), b[i].as_slice()) {
            assert(x[i as int] != y[i as int]);
            assert(y.take(n as int)[i as int] == y[i as int]);
            return false;
        }
        assert(x[i as int] == y[i as int]);
        i = i + 1;
    }
    assert(y.take(n as int) == x);
    true
}

/// Some segments with slashes between them, from the segment at `from` on.
fn join_parts(parts: &Vec<Vec<u8>>, from: usize, to: usize) -> (r: Vec<u8>)
    requires
        from <= to <= parts@.len(),
    ensures
        r@ == joined(parts.deep_view().subrange(from as int, to as int)),
{
    let mut r: Vec<u8> = Vec::new();
    let ghost all = parts.deep_view();
    let mut i: usize = from;
    while i < to
        invariant
            from <= i <= to <= parts@.len(),
            all == parts.deep_view(),
            r@ == joined(all.subrange(from as int, i as int)),
        decreases to - i,
    {
        let ghost now = all.subrange(from as int, i as int);
        let ghost next = all.subrange(from as int, i + 1);
        assert(next.drop_last() == now);
        assert(next.last() == parts@[i as int]@);
        if i > from {
            r.push(SLASH);
        } else {
            assert(now.len() == 0);
        }
        let mut part = copy(parts[i].as_slice());
        let ghost sofar = r@;
        r.append(&mut part);
        proof {
            assert(r@ == sofar + parts@[i as int]@);
            if i == from {
                assert(r@ == parts@[i as int]@);
                assert(next[0] == parts@[i as int]@);
            }
        }
        i = i + 1;
    }
    r
}

/// A path seen from a directory.
pub fn join_path(directory: &[u8], path: &[u8]) -> (r: Vec<u8>)
    ensures
        r@ == join(directory@, path@),
{
    if rooted(path) {
        return copy(path);
    }
    let mut r = copy(directory);
    if directory.len() > 0 && directory[directory.len() - 1] != SLASH {
        r.push(SLASH);
    }
    let mut rest = copy(path);
    r.append(&mut rest);
    r
}

/// How many bytes the root directory, or a leading `.`, has in a path.
fn start_size(p: &[u8]) -> (n: usize)
    ensures
        n == start_len(p@),
        n <= p@.len(),
{
    if rooted(p) {
        return 1;
    }
    let parts = split_segments(p);
    if parts.len() > 0 && is_dot(parts[0].as_slice()) {
        proof {
            assert(parts.deep_view()[0] == parts@[0]@);
            if p@.len() == 0 {
                assert(segments(p@) == Seq::<Seq<u8>>::empty());
            }
        }
        1
    } else {
        proof {
            if parts@.len() > 0 {
                assert(parts.deep_view()[0] == parts@[0]@);
            }
        }
        0
    }
}

/// Where the slashes and segments `.` at the start of the rest of a path end.
fn skip_start(p: &[u8], from: usize) -> (i: usize)
    requires
        from <= p@.len(),
    ensures
        from <= i <= p@.len(),
        p@.skip(i as int) == without_start(p@.skip(from as int)),
{
    let n = p.len();
    let mut i: usize = from;
    while i < n && (p[i] == SLASH || p[i] == DOT && (n - i == 1 || p[i + 1] == SLASH))
        invariant
            from <= i <= n,
            n == p@.len(),
            without_start(p@.skip(i as int)) == without_start(p@.skip(from as int)),
        decreases n - i,
    {
        assert(p@.skip(i as int).skip(1) == p@.skip(i + 1));
        i = i + 1;
    }
    i
}

/// Where the slashes and segments `.` at the end of a path start.
fn skip_end(p: &[u8], floor: usize) -> (n: usize)
    ensures
        n <= p@.len(),
        p@.take(n as int) == without_end(p@, floor as int),
{
    let mut n = p.len();
    assert(p@.take(n as int) == p@);
    while n > floor && (p[n - 1] == SLASH || p[n - 1] == DOT && (n == 1 || p[n - 2] == SLASH))
        invariant
            n <= p@.len(),
            without_end(p@.take(n as int), floor as int) == without_end(p@, floor as int),
        decreases n,
    {
        assert(p@.take(n as int).drop_last() == p@.take(n - 1));
        n = n - 1;
    }
    n
}

/// Where the first slash of the rest of a path is, or its end.
fn skip_segment(p: &[u8], from: usize) -> (i: usize)
    requires
        from <= p@.len(),
    ensures
        from <= i <= p@.len(),
        p@.skip(i as int) == without_segment(p@.skip(from as int)),
{
    let n = p.len();
    let mut i: usize = from;
    while i < n && p[i] != SLASH
        invariant
            from <= i <= n,
            n == p@.len(),
            without_segment(p@.skip(i as int)) == without_segment(p@.skip(from as int)),
        decreases n - i,
    {
        assert(p@.skip(i as int).skip(1) == p@.skip(i + 1));
        i = i + 1;
    }
    i
}

/// The path without its last component.
pub fn parent_path(p: &[u8]) -> (r: Option<Vec<u8>>)
    ensures
        r.deep_view() == parent(p@),
{
    let floor = start_size(p);
    let n = skip_end(p, floor);
    let ghost body = without_end(p@, floor as int);
    if n > floor {
        let mut k = n;
        proof {
            assert(body.take(n as int) == body);
            lemma_segment_start(body);
        }
        while k > 0 && p[k - 1] != SLASH
            invariant
                k <= n <= p@.len(),
                body == p@.take(n as int),
                segment_start(body.take(k as int)) == segment_start(body),
            decreases k,
        {
            assert(body.take(k as int).last() == p@[k - 1]);
            assert(body.take(k as int).drop_last() == body.take(k - 1));
            k = k - 1;
        }
        proof {
            if k > 0 {
                assert(body.take(k as int).last() == p@[k - 1]);
            }
        }
        let head = vstd::slice::slice_subrange(p, 0, k);
        assert(head@ == body.take(k as int));
        let m = skip_end(head, floor);
        let above = vstd::slice::slice_subrange(head, 0, m);
        assert(above@ == head@.take(m as int));
        Some(copy(above))
    } else if floor == 1 && !rooted(p) {
        let none: Vec<u8> = Vec::new();
        Some(none)
    } else {
        None
    }
}

/// What is left of a path behind a directory that it lies in.
pub fn remainder(root: &[u8], path: &[u8]) -> (r: Vec<u8>)
    requires
        is_within(root@, path@),
    ensures
        r@ == rest_behind(root@, path@),
{
    let above = split_components(root);
    let n = above.len();
    let start = start_size(path);
    if n == 0 {
        let end = skip_end(path, start);
        let rest = vstd::slice::slice_subrange(path, 0, end);
        assert(rest@ == path@.take(end as int));
        return copy(rest);
    }
    let mut i: usize = start;
    let mut left: usize = n - start;
    while left > 0
        invariant
            i <= path@.len(),
            left <= n - start,
            start <= n,
            without_segments(path@.skip(i as int), left as int) == without_segments(
                path@.skip(start as int),
                n - start,
            ),
        decreases left,
    {
        let j = skip_start(path, i);
        i = skip_segment(path, j);
        left = left - 1;
    }
    i = skip_start(path, i);
    let tail = vstd::slice::slice_subrange(path, i, path.len());
    assert(tail@ == path@.skip(i as int));
    let end = skip_end(tail, 0);
    let rest = vstd::slice::slice_subrange(tail, 0, end);
    assert(rest@ == tail@.take(end as int));
    copy(rest)
}

/// The last component of a path, if it is a name.
pub fn last_name(p: &[u8]) -> (r: Option<Vec<u8>>)
    ensures
        r.deep_view() == file_name(p@),
{
    let parts = split_components(p);
    let n = parts.len();
    if n == 0 {
        return None;
    }
    assert(parts.deep_view().last() == parts@[n - 1]@);
    let last = parts[n - 1].as_slice();
    if is_root(last) || is_dot(last) || is_dot_dot(last) {
        return None;
    }
    Some(copy(last))
}

/// The segments of a path are what stands between its slashes, in their order.
pub proof fn law_segments_stand_between_slashes(p: Seq<u8>, name: Seq<u8>)
    requires
        name.len() > 0,
        !name.contains(0x2f),
    ensures
        segments(seq![]) == Seq::<Seq<u8>>::empty(),
        segments(name) == seq![name],
        segments(p.push(0x2f)) == segments(p),
        segments(p.push(0x2f) + name) == segments(p).push(name),
        segments(seq![0x2fu8] + p) == segments(p),
{
    let slashed = p.push(0x2f);
    assert(slashed.drop_last() == p);
    lemma_segments_push(seq![], name);
    assert(Seq::<u8>::empty() + name == name);
    assert(segments(Seq::<u8>::empty()).push(name) == seq![name]);
    lemma_segments_push(slashed, name);
    lemma_slash(p);
}

/// What stands behind a path and a slash is appended to its components, name by
/// name; a dot between slashes, and a slash at the end, add nothing.
pub proof fn law_components_are_appended(p: Seq<u8>, rest: Seq<u8>, name: Seq<u8>)
    requires
        p.len() > 0,
        name.len() > 0,
        !name.contains(0x2f),
        name != seq![0x2eu8],
    ensures
        components(p.push(0x2f) + rest) == components(p) + named_segments(rest),
        components(p.push(0x2f)) == components(p),
        components(p.push(0x2f).push(0x2e)) == components(p),
        components(p.push(0x2f) + name) == components(p).push(name),
        components(name) == seq![name],
        components(seq![0x2fu8]) == seq![seq![0x2fu8]],
        components(seq![]) == Seq::<Seq<u8>>::empty(),
        is_within(p, p),
        is_within(p, p.push(0x2f) + rest),
{
    let slashed = p.push(0x2f);
    law_segments_stand_between_slashes(p, name);
    law_segments_stand_between_slashes(p, dot());
    lemma_behind_slash(p, rest);
    lemma_behind_slash(p, seq![]);
    lemma_behind_slash(p, dot());
    lemma_behind_slash(p, name);
    assert(slashed + Seq::<u8>::empty() == slashed);
    assert(slashed + dot() == slashed.push(0x2e));
    let named = |s: Seq<u8>| s != dot();
    reveal(Seq::filter);
    assert(seq![name].drop_last() == Seq::<Seq<u8>>::empty());
    assert(seq![name].filter(named) == seq![name]);
    assert(seq![dot()].drop_last() == Seq::<Seq<u8>>::empty());
    assert(seq![dot()].filter(named) == Seq::<Seq<u8>>::empty());
    assert(Seq::<Seq<u8>>::empty().filter(named) == Seq::<Seq<u8>>::empty());
    assert(name[0] != 0x2f) by {
        if name[0] == 0x2f {
            assert(name.contains(0x2f));
        }
    }
    law_segments_stand_between_slashes(seq![], name);
    assert(Seq::<u8>::empty().push(0x2f) == seq![0x2fu8]);
    assert(components(seq![0x2fu8]) == seq![seq![0x2fu8]]);
    let longer = components(slashed + rest);
    assert(longer.take(components(p).len() as int) == components(p));
}

proof fn lemma_behind_slash(p: Seq<u8>, rest: Seq<u8>)
    requires
        p.len() > 0,
    ensures
        components(p.push(SLASH) + rest) == components(p) + named_segments(rest),
{
    let slashed = p.push(SLASH);
    let whole = slashed + rest;
    assert(slashed.drop_last() == p);
    lemma_segments_join(slashed, rest);
    lemma_named_add(segments(p), segments(rest));
    assert(whole[0] == p[0]);
    if !is_rooted(p) {
        let j = lemma_first_segment(p);
        assert(segments(whole)[0] == segments(p)[0]);
    }
}

/// A path that goes on with the last name of another is not within it, however
/// it goes on: only a slash leads into a directory.
pub proof fn law_longer_names_are_not_within(root: Seq<u8>, more: Seq<u8>)
    requires
        root.len() > 0,
        root.last() != 0x2f,
        segments(root).last() != seq![0x2eu8],
        more.len() > 0,
        more[0] != 0x2f,
    ensures
        !is_within(root, root + more),
{
    lemma_segment_start(root);
    lemma_segment_start_clear(root);
    let start = segment_start(root);
    let head = root.take(start);
    let last = root.skip(start);
    let whole = last + more;
    assert(root == head + last);
    assert(root + more == head + whole);
    lemma_segments_join(head, whole);
    assert(segments(root) == segments(head).push(last));
    assert(whole[0] == root[start]);
    let j = lemma_first_segment(whole);
    assert(j > last.len()) by {
        if j <= last.len() {
            if j < last.len() {
                assert(whole[j] == root[start + j]);
            } else {
                assert(whole[j] == more[0]);
            }
        }
    }
    let longer = whole.take(j);
    let rest = segments(whole.skip(j));
    let named = |s: Seq<u8>| s != dot();
    assert(segments(root) == segments(head) + seq![last]);
    assert(segments(root + more) == segments(head) + (seq![longer] + rest));
    lemma_named_add(segments(head), seq![last]);
    lemma_named_add(segments(head), seq![longer] + rest);
    lemma_named_add(seq![longer], rest);
    reveal(Seq::filter);
    assert(seq![last].drop_last() == Seq::<Seq<u8>>::empty());
    assert(seq![longer].drop_last() == Seq::<Seq<u8>>::empty());
    assert(seq![last].filter(named) == seq![last]);
    assert(seq![longer].filter(named) == seq![longer]);
    assert((root + more)[0] == root[0]);
    let k = components(root).len() - 1;
    assert(components(root)[k] == last);
    assert(components(root + more)[k] == longer);
}

/// Neither is an absolute path within a relative one, nor the other way round.
pub proof fn law_roots_are_kept_apart(root: Seq<u8>, path: Seq<u8>)
    requires
        components(root).len() > 0,
        is_within(root, path),
    ensures
        root[0] == 0x2f <==> path[0] == 0x2f,
{
    assert(components(root)[0] == components(path)[0]);
    lemma_segments_are_segments(root);
    lemma_segments_are_segments(path);
    lemma_named_are_segments(root);
    lemma_named_are_segments(path);
    assert(root_component()[0] == SLASH);
    assert(root_component().contains(SLASH));
    assert(!dot().contains(SLASH)) by {
        assert(forall|i: int| 0 <= i < dot().len() ==> dot()[i] != SLASH);
    }
    if root.len() == 0 {
        assert(segments(root) == Seq::<Seq<u8>>::empty());
        reveal(Seq::filter);
    }
    if path.len() == 0 {
        assert(segments(path) == Seq::<Seq<u8>>::empty());
        reveal(Seq::filter);
    }
}

proof fn lemma_named_are_segments(p: Seq<u8>)
    ensures
        forall|i: int|
            0 <= i < named_segments(p).len() ==> is_segment(#[trigger] named_segments(p)[i]),
{
    lemma_segments_are_segments(p);
    let named = |s: Seq<u8>| s != dot();
    crate::sequence::lemma_filter_members(segments(p), named);
}

/// The name of a file is what stands behind the last slash of its path; a dot or
/// two are no name.
pub proof fn law_file_names_stand_behind_the_last_slash(p: Seq<u8>, name: Seq<u8>)
    requires
        p.len() > 0,
        name.len() > 0,
        !name.contains(0x2f),
        name != seq![0x2eu8],
    ensures
        name != seq![0x2eu8, 0x2e] ==> file_name(p.push(0x2f) + name) == Some(name),
        name != seq![0x2eu8, 0x2e] ==> file_name(name) == Some(name),
        name == seq![0x2eu8, 0x2e] ==> file_name(p.push(0x2f) + name) is None,
        file_name(p.push(0x2f)) == file_name(p),
        file_name(seq![0x2fu8]) is None,
        file_name(seq![]) is None,
{
    law_components_are_appended(p, seq![], name);
    assert(seq![0x2eu8, 0x2e] == dot_dot());
    assert(name != root_component()) by {
        assert(root_component()[0] == 0x2f);
        if name == root_component() {
            assert(name.contains(0x2f));
        }
    }
}

/// The parent of what stands in a directory is the directory.
pub proof fn law_parent_is_what_stands_before_the_last_slash(p: Seq<u8>, name: Seq<u8>)
    requires
        p.len() > 0,
        p.last() != 0x2f,
        segments(p).last() != seq![0x2eu8],
        name.len() > 0,
        !name.contains(0x2f),
        name != seq![0x2eu8],
    ensures
        parent(p.push(0x2f) + name) == Some(p),
        parent(seq![0x2fu8] + name) == Some(seq![0x2fu8]),
        parent(seq![0x2fu8]) is None,
        parent(seq![]) is None,
{
    assert(forall|i: int| 0 <= i < name.len() ==> name[i] != 0x2f) by {
        assert forall|i: int| 0 <= i < name.len() implies name[i] != 0x2f by {
            if name[i] == 0x2f {
                assert(name.contains(0x2f));
            }
        }
    }
    let slashed = p.push(0x2f);
    let whole = slashed + name;
    let floor = start_len(whole);
    assert(!is_blank_end(p)) by {
        if is_blank_end(p) {
            let k = p.len() - 1;
            lemma_segment_start_at(p, k);
            assert(p.skip(k) == dot());
        }
    }
    assert(!is_blank_end(whole)) by {
        assert(whole.last() == name.last());
        if name.len() == 1 {
            assert(name == seq![name[0]]);
        } else {
            assert(whole[whole.len() - 2] == name[name.len() - 2]);
        }
    }
    lemma_segment_start_at(whole, p.len() as int + 1);
    assert(whole.take(p.len() as int + 1) == slashed);
    assert(slashed.drop_last() == p);
    assert(without_end(slashed, floor) == p) by {
        assert(without_end(p, floor) == p);
        assert(is_blank_end(slashed));
        assert(without_end(slashed, floor) == without_end(p, floor));
    }
    let top = seq![0x2fu8] + name;
    assert(!is_blank_end(top)) by {
        assert(top.last() == name.last());
        if name.len() == 1 {
            assert(name == seq![name[0]]);
        } else {
            assert(top[top.len() - 2] == name[name.len() - 2]);
        }
    }
    lemma_segment_start_at(top, 1);
    assert(top.take(1) == seq![0x2fu8]);
    assert(parent(seq![]) is None) by {
        assert(segments(Seq::<u8>::empty()).len() == 0);
    }
}

/// A relative path is appended to a directory behind a slash, an absolute one
/// takes its place.
pub proof fn law_join_appends_relative_paths(directory: Seq<u8>, path: Seq<u8>)
    requires
        directory.len() > 0,
        directory.last() != 0x2f,
    ensures
        path.len() > 0 && path[0] == 0x2f ==> join(directory, path) == path,
        path.len() == 0 || path[0] != 0x2f ==> join(directory, path) == directory + seq![0x2fu8]
            + path,
        path.len() == 0 || path[0] != 0x2f ==> join(directory.push(0x2f), path) == directory
            + seq![0x2fu8] + path,
        path.len() == 0 || path[0] != 0x2f ==> join(seq![], path) == path,
{
    assert(directory.push(0x2f) == directory + seq![0x2fu8]);
    assert(Seq::<u8>::empty() + path == path);
}

/// What lies behind a directory neither begins nor ends with a slash, and is
/// nothing for the directory itself.
pub proof fn law_rest_is_bare(root: Seq<u8>, path: Seq<u8>)
    requires
        is_within(root, path),
        components(root).len() > 0,
    ensures
        ({
            let rest = rest_behind(root, path);
            &&& rest.len() > 0 ==> rest[0] != 0x2f && rest.last() != 0x2f
            &&& components(root) == components(path) ==> rest.len() == 0
        }),
{
    law_rest_leads_back(root, path);
    let n = components(root).len() as int;
    let start = start_len(path);
    let body = without_start(without_segments(path.skip(start), n - start));
    lemma_without_start(without_segments(path.skip(start), n - start));
    lemma_without_end(body, 0);
    let rest = rest_behind(root, path);
    if rest.len() > 0 {
        assert(rest[0] == body[0]);
        if components(root) == components(path) {
            assert(named_segments(rest) == Seq::<Seq<u8>>::empty());
            let j = lemma_first_segment(rest);
            let first = rest.take(j);
            lemma_named_add(seq![first], segments(rest.skip(j)));
            reveal(Seq::filter);
            assert(seq![first].drop_last() == Seq::<Seq<u8>>::empty());
            let named = |s: Seq<u8>| s != dot();
            if first != dot() {
                assert(seq![first].filter(named) == seq![first]);
                assert(named_segments(rest)[0] == first);
            } else {
                assert(rest[0] == first[0]);
                assert(j == 1);
                assert(is_blank_start(body)) by {
                    if body.len() > 1 && rest.len() > 1 {
                        assert(body[1] == rest[1]);
                    } else if rest.len() == 1 {
                        assert(is_blank_end(rest));
                    }
                }
            }
        }
    }
}

} // verus!
