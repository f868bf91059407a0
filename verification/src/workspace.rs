//! Where a path of a request leads: inside the workspace, or nowhere.
//!
//! A lookup goes in steps. Each step names one file system operation in its
//! fields; the method that takes the operation's reply gives the next step.

use vstd::prelude::*;
use vstd::utf8;

use crate::error;
use crate::error::ApiError;
use crate::error::ErrorKind;
use crate::error::FailureKind;
use crate::error::IoFailure;
use crate::outside;
use crate::path;
use crate::sequence;
use crate::text;

verus! {

broadcast use crate::text::lemma_bytes_deep_view;

/// Whether a path names a parent directory anywhere.
pub open spec fn climbs(p: Seq<u8>) -> bool {
    path::segments(p).contains(path::dot_dot())
}

/// A relative path without empty and `.` segments.
pub open spec fn cleaned(p: Seq<u8>) -> Seq<u8> {
    path::joined(path::named_segments(p))
}

/// Whether a request may use a path: it is relative and nowhere goes up.
pub open spec fn is_allowed(p: Seq<u8>) -> bool {
    !path::is_rooted(p) && !climbs(p)
}

/// The refusal of a path that may not be used.
pub open spec fn refusal(p: Seq<u8>) -> Seq<char> {
    if path::is_rooted(p) {
        "absolute paths are not allowed"@
    } else {
        "path traversal and rooted paths are not allowed"@
    }
}

/// The named segments of a path are segments of it.
proof fn lemma_named_segments(p: Seq<u8>)
    ensures
        forall|i: int|
            0 <= i < path::named_segments(p).len() ==> path::is_segment(
                #[trigger] path::named_segments(p)[i],
            ) && path::named_segments(p)[i] != path::dot() && path::segments(p).contains(
                path::named_segments(p)[i],
            ),
{
    let all = path::segments(p);
    let named = |s: Seq<u8>| s != path::dot();
    let kept = path::named_segments(p);
    path::lemma_segments_are_segments(p);
    sequence::lemma_filter_members(all, named);
    assert forall|i: int| 0 <= i < kept.len() implies path::is_segment(#[trigger] kept[i])
        && kept[i] != path::dot() && all.contains(kept[i]) by {
        assert(all.contains(kept[i]) && named(kept[i]));
        let k = choose|k: int| 0 <= k < all.len() && all[k] == kept[i];
        assert(path::is_segment(all[k]));
    }
}

/// A cleaned path has the named segments of the path it was made of, in the
/// same order, and is relative.
pub proof fn lemma_cleaned(p: Seq<u8>)
    ensures
        path::segments(cleaned(p)) == path::named_segments(p),
        path::named_segments(cleaned(p)) == path::named_segments(p),
        !path::is_rooted(cleaned(p)),
        climbs(cleaned(p)) ==> climbs(p),
        cleaned(p).len() == 0 <==> path::named_segments(p).len() == 0,
{
    let kept = path::named_segments(p);
    let named = |s: Seq<u8>| s != path::dot();
    lemma_named_segments(p);
    path::lemma_segments_joined(kept);
    sequence::lemma_filter_all(kept, named);
    if climbs(cleaned(p)) {
        let k = choose|k: int| 0 <= k < kept.len() && kept[k] == path::dot_dot();
        assert(path::segments(p).contains(kept[k]));
    }
}

/// What an allowed path leads to, before links are followed, lies within the
/// workspace, and its name is the last segment of the path.
pub proof fn law_allowed_paths_stay_inside(root: Seq<u8>, p: Seq<u8>)
    requires
        path::is_rooted(root),
        is_allowed(p),
    ensures
        path::is_within(root, path::join(root, cleaned(p))),
        path::components(path::join(root, cleaned(p))) == path::components(root)
            + path::named_segments(p),
{
    lemma_cleaned(p);
    path::lemma_components_join(root, cleaned(p));
    let all = path::components(path::join(root, cleaned(p)));
    assert(all.take(path::components(root).len() as int) == path::components(root));
}

/// The relative path of a request, cleaned, or the refusal.
pub fn sanitize_relative(relative: &str) -> (r: Result<Vec<u8>, ApiError>)
    ensures
        is_allowed(utf8::encode_utf8(relative@)) ==> (r matches Ok(p) && p@ == cleaned(
            utf8::encode_utf8(relative@),
        )),
        !is_allowed(utf8::encode_utf8(relative@)) ==> (r matches Err(e) && e.is(
            ErrorKind::Forbidden,
            refusal(utf8::encode_utf8(relative@)),
        )),
{
    let bytes = relative.as_bytes();
    if path::rooted(bytes) {
        return Err(ApiError::forbidden("absolute paths are not allowed"));
    }
    match path::clean_relative(bytes) {
        Some(clean) => Ok(clean),
        None => Err(ApiError::forbidden("path traversal and rooted paths are not allowed")),
    }
}

/// Accepts a resolved path that lies within the workspace.
pub fn ensure_inside(root: &[u8], resolved: &[u8]) -> (r: Result<(), ApiError>)
    ensures
        r is Ok <==> path::is_within(root@, resolved@),
        r matches Err(e) ==> e.is(
            ErrorKind::Forbidden,
            "resolved path escapes the configured workspace"@,
        ),
{
    if path::within(root, resolved) {
        Ok(())
    } else {
        Err(ApiError::forbidden("resolved path escapes the configured workspace"))
    }
}

/// The lookup of something that exists: resolve `candidate`, following links.
#[derive(Debug, PartialEq, Eq)]
pub struct ExistingLookup {
    pub root: Vec<u8>,
    pub relative: String,
    pub candidate: Vec<u8>,
}

/// Starts the lookup of something that exists in the workspace.
pub fn resolve_existing(root: &[u8], relative: &str) -> (r: Result<ExistingLookup, ApiError>)
    ensures
        is_allowed(utf8::encode_utf8(relative@)) ==> (r matches Ok(lookup) && lookup.root@ == root@
            && lookup.relative@ == relative@ && lookup.candidate@ == path::join(
            root@,
            cleaned(utf8::encode_utf8(relative@)),
        )),
        !is_allowed(utf8::encode_utf8(relative@)) ==> (r matches Err(e) && e.is(
            ErrorKind::Forbidden,
            refusal(utf8::encode_utf8(relative@)),
        )),
{
    match sanitize_relative(relative) {
        Err(e) => Err(e),
        Ok(clean) => Ok(
            ExistingLookup {
                root: vstd::slice::slice_to_vec(root),
                relative: relative.to_owned(),
                candidate: path::join_path(root, clean.as_slice()),
            },
        ),
    }
}

impl ExistingLookup {
    /// Takes the resolved path: it is accepted exactly where it lies within the
    /// workspace.
    pub fn resolved(self, reply: Result<Vec<u8>, IoFailure>) -> (r: Result<Vec<u8>, ApiError>)
        ensures
            r is Ok <==> reply is Ok && path::is_within(self.root@, reply->Ok_0@),
            r matches Ok(p) ==> p@ == reply->Ok_0@,
            r matches Err(e) ==> match reply {
                Ok(_) => e.is(
                    ErrorKind::Forbidden,
                    "resolved path escapes the configured workspace"@,
                ),
                Err(failure) => if failure.kind == FailureKind::NotFound {
                    e.is(
                        ErrorKind::NotFound,
                        "path does not exist: "@ + outside::debug_text(self.relative@),
                    )
                } else {
                    e.is(
                        ErrorKind::Internal,
                        error::in_context("failed to resolve path"@, failure.text@),
                    )
                },
            },
    {
        match reply {
            Ok(canonical) => match ensure_inside(self.root.as_slice(), canonical.as_slice()) {
                Ok(()) => Ok(canonical),
                Err(e) => Err(e),
            },
            Err(failure) => {
                if failure.kind == FailureKind::NotFound {
                    let shown = outside::debug_format(self.relative.as_str());
                    let message = text::concat("path does not exist: ", shown.as_str());
                    Err(ApiError::not_found(message.as_str()))
                } else {
                    Err(error::io_internal("failed to resolve path", &failure))
                }
            },
        }
    }
}

/// The lookup of a file to write: inspect `candidate` itself, not following a
/// link.
#[derive(Debug, PartialEq, Eq)]
pub struct TargetLookup {
    pub root: Vec<u8>,
    pub candidate: Vec<u8>,
    pub create_parents: bool,
}

/// A file to write that is there already: resolve `candidate`, following links.
#[derive(Debug, PartialEq, Eq)]
pub struct ExistingTarget {
    pub root: Vec<u8>,
    pub candidate: Vec<u8>,
}

/// The search for the nearest directory above a file to write that is there:
/// inspect `ancestor` itself.
#[derive(Debug, PartialEq, Eq)]
pub struct AncestorSearch {
    pub root: Vec<u8>,
    pub candidate: Vec<u8>,
    pub parent: Vec<u8>,
    pub ancestor: Vec<u8>,
    pub create_parents: bool,
}

/// The nearest directory that is there: resolve `ancestor`, following links.
#[derive(Debug, PartialEq, Eq)]
pub struct AncestorFound {
    pub root: Vec<u8>,
    pub candidate: Vec<u8>,
    pub parent: Vec<u8>,
    pub ancestor: Vec<u8>,
    pub create_parents: bool,
}

/// The directory of a file to write: create `parent` and the directories above
/// it if `create_parents` is set, else inspect `parent` itself.
#[derive(Debug, PartialEq, Eq)]
pub struct ParentCheck {
    pub root: Vec<u8>,
    pub candidate: Vec<u8>,
    pub parent: Vec<u8>,
    pub create_parents: bool,
}

/// The directory of a file to write is there: resolve `parent`, following
/// links.
#[derive(Debug, PartialEq, Eq)]
pub struct ParentFound {
    pub root: Vec<u8>,
    pub candidate: Vec<u8>,
    pub parent: Vec<u8>,
}

/// What follows the inspection of a file to write.
#[derive(Debug, PartialEq, Eq)]
pub enum TargetNext {
    Existing(ExistingTarget),
    Absent(AncestorSearch),
}

/// What follows the inspection of a directory above a file to write.
#[derive(Debug, PartialEq, Eq)]
pub enum AncestorNext {
    Found(AncestorFound),
    Higher(AncestorSearch),
}

/// Starts the lookup of a file to write in the workspace.
pub fn resolve_write_target(root: &[u8], relative: &str, create_parents: bool) -> (r: Result<
    TargetLookup,
    ApiError,
>)
    ensures
        !is_allowed(utf8::encode_utf8(relative@)) ==> (r matches Err(e) && e.is(
            ErrorKind::Forbidden,
            refusal(utf8::encode_utf8(relative@)),
        )),
        is_allowed(utf8::encode_utf8(relative@)) && cleaned(utf8::encode_utf8(relative@)).len() == 0 ==> (
        r matches Err(e) && e.is(ErrorKind::BadRequest, "file path cannot be empty"@)),
        is_allowed(utf8::encode_utf8(relative@)) && cleaned(utf8::encode_utf8(relative@)).len() > 0 ==> (
        r matches Ok(lookup) && lookup.root@ == root@ && lookup.create_parents == create_parents
            && lookup.candidate@ == path::join(root@, cleaned(utf8::encode_utf8(relative@)))),
{
    match sanitize_relative(relative) {
        Err(e) => Err(e),
        Ok(clean) => {
            if clean.len() == 0 {
                return Err(ApiError::bad_request("file path cannot be empty"));
            }
            Ok(
                TargetLookup {
                    root: vstd::slice::slice_to_vec(root),
                    candidate: path::join_path(root, clean.as_slice()),
                    create_parents,
                },
            )
        },
    }
}

impl TargetLookup {
    /// Takes the outcome of the inspection.
    pub fn inspected(self, reply: Result<(), IoFailure>) -> (r: Result<TargetNext, ApiError>)
        ensures
            match reply {
                Ok(_) => r matches Ok(TargetNext::Existing(next)) && next.root@ == self.root@
                    && next.candidate@ == self.candidate@,
                Err(failure) => if failure.kind != FailureKind::NotFound {
                    r matches Err(e) && e.is(
                        ErrorKind::Internal,
                        error::in_context("failed to inspect file path"@, failure.text@),
                    )
                } else {
                    match path::parent(self.candidate@) {
                        Some(above) => r matches Ok(TargetNext::Absent(next)) && next.root@
                            == self.root@ && next.candidate@ == self.candidate@ && next.parent@
                            == above && next.ancestor@ == above && next.create_parents
                            == self.create_parents,
                        None => r matches Err(e) && e.is(
                            ErrorKind::BadRequest,
                            "file path has no parent directory"@,
                        ),
                    }
                },
            },
    {
        match reply {
            Ok(()) => Ok(
                TargetNext::Existing(ExistingTarget { root: self.root, candidate: self.candidate }),
            ),
            Err(failure) => {
                if failure.kind != FailureKind::NotFound {
                    return Err(error::io_internal("failed to inspect file path", &failure));
                }
                match path::parent_path(self.candidate.as_slice()) {
                    Some(above) => Ok(
                        TargetNext::Absent(
                            AncestorSearch {
                                root: self.root,
                                candidate: self.candidate,
                                parent: vstd::slice::slice_to_vec(above.as_slice()),
                                ancestor: above,
                                create_parents: self.create_parents,
                            },
                        ),
                    ),
                    None => Err(ApiError::bad_request("file path has no parent directory")),
                }
            },
        }
    }
}

impl ExistingTarget {
    /// Takes the resolved file: it is accepted exactly where it lies within the
    /// workspace.
    pub fn resolved(self, reply: Result<Vec<u8>, IoFailure>) -> (r: Result<Vec<u8>, ApiError>)
        ensures
            r is Ok <==> reply is Ok && path::is_within(self.root@, reply->Ok_0@),
            r matches Ok(p) ==> p@ == reply->Ok_0@,
            r matches Err(e) ==> match reply {
                Ok(_) => e.is(
                    ErrorKind::Forbidden,
                    "resolved path escapes the configured workspace"@,
                ),
                Err(failure) => e.is(
                    ErrorKind::Internal,
                    error::in_context("failed to resolve file path"@, failure.text@),
                ),
            },
    {
        match reply {
            Ok(canonical) => match ensure_inside(self.root.as_slice(), canonical.as_slice()) {
                Ok(()) => Ok(canonical),
                Err(e) => Err(e),
            },
            Err(failure) => Err(error::io_internal("failed to resolve file path", &failure)),
        }
    }
}

impl AncestorSearch {
    /// Takes the outcome of the inspection: a directory that is missing sends
    /// the search to the one above it.
    pub fn inspected(self, reply: Result<(), IoFailure>) -> (r: Result<AncestorNext, ApiError>)
        ensures
            match reply {
                Ok(_) => r matches Ok(AncestorNext::Found(next)) && next.root@ == self.root@
                    && next.candidate@ == self.candidate@ && next.parent@ == self.parent@
                    && next.ancestor@ == self.ancestor@ && next.create_parents
                    == self.create_parents,
                Err(failure) => if failure.kind != FailureKind::NotFound {
                    r matches Err(e) && e.is(
                        ErrorKind::Internal,
                        error::in_context("failed to inspect parent directory"@, failure.text@),
                    )
                } else {
                    match path::parent(self.ancestor@) {
                        Some(above) => r matches Ok(AncestorNext::Higher(next)) && next.root@
                            == self.root@ && next.candidate@ == self.candidate@ && next.parent@
                            == self.parent@ && next.ancestor@ == above && next.create_parents
                            == self.create_parents,
                        None => r matches Err(e) && e.is(
                            ErrorKind::Forbidden,
                            "path escapes the configured workspace"@,
                        ),
                    }
                },
            },
    {
        match reply {
            Ok(()) => Ok(
                AncestorNext::Found(
                    AncestorFound {
                        root: self.root,
                        candidate: self.candidate,
                        parent: self.parent,
                        ancestor: self.ancestor,
                        create_parents: self.create_parents,
                    },
                ),
            ),
            Err(failure) => {
                if failure.kind != FailureKind::NotFound {
                    return Err(error::io_internal("failed to inspect parent directory", &failure));
                }
                match path::parent_path(self.ancestor.as_slice()) {
                    Some(above) => Ok(
                        AncestorNext::Higher(
                            AncestorSearch {
                                root: self.root,
                                candidate: self.candidate,
                                parent: self.parent,
                                ancestor: above,
                                create_parents: self.create_parents,
                            },
                        ),
                    ),
                    None => Err(ApiError::forbidden("path escapes the configured workspace")),
                }
            },
        }
    }
}

impl AncestorFound {
    /// Takes the resolved directory: the write goes on exactly where it lies
    /// within the workspace.
    pub fn resolved(self, reply: Result<Vec<u8>, IoFailure>) -> (r: Result<ParentCheck, ApiError>)
        ensures
            r is Ok <==> reply is Ok && path::is_within(self.root@, reply->Ok_0@),
            r matches Ok(next) ==> next.root@ == self.root@ && next.candidate@ == self.candidate@
                && next.parent@ == self.parent@ && next.create_parents == self.create_parents,
            r matches Err(e) ==> match reply {
                Ok(_) => e.is(
                    ErrorKind::Forbidden,
                    "resolved path escapes the configured workspace"@,
                ),
                Err(failure) => e.is(
                    ErrorKind::Internal,
                    error::in_context("failed to resolve parent directory"@, failure.text@),
                ),
            },
    {
        match reply {
            Ok(canonical) => match ensure_inside(self.root.as_slice(), canonical.as_slice()) {
                Ok(()) => Ok(
                    ParentCheck {
                        root: self.root,
                        candidate: self.candidate,
                        parent: self.parent,
                        create_parents: self.create_parents,
                    },
                ),
                Err(e) => Err(e),
            },
            Err(failure) => Err(error::io_internal("failed to resolve parent directory", &failure)),
        }
    }
}

impl ParentCheck {
    /// Takes the outcome of the creation or the inspection.
    pub fn prepared(self, reply: Result<(), IoFailure>) -> (r: Result<ParentFound, ApiError>)
        ensures
            match reply {
                Ok(_) => r matches Ok(next) && next.root@ == self.root@ && next.candidate@
                    == self.candidate@ && next.parent@ == self.parent@,
                Err(failure) => r matches Err(e) && if self.create_parents {
                    e.is(
                        ErrorKind::Internal,
                        error::in_context("failed to create parent directories"@, failure.text@),
                    )
                } else {
                    e.is(ErrorKind::NotFound, "parent directory does not exist"@)
                },
            },
    {
        match reply {
            Ok(()) => Ok(
                ParentFound { root: self.root, candidate: self.candidate, parent: self.parent },
            ),
            Err(failure) => {
                if self.create_parents {
                    Err(error::io_internal("failed to create parent directories", &failure))
                } else {
                    Err(ApiError::not_found("parent directory does not exist"))
                }
            },
        }
    }
}

impl ParentFound {
    /// Takes the resolved directory: the file to write has the name that was
    /// asked for in that directory, which lies within the workspace.
    pub fn resolved(self, reply: Result<Vec<u8>, IoFailure>) -> (r: Result<Vec<u8>, ApiError>)
        ensures
            r is Ok <==> reply is Ok && path::is_within(self.root@, reply->Ok_0@)
                && path::file_name(self.candidate@) is Some,
            r matches Ok(p) ==> p@ == path::join(
                reply->Ok_0@,
                path::file_name(self.candidate@)->0,
            ),
            r matches Ok(p) && path::is_rooted(self.root@) ==> path::is_within(
                self.root@,
                (r->Ok_0)@,
            ),
            r matches Err(e) ==> match reply {
                Ok(canonical) => if path::is_within(self.root@, canonical@) {
                    e.is(ErrorKind::BadRequest, "invalid file name"@)
                } else {
                    e.is(
                        ErrorKind::Forbidden,
                        "resolved path escapes the configured workspace"@,
                    )
                },
                Err(failure) => e.is(
                    ErrorKind::Internal,
                    error::in_context("failed to resolve parent directory"@, failure.text@),
                ),
            },
    {
        match reply {
            Ok(canonical) => match ensure_inside(self.root.as_slice(), canonical.as_slice()) {
                Ok(()) => match path::last_name(self.candidate.as_slice()) {
                    Some(name) => {
                        proof {
                            if path::is_rooted(self.root@) {
                                lemma_below(self.root@, canonical@, self.candidate@);
                            }
                        }
                        Ok(path::join_path(canonical.as_slice(), name.as_slice()))
                    },
                    None => Err(ApiError::bad_request("invalid file name")),
                },
                Err(e) => Err(e),
            },
            Err(failure) => Err(error::io_internal("failed to resolve parent directory", &failure)),
        }
    }
}

/// A path with a component for the root directory starts there.
proof fn lemma_rooted(p: Seq<u8>)
    requires
        path::components(p).len() > 0,
        path::components(p)[0] == path::root_component(),
    ensures
        path::is_rooted(p),
{
    if !path::is_rooted(p) {
        lemma_named_segments(p);
        let kept = path::named_segments(p);
        if path::segments(p).len() > 0 && path::segments(p)[0] == path::dot() {
            assert(path::components(p)[0] == path::dot());
            assert(path::dot()[0] == path::DOT);
            assert(path::root_component()[0] == path::SLASH);
        } else {
            assert(path::is_segment(kept[0]));
            assert(path::root_component()[0] == path::SLASH);
            assert(path::root_component().contains(path::SLASH));
        }
    }
}

/// A name in a directory within the workspace lies within the workspace.
proof fn lemma_below(root: Seq<u8>, directory: Seq<u8>, candidate: Seq<u8>)
    requires
        path::is_rooted(root),
        path::is_within(root, directory),
        path::file_name(candidate) is Some,
    ensures
        path::is_within(root, path::join(directory, path::file_name(candidate)->0)),
{
    let name = path::file_name(candidate)->0;
    let above = path::components(root);
    let within = path::components(directory);
    assert(above[0] == path::root_component());
    assert(within.take(above.len() as int)[0] == within[0]);
    lemma_rooted(directory);
    lemma_named_segments(candidate);
    let parts = path::components(candidate);
    let kept = path::named_segments(candidate);
    assert(parts.last() == name);
    assert(kept.len() > 0 && kept.last() == name) by {
        if kept.len() == 0 {
            if path::is_rooted(candidate) {
                assert(parts == seq![path::root_component()]);
            } else {
                assert(parts == seq![path::dot()]);
            }
        }
    }
    assert(path::is_segment(kept[kept.len() - 1]));
    path::lemma_segments_joined(seq![name]);
    assert(path::joined(seq![name]) == name);
    path::lemma_components_join(directory, name);
    let all = path::components(path::join(directory, name));
    assert(all.take(above.len() as int) == within.take(above.len() as int));
}

/// The search for a directory that is there comes to an end: every directory
/// above an absolute path has fewer components, and is absolute again.
pub proof fn law_search_ends(p: Seq<u8>)
    requires
        path::is_rooted(p),
    ensures
        path::parent(p) matches Some(above) ==> path::is_rooted(above) && path::components(
            above,
        ).len() < path::components(p).len(),
{
    path::law_parent_drops_one_component(p);
}

/// A path climbs where two dots stand between slashes or at an end of it, and
/// nowhere else; a path is allowed unless it climbs or begins with a slash.
pub proof fn law_paths_climb_by_two_dots(p: Seq<u8>)
    ensures
        climbs(p) <==> exists|i: int|
            {
                &&& 0 <= i < p.len() - 1
                &&& #[trigger] p[i] == 0x2e && p[i + 1] == 0x2e
                &&& i == 0 || p[i - 1] == 0x2f
                &&& i + 2 == p.len() || p[i + 2] == 0x2f
            },
        is_allowed(p) <==> !climbs(p) && !(p.len() > 0 && p[0] == 0x2f),
    decreases p.len(),
{
    if p.len() == 0 {
        assert(path::segments(p) == Seq::<Seq<u8>>::empty());
    } else if p.last() == path::SLASH {
        let q = p.drop_last();
        law_paths_climb_by_two_dots(q);
        if climbs(q) {
            let i = choose|i: int|
                {
                    &&& 0 <= i < q.len() - 1
                    &&& #[trigger] q[i] == 0x2e && q[i + 1] == 0x2e
                    &&& i == 0 || q[i - 1] == 0x2f
                    &&& i + 2 == q.len() || q[i + 2] == 0x2f
                };
            assert(p[i] == 0x2e && p[i + 1] == 0x2e);
        }
        if exists|i: int|
            {
                &&& 0 <= i < p.len() - 1
                &&& #[trigger] p[i] == 0x2e && p[i + 1] == 0x2e
                &&& i == 0 || p[i - 1] == 0x2f
                &&& i + 2 == p.len() || p[i + 2] == 0x2f
            } {
            let i = choose|i: int|
                {
                    &&& 0 <= i < p.len() - 1
                    &&& #[trigger] p[i] == 0x2e && p[i + 1] == 0x2e
                    &&& i == 0 || p[i - 1] == 0x2f
                    &&& i + 2 == p.len() || p[i + 2] == 0x2f
                };
            assert(q[i] == 0x2e && q[i + 1] == 0x2e);
        }
    } else {
        path::lemma_segment_start(p);
        path::lemma_segment_start_clear(p);
        let start = path::segment_start(p);
        let head = p.take(start);
        let last = p.skip(start);
        law_paths_climb_by_two_dots(head);
        let parts = path::segments(p);
        assert(parts == path::segments(head).push(last));
        assert(climbs(p) <==> climbs(head) || last == path::dot_dot()) by {
            if climbs(head) {
                let k = choose|k: int|
                    0 <= k < path::segments(head).len() && path::segments(head)[k]
                        == path::dot_dot();
                assert(parts[k] == path::dot_dot());
            }
            if last == path::dot_dot() {
                assert(parts[parts.len() - 1] == path::dot_dot());
            }
            if climbs(p) {
                let k = choose|k: int| 0 <= k < parts.len() && parts[k] == path::dot_dot();
                if k < parts.len() - 1 {
                    assert(path::segments(head)[k] == path::dot_dot());
                }
            }
        }
        if climbs(head) {
            let i = choose|i: int|
                {
                    &&& 0 <= i < head.len() - 1
                    &&& #[trigger] head[i] == 0x2e && head[i + 1] == 0x2e
                    &&& i == 0 || head[i - 1] == 0x2f
                    &&& i + 2 == head.len() || head[i + 2] == 0x2f
                };
            assert(p[i] == 0x2e && p[i + 1] == 0x2e);
            assert(i + 2 < start);
        }
        if last == path::dot_dot() {
            assert(last.len() == 2 && last[0] == 0x2e && last[1] == 0x2e);
            assert(p[start] == last[0] && p[start + 1] == last[1]);
        }
        if exists|i: int|
            {
                &&& 0 <= i < p.len() - 1
                &&& #[trigger] p[i] == 0x2e && p[i + 1] == 0x2e
                &&& i == 0 || p[i - 1] == 0x2f
                &&& i + 2 == p.len() || p[i + 2] == 0x2f
            } {
            let i = choose|i: int|
                {
                    &&& 0 <= i < p.len() - 1
                    &&& #[trigger] p[i] == 0x2e && p[i + 1] == 0x2e
                    &&& i == 0 || p[i - 1] == 0x2f
                    &&& i + 2 == p.len() || p[i + 2] == 0x2f
                };
            if i < start {
                assert(head[i] == 0x2e && head[i + 1] == 0x2e);
            } else {
                assert(i == start);
                assert(i + 2 == p.len());
                assert(last == path::dot_dot());
            }
        }
    }
}

/// A path is cleaned name by name: names stay, in their order, and dots and
/// needless slashes go.
pub proof fn law_cleaning_keeps_names(p: Seq<u8>, name: Seq<u8>)
    requires
        name.len() > 0,
        !name.contains(0x2f),
        name != seq![0x2eu8],
    ensures
        cleaned(seq![]) == Seq::<u8>::empty(),
        cleaned(name) == name,
        cleaned(p.push(0x2f)) == cleaned(p),
        cleaned(p.push(0x2f).push(0x2e)) == cleaned(p),
        cleaned(p).len() > 0 ==> cleaned(p.push(0x2f) + name) == cleaned(p) + seq![0x2fu8] + name,
        cleaned(p).len() == 0 ==> cleaned(p.push(0x2f) + name) == name,
{
    let named = |s: Seq<u8>| s != path::dot();
    path::law_segments_stand_between_slashes(p, name);
    path::law_segments_stand_between_slashes(p, path::dot());
    assert(p.push(0x2f) + path::dot() == p.push(0x2f).push(0x2e));
    reveal(Seq::filter);
    let parts = path::named_segments(p);
    assert(path::segments(p).push(name).drop_last() == path::segments(p));
    assert(path::segments(p).push(path::dot()).drop_last() == path::segments(p));
    assert(path::named_segments(p.push(0x2f) + name) == parts.push(name));
    assert(path::named_segments(p.push(0x2f).push(0x2e)) == parts);
    assert(seq![name].drop_last() == Seq::<Seq<u8>>::empty());
    assert(path::named_segments(name) == seq![name]);
    lemma_cleaned(p);
    if parts.len() > 0 {
        assert(parts.push(name).drop_last() == parts);
        assert(path::joined(parts).push(0x2f) == path::joined(parts) + seq![0x2fu8]);
    }
}

/// A refused path is told why: that it is absolute where it begins with a slash,
/// and that it climbs where it does not.
pub proof fn law_refusals_tell_why(p: Seq<u8>)
    requires
        !is_allowed(p),
    ensures
        refusal(p) == "absolute paths are not allowed"@ <==> p.len() > 0 && p[0] == 0x2f,
        refusal(p) == "path traversal and rooted paths are not allowed"@ ==> climbs(p),
{
    reveal_strlit("absolute paths are not allowed");
    reveal_strlit("path traversal and rooted paths are not allowed");
    assert("absolute paths are not allowed"@.len()
        != "path traversal and rooted paths are not allowed"@.len());
}

} // verus!
