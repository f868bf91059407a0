//! How the entries of a directory are recorded.
//!
//! `DirectoryRead::start` asks for the names in the directory. Each reply of
//! the file system leads on to the next question, until `Walk::next` hands out
//! the recorded tree.

use vstd::prelude::*;
use vstd::utf8;

use crate::digest;
use crate::digest::digest_hex;
use crate::error;
use crate::error::ApiError;
use crate::error::ErrorKind;
use crate::error::IoFailure;
use crate::order;
use crate::outside;
use crate::path;
use crate::sequence;
use crate::text;
use crate::tree::Entry;
use crate::tree::EntryView;
use crate::tree::Tree;

verus! {

broadcast use crate::text::lemma_bytes_deep_view;

/// Whether a name is that of a version control system's metadata.
pub open spec fn is_vcs_name(name: Seq<u8>) -> bool {
    ||| name == utf8::encode_utf8(".git"@)
    ||| name == utf8::encode_utf8(".hg"@)
    ||| name == utf8::encode_utf8(".svn"@)
}

/// Whether a name is that of a directory that tools generate.
pub open spec fn is_generated_name(name: Seq<u8>) -> bool {
    ||| name == utf8::encode_utf8("node_modules"@)
    ||| name == utf8::encode_utf8("target"@)
    ||| name == utf8::encode_utf8(".venv"@)
    ||| name == utf8::encode_utf8("venv"@)
    ||| name == utf8::encode_utf8("__pycache__"@)
    ||| name == utf8::encode_utf8(".pytest_cache"@)
    ||| name == utf8::encode_utf8(".mypy_cache"@)
    ||| name == utf8::encode_utf8(".cache"@)
    ||| name == utf8::encode_utf8("dist"@)
    ||| name == utf8::encode_utf8("build"@)
    ||| name == utf8::encode_utf8(".next"@)
    ||| name == utf8::encode_utf8(".nuxt"@)
    ||| name == utf8::encode_utf8("coverage"@)
}

/// Whether a name is that of a version control system's metadata.
pub fn is_vcs_metadata(name: &[u8]) -> (r: bool)
    ensures
        r == is_vcs_name(name@),
{
    text::bytes_eq(name, ".git".as_bytes()) || text::bytes_eq(name, ".hg".as_bytes())
        || text::bytes_eq(name, ".svn".as_bytes())
}

/// Whether a name is that of a directory that tools generate.
pub fn is_generated_dir(name: &[u8]) -> (r: bool)
    ensures
        r == is_generated_name(name@),
{
    text::bytes_eq(name, "node_modules".as_bytes()) || text::bytes_eq(name, "target".as_bytes())
        || text::bytes_eq(name, ".venv".as_bytes()) || text::bytes_eq(name, "venv".as_bytes())
        || text::bytes_eq(name, "__pycache__".as_bytes()) || text::bytes_eq(
        name,
        ".pytest_cache".as_bytes(),
    ) || text::bytes_eq(name, ".mypy_cache".as_bytes()) || text::bytes_eq(name, ".cache".as_bytes())
        || text::bytes_eq(name, "dist".as_bytes()) || text::bytes_eq(name, "build".as_bytes())
        || text::bytes_eq(name, ".next".as_bytes()) || text::bytes_eq(name, ".nuxt".as_bytes())
        || text::bytes_eq(name, "coverage".as_bytes())
}

/// What a snapshot is taken of, and what it leaves out.
pub struct Rules {
    pub scope_root: Seq<u8>,
    pub state_root: Seq<u8>,
    pub include_generated: bool,
}

/// Where a relative path leads.
pub open spec fn absolute(rules: Rules, relative: Seq<u8>) -> Seq<u8> {
    if relative.len() == 0 {
        rules.scope_root
    } else {
        path::join(rules.scope_root, relative)
    }
}

/// Whether a snapshot leaves an entry of a directory out, whatever it is:
/// because it belongs to the checkpoints themselves, or to a version control
/// system.
pub open spec fn is_left_out(rules: Rules, directory: Seq<u8>, name: Seq<u8>) -> bool {
    ||| path::is_within(rules.state_root, absolute(rules, path::join(directory, name)))
    ||| is_vcs_name(name)
}

/// Whether a snapshot leaves a path out if a directory is there: tools
/// generate directories of that name. A file or a link of the same name is
/// recorded like any other.
pub open spec fn leaves_out_directory(rules: Rules, path: Seq<u8>) -> bool {
    &&& !rules.include_generated
    &&& path::segments(path).len() > 0
    &&& is_generated_name(path::segments(path).last())
}

/// What is recorded of a file.
pub open spec fn file_entry(content: Seq<u8>, mode: u32, size: u64) -> EntryView {
    EntryView::File { object: digest::digest(content), mode, size }
}

/// What is recorded of a link.
pub open spec fn link_entry(target: Seq<u8>) -> EntryView {
    EntryView::Symlink { target: utf8::decode_utf8(target) }
}

/// What is recorded of a directory.
pub open spec fn directory_entry(mode: u32) -> EntryView {
    EntryView::Directory { mode }
}

/// Whether something is passed over, with all that is in it, because it is a
/// directory that is left out.
pub open spec fn is_passed_over(rules: Rules, path: Seq<u8>, kind: NodeKind) -> bool {
    kind == NodeKind::Directory && leaves_out_directory(rules, path)
}

/// The entries of a directory that a snapshot visits, in their order.
pub open spec fn visits(rules: Rules, directory: Seq<u8>, names: Seq<Seq<u8>>) -> Seq<Seq<u8>> {
    order::sorted(names).filter(|name: Seq<u8>| !is_left_out(rules, directory, name)).map_values(
        |name: Seq<u8>| path::join(directory, name),
    )
}

/// The state of a snapshot: what is recorded, and the paths that are still to
/// be visited, the next of them last.
pub struct WalkView {
    pub entries: Map<Seq<u8>, EntryView>,
    pub pending: Seq<Seq<u8>>,
}

impl WalkView {
    /// The state after one more entry is recorded.
    pub open spec fn record(self, path: Seq<u8>, entry: EntryView) -> WalkView {
        WalkView { entries: self.entries.insert(path, entry), ..self }
    }

    /// The state after the names in a directory are known.
    pub open spec fn enter(self, rules: Rules, directory: Seq<u8>, names: Seq<Seq<u8>>) -> WalkView {
        WalkView { pending: self.pending + visits(rules, directory, names).reverse(), ..self }
    }
}

/// A snapshot on its way.
#[derive(Debug, PartialEq, Eq)]
pub struct Walk {
    scope_root: Vec<u8>,
    state_root: Vec<u8>,
    include_generated: bool,
    entries: Tree,
    pending: Vec<Vec<u8>>,
}

impl View for Walk {
    type V = WalkView;

    closed spec fn view(&self) -> WalkView {
        WalkView { entries: self.entries@, pending: self.pending.deep_view() }
    }
}

impl Walk {
    /// What the snapshot is taken of, and what it leaves out.
    pub closed spec fn rules(self) -> Rules {
        Rules {
            scope_root: self.scope_root@,
            state_root: self.state_root@,
            include_generated: self.include_generated,
        }
    }

    /// What is recorded is well formed.
    pub closed spec fn wf(self) -> bool {
        self.entries.wf()
    }

    /// Goes on with the next entry.
    pub fn next(self) -> (r: Visit)
        requires
            self.wf(),
        ensures
            match r {
                Visit::Done(entries) => self@.pending.len() == 0 && entries.wf() && entries@
                    == self@.entries,
                Visit::Inspect(entry) => {
                    &&& self@.pending.len() > 0
                    &&& entry.wf()
                    &&& entry.rules() == self.rules()
                    &&& entry.relative() == self@.pending.last()
                    &&& entry@ == (WalkView { pending: self@.pending.drop_last(), ..self@ })
                },
            },
    {
        let mut walk = self;
        let ghost all = walk.pending.deep_view();
        match walk.pending.pop() {
            None => Visit::Done(walk.entries),
            Some(relative) => {
                assert(walk.pending.deep_view() == all.drop_last());
                assert(all.last() == relative@);
                Visit::Inspect(EntryInspection { walk, relative })
            },
        }
    }

    /// The path that a relative path leads to.
    fn absolute(&self, relative: &[u8]) -> (p: Vec<u8>)
        ensures
            p@ == absolute(self.rules(), relative@),
    {
        if relative.len() == 0 {
            vstd::slice::slice_to_vec(self.scope_root.as_slice())
        } else {
            path::join_path(self.scope_root.as_slice(), relative)
        }
    }

    fn leaves_out(&self, child: &[u8], name: &[u8], Ghost(directory): Ghost<Seq<u8>>) -> (r: bool)
        requires
            child@ == path::join(directory, name@),
        ensures
            r == is_left_out(self.rules(), directory, name@),
    {
        let whole = self.absolute(child);
        path::within(self.state_root.as_slice(), whole.as_slice()) || is_vcs_metadata(name)
    }

    fn leaves_out_directory(&self, relative: &[u8]) -> (r: bool)
        ensures
            r == leaves_out_directory(self.rules(), relative@),
    {
        if self.include_generated {
            return false;
        }
        match path::last_segment(relative) {
            Some(name) => is_generated_dir(name.as_slice()),
            None => false,
        }
    }
}

/// What a snapshot goes on with.
#[derive(Debug, PartialEq, Eq)]
pub enum Visit {
    /// Nothing: this is what is recorded.
    Done(Tree),
    /// With an entry whose kind is to be found out.
    Inspect(EntryInspection),
}

/// A directory whose names are to be read.
#[derive(Debug, PartialEq, Eq)]
pub struct DirectoryRead {
    walk: Walk,
    relative: Vec<u8>,
}

impl View for DirectoryRead {
    type V = WalkView;

    closed spec fn view(&self) -> WalkView {
        self.walk@
    }
}

impl DirectoryRead {
    pub closed spec fn wf(self) -> bool {
        self.walk.wf()
    }

    pub closed spec fn rules(self) -> Rules {
        self.walk.rules()
    }

    /// The directory, as seen from the one that the snapshot is taken of.
    pub closed spec fn relative(self) -> Seq<u8> {
        self.relative@
    }

    /// Starts a snapshot of a directory.
    pub fn start(scope_root: &[u8], state_root: &[u8], include_generated: bool) -> (r: DirectoryRead)
        ensures
            r.wf(),
            r.rules() == (Rules {
                scope_root: scope_root@,
                state_root: state_root@,
                include_generated,
            }),
            r.relative().len() == 0,
            r@ == (WalkView { entries: Map::empty(), pending: Seq::empty() }),
    {
        let walk = Walk {
            scope_root: vstd::slice::slice_to_vec(scope_root),
            state_root: vstd::slice::slice_to_vec(state_root),
            include_generated,
            entries: Tree::new(),
            pending: Vec::new(),
        };
        assert(walk.pending.deep_view() == Seq::<Seq<u8>>::empty());
        DirectoryRead { walk, relative: Vec::new() }
    }

    /// The directory to be read.
    pub fn directory(&self) -> (p: Vec<u8>)
        ensures
            p@ == absolute(self.rules(), self.relative()),
    {
        self.walk.absolute(self.relative.as_slice())
    }

    /// Takes the names in the directory.
    pub fn listed(self, reply: Result<Vec<Vec<u8>>, IoFailure>) -> (r: Result<Walk, ApiError>)
        requires
            self.wf(),
        ensures
            match reply {
                Ok(names) => r matches Ok(walk) && walk.wf() && walk.rules() == self.rules()
                    && walk@ == self@.enter(self.rules(), self.relative(), names.deep_view()),
                Err(failure) => r matches Err(e) && e.is(
                    ErrorKind::Internal,
                    error::in_context("failed to read workspace during checkpoint"@, failure.text@),
                ),
            },
    {
        let names = match reply {
            Err(failure) => {
                return Err(
                    error::io_internal("failed to read workspace during checkpoint", &failure),
                );
            },
            Ok(names) => names,
        };
        let ghost listed = names.deep_view();
        let mut names = order::sort_bytes(names);
        let mut walk = self.walk;
        let ghost directory = self.relative@;
        let ghost rules = walk.rules();
        let ghost all = names.deep_view();
        let ghost kept = |name: Seq<u8>| !is_left_out(rules, directory, name);
        let ghost lead = |name: Seq<u8>| path::join(directory, name);
        let ghost first = walk@;
        proof {
            assert(all.skip(all.len() as int).filter(kept) == Seq::<Seq<u8>>::empty()) by {
                reveal(Seq::filter);
            }
            assert(first.pending + Seq::<Seq<u8>>::empty() == first.pending);
            assert(Seq::<Seq<u8>>::empty().map_values(lead).reverse() == Seq::<Seq<u8>>::empty());
        }
        while names.len() > 0
            invariant
                names@.len() <= all.len(),
                names.deep_view() == all.take(names@.len() as int),
                walk.wf(),
                walk.rules() == rules,
                directory == self.relative@,
                kept == (|name: Seq<u8>| !is_left_out(rules, directory, name)),
                lead == (|name: Seq<u8>| path::join(directory, name)),
                walk@.entries == first.entries,
                walk@.pending == first.pending + all.skip(names@.len() as int).filter(
                    kept,
                ).map_values(lead).reverse(),
            decreases names.len(),
        {
            let ghost n = names@.len();
            let ghost view = names.deep_view();
            let ghost rest = all.skip(n as int);
            let popped = names.pop();
            assert(popped is Some);
            if let Some(name) = popped {
                proof {
                    assert(name@ == view[n - 1]);
                    assert(names.deep_view() == view.take(n - 1));
                    assert(all.skip(n - 1) == seq![name@] + rest);
                    Seq::filter_distributes_over_add(seq![name@], rest, kept);
                    sequence::lemma_filter_one(name@, kept);
                }
                let child = path::join_path(self.relative.as_slice(), name.as_slice());
                let ghost before = walk@.pending;
                if !walk.leaves_out(child.as_slice(), name.as_slice(), Ghost(directory)) {
                    let ghost p = child@;
                    walk.pending.push(child);
                    proof {
                        assert(walk@.pending == before.push(p));
                        let r = rest.filter(kept);
                        assert((seq![name@] + r).map_values(lead).reverse() == r.map_values(
                            lead,
                        ).reverse().push(p));
                    }
                } else {
                    assert(Seq::<Seq<u8>>::empty() + rest.filter(kept) == rest.filter(kept));
                }
            }
        }
        assert(all.skip(0) == all);
        Ok(walk)
    }
}

/// An entry whose kind is to be found out.
#[derive(Debug, PartialEq, Eq)]
pub struct EntryInspection {
    walk: Walk,
    relative: Vec<u8>,
}

/// What an entry is, not looked through a link.
#[derive(Debug, Clone, Copy, PartialEq, Eq, Structural)]
pub enum NodeKind {
    Symlink,
    Directory,
    File,
    Other,
}

/// What the file system tells of an entry.
#[derive(Debug, Clone, Copy, PartialEq, Eq, Structural)]
pub struct Inspected {
    pub kind: NodeKind,
    pub mode: u32,
    pub size: u64,
}

impl View for EntryInspection {
    type V = WalkView;

    closed spec fn view(&self) -> WalkView {
        self.walk@
    }
}

impl EntryInspection {
    pub closed spec fn wf(self) -> bool {
        self.walk.wf()
    }

    pub closed spec fn rules(self) -> Rules {
        self.walk.rules()
    }

    /// The entry, as seen from the directory that the snapshot is taken of.
    pub closed spec fn relative(self) -> Seq<u8> {
        self.relative@
    }

    /// The path to be inspected.
    pub fn path(&self) -> (p: Vec<u8>)
        ensures
            p@ == absolute(self.rules(), self.relative()),
    {
        self.walk.absolute(self.relative.as_slice())
    }

    /// Takes what the file system tells of the entry.
    pub fn inspected(self, reply: Result<Inspected, IoFailure>) -> (r: Result<EntryVisit, ApiError>)
        requires
            self.wf(),
        ensures
            match reply {
                Err(failure) => r matches Err(e) && e.is(
                    ErrorKind::Internal,
                    error::in_context(
                        "failed to inspect workspace during checkpoint"@,
                        failure.text@,
                    ),
                ),
                Ok(found) => if is_passed_over(self.rules(), self.relative(), found.kind) {
                    r matches Ok(EntryVisit::Skipped(walk)) && walk.wf() && walk.rules()
                        == self.rules() && walk@ == self@
                } else if !utf8::valid_utf8(self.relative()) {
                    r matches Ok(EntryVisit::NotText(refused)) && refused.relative()
                        == self.relative()
                } else {
                    match found.kind {
                        NodeKind::Other => r matches Ok(EntryVisit::Skipped(walk)) && walk.wf()
                            && walk.rules() == self.rules() && walk@ == self@,
                        NodeKind::Directory => r matches Ok(EntryVisit::Directory(next))
                            && next.wf() && next.rules() == self.rules() && next.relative()
                            == self.relative() && next@ == self@.record(
                            self.relative(),
                            directory_entry(found.mode),
                        ),
                        NodeKind::Symlink => r matches Ok(EntryVisit::Link(next)) && next.wf()
                            && next.rules() == self.rules() && next.relative() == self.relative()
                            && next@ == self@,
                        NodeKind::File => r matches Ok(EntryVisit::File(next)) && next.wf()
                            && next.rules() == self.rules() && next.relative() == self.relative()
                            && next.mode() == found.mode && next.size() == found.size && next@
                            == self@,
                    }
                },
            },
    {
        broadcast use utf8::decode_utf8_encode_utf8;

        let found = match reply {
            Err(failure) => {
                return Err(
                    error::io_internal("failed to inspect workspace during checkpoint", &failure),
                );
            },
            Ok(found) => found,
        };
        if found.kind == NodeKind::Directory && self.walk.leaves_out_directory(
            self.relative.as_slice(),
        ) {
            return Ok(EntryVisit::Skipped(self.walk));
        }
        let bytes = vstd::slice::slice_to_vec(self.relative.as_slice());
        let name = match outside::decode_strict(bytes) {
            None => {
                return Ok(EntryVisit::NotText(NotText { relative: self.relative }));
            },
            Some(name) => name,
        };
        let mut walk = self.walk;
        match found.kind {
            NodeKind::Other => Ok(EntryVisit::Skipped(walk)),
            NodeKind::Directory => {
                walk.entries.insert(name, Entry::Directory { mode: found.mode });
                Ok(EntryVisit::Directory(DirectoryRead { walk, relative: self.relative }))
            },
            NodeKind::Symlink => Ok(EntryVisit::Link(LinkRead { walk, relative: name })),
            NodeKind::File => Ok(
                EntryVisit::File(
                    FileRead { walk, relative: name, mode: found.mode, size: found.size },
                ),
            ),
        }
    }
}

/// What an inspected entry leads to.
#[derive(Debug, PartialEq, Eq)]
pub enum EntryVisit {
    /// The entry is not recorded: it is a generated directory, or of a kind
    /// that never is.
    Skipped(Walk),
    /// The path of the entry is not text, so the snapshot fails.
    NotText(NotText),
    /// The entry is a directory whose names are to be read.
    Directory(DirectoryRead),
    /// The entry is a link whose target is to be read.
    Link(LinkRead),
    /// The entry is a file whose content is to be read.
    File(FileRead),
}

/// A path that is not text.
#[derive(Debug, PartialEq, Eq)]
pub struct NotText {
    relative: Vec<u8>,
}

impl NotText {
    /// The path, as seen from the directory that the snapshot is taken of.
    pub closed spec fn relative(self) -> Seq<u8> {
        self.relative@
    }

    /// The path, as seen from the directory that the snapshot is taken of.
    pub fn path(&self) -> (p: &[u8])
        ensures
            p@ == self.relative(),
    {
        self.relative.as_slice()
    }

    /// The answer, given how the system shows the path.
    pub fn refusal(self, shown: &str) -> (e: ApiError)
        ensures
            e.is(ErrorKind::BadRequest, "workspace path is not valid UTF-8: "@ + shown@),
    {
        let message = text::concat("workspace path is not valid UTF-8: ", shown);
        ApiError::bad_request(message.as_str())
    }
}

/// A link whose target is to be read.
#[derive(Debug, PartialEq, Eq)]
pub struct LinkRead {
    walk: Walk,
    relative: String,
}

impl View for LinkRead {
    type V = WalkView;

    closed spec fn view(&self) -> WalkView {
        self.walk@
    }
}

impl LinkRead {
    pub closed spec fn wf(self) -> bool {
        self.walk.wf()
    }

    pub closed spec fn rules(self) -> Rules {
        self.walk.rules()
    }

    /// The link, as seen from the directory that the snapshot is taken of.
    pub closed spec fn relative(self) -> Seq<u8> {
        utf8::encode_utf8(self.relative@)
    }

    /// The path of the link.
    pub fn path(&self) -> (p: Vec<u8>)
        ensures
            p@ == absolute(self.rules(), self.relative()),
    {
        self.walk.absolute(self.relative.as_str().as_bytes())
    }

    /// Takes the target of the link.
    pub fn read(self, reply: Result<Vec<u8>, IoFailure>) -> (r: Result<Walk, ApiError>)
        requires
            self.wf(),
        ensures
            match reply {
                Err(failure) => r matches Err(e) && e.is(
                    ErrorKind::Internal,
                    error::in_context("failed to read symlink during checkpoint"@, failure.text@),
                ),
                Ok(target) => if utf8::valid_utf8(target@) {
                    r matches Ok(walk) && walk.wf() && walk.rules() == self.rules() && walk@
                        == self@.record(self.relative(), link_entry(target@))
                } else {
                    r matches Err(e) && e.is(
                        ErrorKind::BadRequest,
                        "symlink target is not valid UTF-8: "@ + utf8::decode_utf8(self.relative()),
                    )
                },
            },
    {
        broadcast use utf8::encode_utf8_decode_utf8;

        let target = match reply {
            Err(failure) => {
                return Err(
                    error::io_internal("failed to read symlink during checkpoint", &failure),
                );
            },
            Ok(target) => target,
        };
        match outside::decode_strict(target) {
            None => {
                let message = text::concat(
                    "symlink target is not valid UTF-8: ",
                    self.relative.as_str(),
                );
                Err(ApiError::bad_request(message.as_str()))
            },
            Some(target) => {
                let mut walk = self.walk;
                walk.entries.insert(self.relative, Entry::Symlink { target });
                Ok(walk)
            },
        }
    }
}

/// A file whose content is to be read.
#[derive(Debug, PartialEq, Eq)]
pub struct FileRead {
    walk: Walk,
    relative: String,
    mode: u32,
    size: u64,
}

impl View for FileRead {
    type V = WalkView;

    closed spec fn view(&self) -> WalkView {
        self.walk@
    }
}

impl FileRead {
    pub closed spec fn wf(self) -> bool {
        self.walk.wf()
    }

    pub closed spec fn rules(self) -> Rules {
        self.walk.rules()
    }

    /// The file, as seen from the directory that the snapshot is taken of.
    pub closed spec fn relative(self) -> Seq<u8> {
        utf8::encode_utf8(self.relative@)
    }

    pub closed spec fn mode(self) -> u32 {
        self.mode
    }

    pub closed spec fn size(self) -> u64 {
        self.size
    }

    /// The path of the file.
    pub fn path(&self) -> (p: Vec<u8>)
        ensures
            p@ == absolute(self.rules(), self.relative()),
    {
        self.walk.absolute(self.relative.as_str().as_bytes())
    }

    /// Takes the content of the file, which is then to be stored under its
    /// digest.
    pub fn read(self, reply: Result<Vec<u8>, IoFailure>) -> (r: Result<FileObject, ApiError>)
        requires
            self.wf(),
        ensures
            match reply {
                Err(failure) => r matches Err(e) && e.is(
                    ErrorKind::Internal,
                    error::in_context("failed to read file during checkpoint"@, failure.text@),
                ),
                Ok(content) => r matches Ok(next) && next.wf() && next.rules() == self.rules()
                    && next@ == self@ && next.relative() == self.relative() && next.content()
                    == content@ && next.entry() == file_entry(content@, self.mode(), self.size()),
            },
    {
        let content = match reply {
            Err(failure) => {
                return Err(error::io_internal("failed to read file during checkpoint", &failure));
            },
            Ok(content) => content,
        };
        let object = digest_hex(content.as_slice());
        Ok(
            FileObject {
                walk: self.walk,
                relative: self.relative,
                object,
                content,
                mode: self.mode,
                size: self.size,
            },
        )
    }
}

/// A file whose content is to be stored.
#[derive(Debug, PartialEq, Eq)]
pub struct FileObject {
    walk: Walk,
    relative: String,
    object: String,
    content: Vec<u8>,
    mode: u32,
    size: u64,
}

impl View for FileObject {
    type V = WalkView;

    closed spec fn view(&self) -> WalkView {
        self.walk@
    }
}

impl FileObject {
    /// What is recorded is well formed, and the object is named by its digest.
    pub closed spec fn wf(self) -> bool {
        self.walk.wf() && self.object@ == digest::digest(self.content@) && self.object@.len() == 64
    }

    pub closed spec fn rules(self) -> Rules {
        self.walk.rules()
    }

    /// The file, as seen from the directory that the snapshot is taken of.
    pub closed spec fn relative(self) -> Seq<u8> {
        utf8::encode_utf8(self.relative@)
    }

    /// The content of the file.
    pub closed spec fn content(self) -> Seq<u8> {
        self.content@
    }

    /// What will be recorded of the file.
    pub closed spec fn entry(self) -> EntryView {
        EntryView::File { object: self.object@, mode: self.mode, size: self.size }
    }

    /// The name that the content is to be stored under.
    pub fn object(&self) -> (r: &str)
        requires
            self.wf(),
        ensures
            r@ == digest::digest(self.content()),
            r@.len() == 64,
            self.entry()->File_object == r@,
    {
        self.object.as_str()
    }

    /// The content that is to be stored.
    pub fn bytes(&self) -> (r: &[u8])
        ensures
            r@ == self.content(),
    {
        self.content.as_slice()
    }

    /// Takes whether the content was stored.
    pub fn stored(self, reply: Result<(), ApiError>) -> (r: Result<Walk, ApiError>)
        requires
            self.wf(),
        ensures
            match reply {
                Err(error) => r == Err::<Walk, ApiError>(error),
                Ok(_) => r matches Ok(walk) && walk.wf() && walk.rules() == self.rules() && walk@
                    == self@.record(self.relative(), self.entry()),
            },
    {
        match reply {
            Err(error) => Err(error),
            Ok(_) => {
                let mut walk = self.walk;
                walk.entries.insert(
                    self.relative,
                    Entry::File { object: self.object, mode: self.mode, size: self.size },
                );
                Ok(walk)
            },
        }
    }
}

/// The names by which a directory counts as generated are these and no others.
pub proof fn law_generated_names(name: Seq<u8>)
    ensures
        ({
            let names = seq![
                "node_modules"@,
                "target"@,
                ".venv"@,
                "venv"@,
                "__pycache__"@,
                ".pytest_cache"@,
                ".mypy_cache"@,
                ".cache"@,
                "dist"@,
                "build"@,
                ".next"@,
                ".nuxt"@,
                "coverage"@,
            ];
            is_generated_name(name) <==> exists|i: int|
                0 <= i < names.len() && name == utf8::encode_utf8(#[trigger] names[i])
        }),
{
    let names = seq![
        "node_modules"@,
        "target"@,
        ".venv"@,
        "venv"@,
        "__pycache__"@,
        ".pytest_cache"@,
        ".mypy_cache"@,
        ".cache"@,
        "dist"@,
        "build"@,
        ".next"@,
        ".nuxt"@,
        "coverage"@,
    ];
    if is_generated_name(name) {
        assert(names[0] == "node_modules"@ && names[1] == "target"@ && names[2] == ".venv"@ && names[3] == "venv"@ && names[4] == "__pycache__"@ && names[5] == ".pytest_cache"@ && names[6] == ".mypy_cache"@ && names[7] == ".cache"@ && names[8] == "dist"@ && names[9] == "build"@ && names[10] == ".next"@ && names[11] == ".nuxt"@ && names[12] == "coverage"@);
    }
}

/// The names of the metadata of version control systems are these and no
/// others.
pub proof fn law_vcs_names(name: Seq<u8>)
    ensures
        ({
            let names = seq![".git"@, ".hg"@, ".svn"@];
            is_vcs_name(name) <==> exists|i: int|
                0 <= i < names.len() && name == utf8::encode_utf8(#[trigger] names[i])
        }),
{
    let names = seq![".git"@, ".hg"@, ".svn"@];
    if is_vcs_name(name) {
        assert(names[0] == ".git"@ && names[1] == ".hg"@ && names[2] == ".svn"@);
    }
}

/// A record of a file tells its content by the digest, its permissions and its
/// size apart; that of a link tells its target, and that of a directory its
/// permissions.
pub proof fn law_records_tell_what_was_there(
    content: Seq<u8>,
    other: Seq<u8>,
    mode: u32,
    other_mode: u32,
    size: u64,
    other_size: u64,
)
    ensures
        file_entry(content, mode, size) == file_entry(other, other_mode, other_size)
            <==> text::hex(outside::sha256(content)) == text::hex(outside::sha256(other)) && mode
            == other_mode && size == other_size,
        utf8::valid_utf8(content) && utf8::valid_utf8(other) ==> (link_entry(content)
            == link_entry(other) <==> content == other),
        directory_entry(mode) == directory_entry(other_mode) <==> mode == other_mode,
        file_entry(content, mode, size) is File,
        link_entry(content) is Symlink,
        directory_entry(mode) is Directory,
{
    if utf8::valid_utf8(content) && utf8::valid_utf8(other) {
        utf8::decode_utf8_encode_utf8(content);
        utf8::decode_utf8_encode_utf8(other);
    }
}

/// Files and links are never passed over, whatever they are called, and neither
/// is a directory where generated ones are asked for.
pub proof fn law_only_directories_are_passed_over(rules: Rules, path: Seq<u8>, kind: NodeKind)
    ensures
        is_passed_over(rules, path, kind) ==> kind == NodeKind::Directory
            && !rules.include_generated,
        path::segments(path).len() > 0 && kind == NodeKind::Directory && !rules.include_generated
            ==> (is_passed_over(rules, path, kind) <==> is_generated_name(
            path::segments(path).last(),
        )),
{
}

} // verus!
