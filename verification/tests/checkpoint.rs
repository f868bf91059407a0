use chatgpt_bridge::atomic::write_atomic;
use chatgpt_bridge::atomic::write_failed;
use chatgpt_bridge::atomic::WriteStep;
use chatgpt_bridge::checkpoint::create_private_dir_failed;
use chatgpt_bridge::checkpoint::env_bool;
use chatgpt_bridge::checkpoint::read_manifest;
use chatgpt_bridge::checkpoint::read_refs;
use chatgpt_bridge::checkpoint::read_transaction;
use chatgpt_bridge::checkpoint::remove_transaction;
use chatgpt_bridge::checkpoint::serialize_failed;
use chatgpt_bridge::checkpoint::CheckpointStore;
use chatgpt_bridge::checkpoint::IdSearch;
use chatgpt_bridge::checkpoint::Loaded;
use chatgpt_bridge::checkpoint::PrivateDirectoryStep;
use chatgpt_bridge::checkpoint::StateEnvironment;
use chatgpt_bridge::checkpoint::TransactionIdSearch;
use chatgpt_bridge::digest::digest_hex;
use chatgpt_bridge::error::ApiError;
use chatgpt_bridge::error::ErrorKind;
use chatgpt_bridge::error::FailureKind;
use chatgpt_bridge::error::IoFailure;
use chatgpt_bridge::history::diff_summary;
use chatgpt_bridge::history::ChangeSummary;
use chatgpt_bridge::history::Head;
use chatgpt_bridge::history::Manifest;
use chatgpt_bridge::history::Refs;
use chatgpt_bridge::history::Transaction;
use chatgpt_bridge::operations::BeginNext;
use chatgpt_bridge::operations::BeginResult;
use chatgpt_bridge::operations::CheckpointInfo;
use chatgpt_bridge::operations::FinishNext;
use chatgpt_bridge::operations::FinishResult;
use chatgpt_bridge::operations::ListedManifest;
use chatgpt_bridge::operations::ManifestSearch;
use chatgpt_bridge::operations::RestoreNext;
use chatgpt_bridge::operations::RestoreResult;
use chatgpt_bridge::operations::RestoreState;
use chatgpt_bridge::operations::SearchNext;
use chatgpt_bridge::operations::TargetNext;
use chatgpt_bridge::restore::apply_manifest;
use chatgpt_bridge::restore::path_depth;
use chatgpt_bridge::restore::remove_non_directory;
use chatgpt_bridge::restore::Found;
use chatgpt_bridge::restore::FsAction;
use chatgpt_bridge::restore::RestoreOp;
use chatgpt_bridge::restore::RestorePlan;
use chatgpt_bridge::snapshot::is_generated_dir;
use chatgpt_bridge::snapshot::is_vcs_metadata;
use chatgpt_bridge::snapshot::DirectoryRead;
use chatgpt_bridge::snapshot::EntryVisit;
use chatgpt_bridge::snapshot::Inspected;
use chatgpt_bridge::snapshot::NodeKind;
use chatgpt_bridge::snapshot::Visit;
use chatgpt_bridge::tree::Entry;
use chatgpt_bridge::tree::Tree;
use chatgpt_bridge::tree::TreeItem;
use std::collections::BTreeMap;

#[derive(Debug, Clone, PartialEq, Eq)]
enum Node {
    File { content: Vec<u8>, mode: u32 },
    Directory { mode: u32 },
    Link { target: Vec<u8> },
    Socket,
}

/// A machine in memory: a workspace under `/w` and a checkpoint store.
struct World {
    files: BTreeMap<Vec<u8>, Node>,
    store: CheckpointStore,
    objects: BTreeMap<String, Vec<u8>>,
    manifests: BTreeMap<String, Manifest>,
    transactions: BTreeMap<String, Transaction>,
    refs: Option<Refs>,
    clock: u128,
}

fn failure(kind: FailureKind) -> IoFailure {
    IoFailure {
        kind,
        text: "broken".to_owned(),
    }
}

fn file_kind(mode: u32) -> u32 {
    0o100000 | (mode & 0o7777)
}

fn directory_kind(mode: u32) -> u32 {
    0o40000 | (mode & 0o7777)
}

fn copy_manifest(m: &Manifest) -> Manifest {
    Manifest {
        id: m.id.clone(),
        scope: m.scope.clone(),
        parent: m.parent.clone(),
        created_at_ms: m.created_at_ms,
        visible: m.visible,
        summary: m.summary,
        entries: m.entries.copied(),
    }
}

fn world() -> World {
    let directory =
        CheckpointStore::with_state_root(b"/w", b"/state/checkpoints".to_vec(), false);
    let store = directory
        .resolved(Ok(b"/state/checkpoints".to_vec()))
        .unwrap();
    World {
        files: BTreeMap::new(),
        store,
        objects: BTreeMap::new(),
        manifests: BTreeMap::new(),
        transactions: BTreeMap::new(),
        refs: None,
        clock: 1_000,
    }
}

impl World {
    fn write(&mut self, path: &str, content: &str) {
        self.files.insert(
            path.as_bytes().to_vec(),
            Node::File {
                content: content.as_bytes().to_vec(),
                mode: file_kind(0o644),
            },
        );
    }

    fn make_dir(&mut self, path: &str) {
        self.files.insert(
            path.as_bytes().to_vec(),
            Node::Directory {
                mode: directory_kind(0o755),
            },
        );
    }

    fn read(&self, path: &str) -> Option<String> {
        match self.files.get(path.as_bytes()) {
            Some(Node::File { content, .. }) => Some(String::from_utf8(content.clone()).unwrap()),
            _ => None,
        }
    }

    fn is_there(&self, path: &str) -> bool {
        self.files.contains_key(path.as_bytes())
    }

    fn names(&self, directory: &[u8]) -> Vec<Vec<u8>> {
        let mut prefix = directory.to_vec();
        prefix.push(b'/');
        let mut names = Vec::new();
        for path in self.files.keys().rev() {
            if path.starts_with(&prefix) && !path[prefix.len()..].contains(&b'/') {
                names.push(path[prefix.len()..].to_vec());
            }
        }
        names
    }

    fn inspect(&self, path: &[u8]) -> Result<Inspected, IoFailure> {
        match self.files.get(path) {
            None => Err(failure(FailureKind::NotFound)),
            Some(Node::File { content, mode }) => Ok(Inspected {
                kind: NodeKind::File,
                mode: *mode,
                size: content.len() as u64,
            }),
            Some(Node::Directory { mode }) => Ok(Inspected {
                kind: NodeKind::Directory,
                mode: *mode,
                size: 0,
            }),
            Some(Node::Link { .. }) => Ok(Inspected {
                kind: NodeKind::Symlink,
                mode: 0o120777,
                size: 0,
            }),
            Some(Node::Socket) => Ok(Inspected {
                kind: NodeKind::Other,
                mode: 0o140755,
                size: 0,
            }),
        }
    }

    fn found(&self, path: &[u8]) -> Result<Found, IoFailure> {
        match self.files.get(path) {
            None => Err(failure(FailureKind::NotFound)),
            Some(Node::Directory { .. }) => Ok(Found::Directory),
            Some(_) => Ok(Found::Other),
        }
    }

    fn snapshot(&mut self, start: DirectoryRead) -> Result<Tree, ApiError> {
        let names = self.names(&start.directory());
        let mut walk = start.listed(Ok(names))?;
        loop {
            let entry = match walk.next() {
                Visit::Done(tree) => return Ok(tree),
                Visit::Inspect(entry) => entry,
            };
            let path = entry.path();
            walk = match entry.inspected(self.inspect(&path))? {
                EntryVisit::Skipped(walk) => walk,
                EntryVisit::NotText(refused) => return Err(refused.refusal("\"?\"")),
                EntryVisit::Directory(next) => {
                    let names = self.names(&next.directory());
                    next.listed(Ok(names))?
                }
                EntryVisit::Link(link) => {
                    let target = match self.files.get(&link.path()) {
                        Some(Node::Link { target }) => target.clone(),
                        _ => panic!("not a link"),
                    };
                    link.read(Ok(target))?
                }
                EntryVisit::File(file) => {
                    let content = match self.files.get(&file.path()) {
                        Some(Node::File { content, .. }) => content.clone(),
                        _ => panic!("not a file"),
                    };
                    let object = file.read(Ok(content))?;
                    self.objects
                        .insert(object.object().to_owned(), object.bytes().to_vec());
                    object.stored(Ok(()))?
                }
            };
        }
    }

    fn perform(&mut self, root: &[u8], action: &FsAction) -> Result<(), IoFailure> {
        let at = |relative: &String| {
            let mut path = root.to_vec();
            path.push(b'/');
            path.extend_from_slice(relative.as_bytes());
            path
        };
        match action {
            FsAction::RemoveStaleDirectory { path } | FsAction::ReplaceDirectory { path } => {
                let path = at(path);
                match self.files.get(&path) {
                    None => Err(failure(FailureKind::NotFound)),
                    Some(Node::Directory { .. }) => {
                        if self.names(&path).is_empty() {
                            self.files.remove(&path);
                            Ok(())
                        } else {
                            Err(failure(FailureKind::DirectoryNotEmpty))
                        }
                    }
                    Some(_) => Err(failure(FailureKind::Other)),
                }
            }
            FsAction::RemoveStaleFile { path } | FsAction::ReplaceFile { path } => {
                match self.files.remove(&at(path)) {
                    None => Err(failure(FailureKind::NotFound)),
                    Some(_) => Ok(()),
                }
            }
            FsAction::RemoveNonDirectory { path } => {
                let place = at(path);
                if remove_non_directory(path, &self.found(&place)).unwrap() {
                    self.files.remove(&place);
                }
                Ok(())
            }
            FsAction::CreateDirectory { path } => {
                let path = at(path);
                assert!(!self.files.contains_key(&path));
                self.files.insert(
                    path,
                    Node::Directory {
                        mode: directory_kind(0o755),
                    },
                );
                Ok(())
            }
            FsAction::PrepareMode { path, mode }
            | FsAction::SetFileMode { path, mode }
            | FsAction::SetDirectoryMode { path, mode } => match self.files.get_mut(&at(path)) {
                Some(Node::File { mode: m, .. }) => {
                    *m = file_kind(*mode);
                    Ok(())
                }
                Some(Node::Directory { mode: m }) => {
                    *m = directory_kind(*mode);
                    Ok(())
                }
                _ => Err(failure(FailureKind::NotFound)),
            },
            FsAction::ReadObject { object } => match self.objects.get(object) {
                Some(_) => Ok(()),
                None => Err(failure(FailureKind::NotFound)),
            },
            FsAction::WriteFile { path, object } => {
                let content = self.objects.get(object).unwrap().clone();
                self.files.insert(
                    at(path),
                    Node::File {
                        content,
                        mode: file_kind(0o600),
                    },
                );
                Ok(())
            }
            FsAction::MakeSymlink { path, target } => {
                let path = at(path);
                assert!(!self.files.contains_key(&path));
                self.files.insert(
                    path,
                    Node::Link {
                        target: target.as_bytes().to_vec(),
                    },
                );
                Ok(())
            }
        }
    }

    fn run(&mut self, root: &[u8], plan: RestorePlan) -> Result<(), ApiError> {
        for op in plan.steps() {
            let mut place = root.to_vec();
            place.push(b'/');
            place.extend_from_slice(op.path().as_bytes());
            let reply = if op.inspects() {
                self.found(&place)
            } else {
                Err(failure(FailureKind::NotFound))
            };
            for action in &op.actions(&reply)? {
                if let Err(broken) = self.perform(root, action) {
                    action.failed(&broken)?;
                }
            }
        }
        Ok(())
    }

    fn load_refs(&self) -> Loaded<Refs> {
        match &self.refs {
            None => Loaded::Failed(failure(FailureKind::NotFound)),
            Some(refs) => {
                let mut heads = Vec::new();
                for head in refs.heads() {
                    heads.push(Head {
                        scope: head.scope.clone(),
                        id: head.id.clone(),
                    });
                }
                Loaded::Found(Refs::from_heads(heads))
            }
        }
    }

    fn load_manifest(&self, id: &str) -> Loaded<Manifest> {
        match self.manifests.get(id) {
            Some(manifest) => Loaded::Found(copy_manifest(manifest)),
            None => Loaded::Failed(failure(FailureKind::NotFound)),
        }
    }

    fn free_id(&mut self, search: IdSearch) -> String {
        let mut search = search;
        loop {
            let id = search.candidate(self.clock, 7);
            if !self.manifests.contains_key(&id) {
                return id;
            }
            search = search.taken().unwrap();
        }
    }

    fn tick(&mut self) -> u128 {
        self.clock += 1;
        self.clock
    }

    fn begin(&mut self, scope_root: &str) -> Result<BeginResult, ApiError> {
        let change = self.store.begin(scope_root.as_bytes())?;
        let start = self.store.snapshot(&change.scope_root);
        let current = self.snapshot(start)?;
        let mut next = change.taken(current, self.load_refs())?;
        loop {
            next = match next {
                BeginNext::ReadHead(check) => {
                    let head = self.load_manifest(&check.head_id);
                    check.read(head)?
                }
                BeginNext::NewBase(base) => {
                    let id = self.free_id(base.search());
                    let now = self.tick();
                    let write = base.write(&id, now);
                    self.manifests.insert(id, write.manifest);
                    self.refs = Some(write.refs);
                    BeginNext::Transact(write.next)
                }
                BeginNext::Transact(transaction) => {
                    let mut search = transaction.search();
                    let mut id = search.candidate(self.clock, 7);
                    while self.transactions.contains_key(&id) {
                        search = search.taken()?;
                        id = search.candidate(self.clock, 7);
                    }
                    let now = self.tick();
                    let write = transaction.write(&id, now);
                    self.transactions.insert(id, write.transaction);
                    return Ok(write.result);
                }
            };
        }
    }

    fn scope_root(&self, scope: &str) -> Result<Vec<u8>, ApiError> {
        let candidate = self.store.scope_candidate(scope);
        let mut resolved = candidate;
        if resolved.ends_with(b"/") {
            resolved.pop();
        }
        self.store.scope_root(scope, Ok((resolved, true)))
    }

    fn finish(&mut self, id: &str) -> Result<FinishResult, ApiError> {
        let start = self.store.finish(id);
        let reply = match self.transactions.get(id) {
            Some(t) => Loaded::Found(Transaction {
                id: t.id.clone(),
                scope: t.scope.clone(),
                base: t.base.clone(),
                created_at_ms: t.created_at_ms,
            }),
            None => Loaded::Failed(failure(FailureKind::NotFound)),
        };
        let base = start.read(reply)?;
        let manifest = self.load_manifest(&base.transaction.base);
        let scope = base.read(manifest)?.read(self.load_refs())?;
        let root = self.scope_root(&scope.scope)?;
        let read = self.store.snapshot(&root);
        let current = self.snapshot(read)?;
        match scope.taken(current) {
            FinishNext::Unchanged(result) => {
                self.transactions.remove(id);
                Ok(result)
            }
            FinishNext::Changed(change) => {
                let name = self.free_id(change.search());
                let now = self.tick();
                let write = change.write(&name, now);
                self.manifests.insert(name, write.manifest);
                let done = write.next.read(self.load_refs())?;
                self.refs = Some(done.refs);
                self.transactions.remove(id);
                Ok(done.result)
            }
        }
    }

    fn resolve(&self, search: ManifestSearch) -> Result<RestoreState, ApiError> {
        let direct = self.load_manifest(&search.requested);
        let found = match search.read(direct) {
            SearchNext::Found(found) => found,
            SearchNext::List(search) => {
                let mut files = Vec::new();
                for id in self.manifests.keys() {
                    files.push(format!("{id}.json").into_bytes());
                }
                let named = search.listed(Ok(files))?;
                let manifest = self.load_manifest(&named.id);
                named.read(manifest)?
            }
        };
        match found.target()? {
            TargetNext::Restore(state) => Ok(state),
            TargetNext::ReadParent(parent) => {
                let manifest = self.load_manifest(&parent.id);
                parent.read(manifest)
            }
        }
    }

    fn restore_state(&mut self, search: ManifestSearch) -> Result<RestoreResult, ApiError> {
        let state = self.resolve(search)?;
        let root = self.scope_root(&state.target.scope)?;
        let read = self.store.snapshot(&root);
        let current = self.snapshot(read)?;
        let mut next = state.taken(current, self.load_refs())?;
        loop {
            next = match next {
                RestoreNext::ReadHead(head) => {
                    let manifest = self.load_manifest(&head.head_id);
                    head.read(manifest)?
                }
                RestoreNext::Preserve(safety) => {
                    let id = self.free_id(safety.search());
                    let now = self.tick();
                    let write = safety.write(&id, now);
                    self.manifests.insert(id, write.manifest);
                    RestoreNext::Apply(write.next)
                }
                RestoreNext::Apply(apply) => {
                    let plan = apply.plan();
                    if let Err(error) = self.run(&root, plan) {
                        let read = self.store.snapshot(&root);
                        let there = self.snapshot(read);
                        let back = apply.rollback(there);
                        let _ = self.run(&root, back);
                        return Err(error);
                    }
                    let write = apply.applied(self.load_refs())?;
                    self.refs = Some(write.refs);
                    return Ok(write.result);
                }
            };
        }
    }

    fn restore(&mut self, id: &str, force: bool) -> Result<RestoreResult, ApiError> {
        let search = self.store.restore(id, force);
        self.restore_state(search)
    }

    fn undo(&mut self, id: &str, force: bool) -> Result<RestoreResult, ApiError> {
        let search = self.store.undo(id, force);
        self.restore_state(search)
    }

    fn list(&self) -> Vec<CheckpointInfo> {
        let mut listing = self.store.list();
        for manifest in self.manifests.values() {
            listing = listing
                .add(ListedManifest::Manifest(copy_manifest(manifest)))
                .unwrap();
        }
        listing.done()
    }
}

#[test]
fn checkpoint_and_restore_work_without_git() {
    let mut w = world();
    w.write("/w/a.txt", "one");

    let tx1 = w.begin("/w").unwrap();
    w.write("/w/a.txt", "two");
    let first = w.finish(&tx1.transaction_id).unwrap();
    let first_id = first.change_id.unwrap();

    let tx2 = w.begin("/w").unwrap();
    w.write("/w/a.txt", "three");
    w.write("/w/b.txt", "new");
    w.finish(&tx2.transaction_id).unwrap();

    w.restore(&first_id, false).unwrap();
    assert_eq!(w.read("/w/a.txt").unwrap(), "two");
    assert!(!w.is_there("/w/b.txt"));
}

#[test]
fn vcs_metadata_is_never_restored() {
    let mut w = world();
    w.make_dir("/w/.git");
    w.write("/w/.git/HEAD", "before");
    w.write("/w/a.txt", "one");

    let tx = w.begin("/w").unwrap();
    w.write("/w/a.txt", "two");
    let checkpoint = w.finish(&tx.transaction_id).unwrap().change_id.unwrap();

    w.write("/w/.git/HEAD", "after");
    w.restore(&checkpoint, false).unwrap();
    assert_eq!(w.read("/w/.git/HEAD").unwrap(), "after");
}

#[test]
fn undo_restores_state_before_selected_change() {
    let mut w = world();
    w.write("/w/a.txt", "before");
    let tx = w.begin("/w").unwrap();
    w.write("/w/a.txt", "after");
    let change_id = w.finish(&tx.transaction_id).unwrap().change_id.unwrap();

    w.undo(&change_id, false).unwrap();
    assert_eq!(w.read("/w/a.txt").unwrap(), "before");
}

#[test]
fn force_restore_preserves_uncheckpointed_changes_in_safety_checkpoint() {
    let mut w = world();
    w.write("/w/a.txt", "one");
    let tx = w.begin("/w").unwrap();
    w.write("/w/a.txt", "two");
    let checkpoint = w.finish(&tx.transaction_id).unwrap().change_id.unwrap();

    w.write("/w/a.txt", "manual");
    let refused = w.restore(&checkpoint, false).unwrap_err();
    assert_eq!(refused.kind, ErrorKind::Conflict);

    let restored = w.restore(&checkpoint, true).unwrap();
    let safety = restored.safety_checkpoint_id.unwrap();
    assert!(safety.starts_with("safe-"));
    assert_eq!(w.read("/w/a.txt").unwrap(), "two");

    let kept = w.manifests.get(&safety).unwrap();
    assert!(!kept.visible);
    let manual = digest_hex(b"manual");
    assert!(matches!(kept.entries.get("a.txt"), Some(Entry::File { object, .. }) if *object == manual));
}

#[test]
fn generated_directories_are_ignored_by_default() {
    let mut w = world();
    w.make_dir("/w/target");
    w.write("/w/target/artifact", "one");

    let tx = w.begin("/w").unwrap();
    w.write("/w/target/artifact", "two");
    let result = w.finish(&tx.transaction_id).unwrap();

    assert!(!result.changed);
    assert_eq!(w.read("/w/target/artifact").unwrap(), "two");
}

#[test]
fn files_and_links_with_generated_names_are_recorded_and_brought_back() {
    let mut w = world();
    w.write("/w/build", "x");
    w.files.insert(
        b"/w/target".to_vec(),
        Node::Link {
            target: b"elsewhere".to_vec(),
        },
    );
    w.make_dir("/w/dist");
    w.write("/w/dist/out", "made");
    let start = w.store.snapshot(b"/w");
    let tree = w.snapshot(start).unwrap();
    assert_eq!(tree.len(), 2);
    assert!(matches!(tree.get("build"), Some(Entry::File { size: 1, .. })));
    assert!(matches!(tree.get("target"), Some(Entry::Symlink { target }) if target == "elsewhere"));

    let tx = w.begin("/w").unwrap();
    w.write("/w/a.txt", "new");
    let id = w.finish(&tx.transaction_id).unwrap().change_id.unwrap();
    let tx = w.begin("/w").unwrap();
    w.write("/w/build", "y");
    w.files.remove(b"/w/target".as_slice());
    w.write("/w/dist/out", "made again");
    let later = w.finish(&tx.transaction_id).unwrap();
    assert_eq!(later.summary.modified, 1);
    assert_eq!(later.summary.deleted, 1);

    w.restore(&id, false).unwrap();
    assert_eq!(w.read("/w/build").unwrap(), "x");
    assert_eq!(
        w.files.get(b"/w/target".as_slice()),
        Some(&Node::Link {
            target: b"elsewhere".to_vec()
        })
    );
    assert_eq!(w.read("/w/dist/out").unwrap(), "made again");
}

#[test]
fn a_recorded_file_does_not_replace_a_generated_directory_that_holds_something() {
    let mut w = world();
    w.write("/w/build", "x");
    let tx = w.begin("/w").unwrap();
    w.write("/w/a.txt", "new");
    let id = w.finish(&tx.transaction_id).unwrap().change_id.unwrap();
    w.make_dir("/w/build");
    w.write("/w/build/out", "made");
    let refused = w.restore(&id, true).unwrap_err();
    assert_eq!(refused.kind, ErrorKind::Conflict);
    assert_eq!(w.read("/w/build/out").unwrap(), "made");
}

#[test]
fn a_recorded_file_replaces_an_empty_generated_directory() {
    let mut w = world();
    w.write("/w/build", "x");
    let tx = w.begin("/w").unwrap();
    w.write("/w/a.txt", "new");
    let id = w.finish(&tx.transaction_id).unwrap().change_id.unwrap();
    let files = w.files.clone();
    w.make_dir("/w/build");
    w.make_dir("/w/dist");
    w.write("/w/mine.txt", "mine");
    let safety = w.restore(&id, true).unwrap().safety_checkpoint_id.unwrap();
    assert_eq!(w.read("/w/build").unwrap(), "x");
    assert!(w.is_there("/w/dist"));
    w.files.remove(b"/w/dist".as_slice());
    assert_eq!(w.files, files);

    w.restore(&safety, false).unwrap();
    assert_eq!(w.read("/w/mine.txt").unwrap(), "mine");
    assert!(!w.is_there("/w/build"));
}

#[test]
fn a_recorded_file_does_not_replace_a_directory_with_ignored_content() {
    let mut w = world();
    w.write("/w/doc", "x");
    let tx = w.begin("/w").unwrap();
    w.write("/w/a.txt", "new");
    let id = w.finish(&tx.transaction_id).unwrap().change_id.unwrap();
    w.make_dir("/w/doc");
    w.write("/w/doc/page", "one");
    w.make_dir("/w/doc/.git");
    let files = w.files.clone();
    let refused = w.restore(&id, true).unwrap_err();
    assert_eq!(refused.kind, ErrorKind::Conflict);
    assert_eq!(w.files, files);
}

#[test]
fn scope_names_keep_the_bytes_of_the_path() {
    let store = world().store;
    assert_eq!(store.begin(b"/w/a//b").unwrap().scope, "a//b");
    assert_eq!(store.begin(b"/w/a/b/").unwrap().scope, "a/b");
    assert_eq!(store.begin(b"/w").unwrap().scope, "");
    assert_eq!(store.scope_candidate("a//b"), b"/w/a//b".to_vec());
}

#[test]
fn generated_directories_are_recorded_on_request() {
    let read = DirectoryRead::start(b"/w", b"/s", true)
        .listed(Ok(vec![b"build".to_vec()]))
        .unwrap();
    let entry = match read.next() {
        Visit::Inspect(entry) => entry,
        Visit::Done(_) => panic!("nothing to visit"),
    };
    let directory = Inspected {
        kind: NodeKind::Directory,
        mode: 0o40755,
        size: 0,
    };
    match entry.inspected(Ok(directory)).unwrap() {
        EntryVisit::Directory(next) => assert_eq!(next.directory(), b"/w/build".to_vec()),
        _ => panic!("not a directory"),
    }
}

#[test]
fn a_safety_checkpoint_takes_a_forced_restore_back() {
    let mut w = world();
    w.write("/w/a.txt", "one");
    let tx = w.begin("/w").unwrap();
    w.write("/w/a.txt", "two");
    let id = w.finish(&tx.transaction_id).unwrap().change_id.unwrap();
    w.write("/w/a.txt", "manual");
    w.write("/w/b.txt", "mine");
    let files = w.files.clone();
    let listed = w.list();

    let safety = w.restore(&id, true).unwrap().safety_checkpoint_id.unwrap();
    assert!(!w.is_there("/w/b.txt"));
    assert_eq!(w.list(), listed);
    let back = w.restore(&safety, false).unwrap();
    assert!(back.safety_checkpoint_id.is_none());
    assert_eq!(w.files, files);
    assert_eq!(w.list(), listed);
}

#[test]
fn a_second_begin_starts_from_the_same_state() {
    let mut w = world();
    w.write("/w/a.txt", "one");
    let first = w.begin("/w").unwrap();
    let manifests = w.manifests.len();
    let second = w.begin("/w").unwrap();
    assert_ne!(first.transaction_id, second.transaction_id);
    assert_eq!(first.scope, second.scope);
    assert_eq!(
        w.transactions[&first.transaction_id].base,
        w.transactions[&second.transaction_id].base
    );
    assert_eq!(w.manifests.len(), manifests);
}

#[test]
fn finish_without_changes_does_not_create_visible_checkpoint() {
    let mut w = world();
    w.write("/w/a.txt", "one");
    let tx = w.begin("/w").unwrap();
    let result = w.finish(&tx.transaction_id).unwrap();
    assert!(!result.changed);
    assert!(result.change_id.is_none());
    assert!(w.list().is_empty());
}

#[test]
fn restore_brings_back_every_kind_of_entry() {
    let mut w = world();
    w.make_dir("/w/src");
    w.make_dir("/w/src/deep");
    w.write("/w/src/deep/lib.rs", "code");
    w.files.insert(
        b"/w/link".to_vec(),
        Node::Link {
            target: b"src/deep".to_vec(),
        },
    );
    w.files.insert(b"/w/pipe".to_vec(), Node::Socket);
    let tx = w.begin("/w").unwrap();
    w.write("/w/src/deep/lib.rs", "changed");
    w.finish(&tx.transaction_id).unwrap();
    let before = w.manifests.keys().find(|id| id.starts_with("base-")).unwrap().clone();

    // The link becomes a directory, the directory a file, the file goes.
    w.files.remove(b"/w/link".as_slice());
    w.make_dir("/w/link");
    w.write("/w/link/inner", "x");
    w.files.remove(b"/w/src/deep/lib.rs".as_slice());
    w.write("/w/src/deep", "now a file");
    let restored = w.restore(&before, true).unwrap();
    assert_eq!(restored.restored_to, before);
    assert_eq!(restored.scope, "");

    assert_eq!(w.read("/w/src/deep/lib.rs").unwrap(), "code");
    assert_eq!(
        w.files.get(b"/w/link".as_slice()),
        Some(&Node::Link {
            target: b"src/deep".to_vec()
        })
    );
    assert!(!w.is_there("/w/link/inner"));
    assert_eq!(w.files.get(b"/w/pipe".as_slice()), Some(&Node::Socket));
}

#[test]
fn directories_with_ignored_contents_stay() {
    let mut w = world();
    w.write("/w/a.txt", "one");
    let tx = w.begin("/w").unwrap();
    w.write("/w/a.txt", "two");
    let id = w.finish(&tx.transaction_id).unwrap().change_id.unwrap();
    w.make_dir("/w/nested");
    w.make_dir("/w/nested/.git");
    w.write("/w/nested/.git/HEAD", "kept");
    w.write("/w/nested/file", "goes");
    w.restore(&id, true).unwrap();
    assert_eq!(w.read("/w/nested/.git/HEAD").unwrap(), "kept");
    assert!(!w.is_there("/w/nested/file"));
    assert!(w.is_there("/w/nested"));
}

#[test]
fn history_survives_going_back_and_forth() {
    let mut w = world();
    w.write("/w/a.txt", "0");
    let mut ids = Vec::new();
    for n in ["1", "2", "3"] {
        let tx = w.begin("/w").unwrap();
        w.write("/w/a.txt", n);
        ids.push(w.finish(&tx.transaction_id).unwrap().change_id.unwrap());
    }
    w.restore(&ids[0], false).unwrap();
    assert_eq!(w.read("/w/a.txt").unwrap(), "1");
    w.restore(&ids[2], false).unwrap();
    assert_eq!(w.read("/w/a.txt").unwrap(), "3");
    w.undo(&ids[1], false).unwrap();
    assert_eq!(w.read("/w/a.txt").unwrap(), "1");
    let listed = w.list();
    assert_eq!(listed.len(), 3);
    assert_eq!(listed[0].id, ids[2]);
    assert_eq!(listed[2].id, ids[0]);
    assert_eq!(
        listed[1].summary,
        ChangeSummary {
            created: 0,
            modified: 1,
            deleted: 0
        }
    );
}

#[test]
fn overtaken_changes_are_stale() {
    let mut w = world();
    w.write("/w/a.txt", "0");
    let first = w.begin("/w").unwrap();
    let second = w.begin("/w").unwrap();
    assert_ne!(first.transaction_id, second.transaction_id);
    w.write("/w/a.txt", "1");
    assert!(w.finish(&first.transaction_id).unwrap().changed);
    let refused = w.finish(&second.transaction_id).unwrap_err();
    assert_eq!(refused.kind, ErrorKind::Conflict);
    assert_eq!(
        refused.message,
        "checkpoint transaction is stale because the workspace history changed"
    );
    let unknown = w.finish("tx-none").unwrap_err();
    assert_eq!(unknown.kind, ErrorKind::NotFound);
    assert_eq!(unknown.message, "checkpoint transaction not found: tx-none");
}

#[test]
fn a_clean_scope_is_not_recorded_again() {
    let mut w = world();
    w.write("/w/a.txt", "0");
    w.begin("/w").unwrap();
    assert_eq!(w.manifests.len(), 1);
    w.begin("/w").unwrap();
    assert_eq!(w.manifests.len(), 1);
}

#[test]
fn scopes_are_named_from_the_workspace() {
    let mut w = world();
    w.make_dir("/w/app");
    w.write("/w/app/a", "0");
    let begun = w.begin("/w/app").unwrap();
    assert_eq!(begun.scope, "app");
    let refused = w.begin("/elsewhere").unwrap_err();
    assert_eq!(refused.kind, ErrorKind::Forbidden);
    assert_eq!(
        refused.message,
        "checkpoint scope escapes the configured workspace"
    );
    let odd = w.store.begin(b"/w/\xff").unwrap_err();
    assert_eq!(odd.kind, ErrorKind::BadRequest);
    assert_eq!(odd.message, "checkpoint scope path must be valid UTF-8");
}

#[test]
fn short_ids_are_resolved() {
    let search = || world().store.restore(" abc123 ", true);
    let files = vec![
        b"chg-ABC123.json".to_vec(),
        b"base-FFFFFF.json".to_vec(),
        b"notes.txt".to_vec(),
    ];
    let named = search().listed(Ok(files)).unwrap();
    assert_eq!(named.id, "chg-ABC123");
    assert!(named.force);
    assert!(!named.undo);
    let gone = named
        .read(Loaded::Failed(failure(FailureKind::NotFound)))
        .unwrap_err();
    assert_eq!(gone.message, "checkpoint not found: chg-ABC123");
    let two = vec![b"chg-ABC123.json".to_vec(), b"safe-ABC123.json".to_vec()];
    let ambiguous = search().listed(Ok(two)).unwrap_err();
    assert_eq!(ambiguous.kind, ErrorKind::Conflict);
    assert_eq!(ambiguous.message, "checkpoint id is ambiguous:  abc123 ");
    let none = search().listed(Ok(Vec::new())).unwrap_err();
    assert_eq!(none.kind, ErrorKind::NotFound);
    assert_eq!(none.message, "checkpoint not found:  abc123 ");
    let broken = search().listed(Err(failure(FailureKind::Other))).unwrap_err();
    assert_eq!(broken.message, "failed to search checkpoints: broken");
}

#[test]
fn undo_needs_a_parent() {
    let root = Manifest {
        id: "base-1".to_owned(),
        scope: String::new(),
        parent: None,
        created_at_ms: 1,
        visible: false,
        summary: ChangeSummary::default(),
        entries: Tree::new(),
    };
    let store = world().store;
    let found = match store.undo("base-1", false).read(Loaded::Found(root)) {
        SearchNext::Found(found) => found,
        SearchNext::List(_) => panic!("the manifest was there"),
    };
    let refused = found.target().unwrap_err();
    assert_eq!(refused.kind, ErrorKind::Conflict);
    assert_eq!(refused.message, "checkpoint has no parent state to restore");
}

#[test]
fn an_unreadable_manifest_is_searched_for() {
    let store = world().store;
    let search = store.restore("chg-1", false);
    let next = search.read(Loaded::Invalid("eof".to_owned()));
    assert_eq!(next, SearchNext::List(store.restore("chg-1", false)));
}

#[test]
fn broken_heads_stop_every_operation() {
    let mut w = world();
    w.write("/w/a.txt", "one");
    let change = w.store.begin(b"/w").unwrap();
    let start = w.store.snapshot(b"/w");
    let current = w.snapshot(start).unwrap();
    let refused = change
        .taken(current, Loaded::Invalid("eof".to_owned()))
        .unwrap_err();
    assert_eq!(refused.message, "invalid checkpoint refs: eof");

    let tx = w.begin("/w").unwrap();
    let t = &w.transactions[&tx.transaction_id];
    let transaction = Transaction {
        id: t.id.clone(),
        scope: t.scope.clone(),
        base: t.base.clone(),
        created_at_ms: t.created_at_ms,
    };
    let base = w
        .store
        .finish(&tx.transaction_id)
        .read(Loaded::Found(transaction))
        .unwrap();
    let manifest = w.load_manifest(&base.transaction.base);
    let refused = base
        .read(manifest)
        .unwrap()
        .read(Loaded::Failed(failure(FailureKind::Other)))
        .unwrap_err();
    assert_eq!(refused.kind, ErrorKind::Internal);
    assert_eq!(refused.message, "failed to read checkpoint refs: broken");
}

#[test]
fn a_scope_without_history_is_restored_only_with_force() {
    let mut w = world();
    w.write("/w/a.txt", "here");
    let target = Manifest {
        id: "chg-1".to_owned(),
        scope: String::new(),
        parent: None,
        created_at_ms: 1,
        visible: true,
        summary: ChangeSummary::default(),
        entries: Tree::new(),
    };
    w.manifests.insert("chg-1".to_owned(), target);
    assert_eq!(w.restore("chg-1", false).unwrap_err().kind, ErrorKind::Conflict);
    w.restore("CHG-1", true).unwrap();
    assert!(!w.is_there("/w/a.txt"));
    let refs = read_refs(w.load_refs()).unwrap();
    assert_eq!(refs.get("").unwrap(), "chg-1");
}

#[test]
fn ids_are_derived_from_digests() {
    let search = IdSearch::start("chg");
    let id = search.candidate(17, 42);
    assert_eq!(id.len(), 10);
    assert!(id.starts_with("chg-"));
    assert!(id[4..].chars().all(|c| c.is_ascii_digit() || ('A'..='F').contains(&c)));
    let seed = digest_hex(b"17:42:chg:0");
    assert_eq!(
        search.candidate(17, 42),
        format!("chg-{}", seed[..6].to_ascii_uppercase())
    );
    let next = search.taken().unwrap();
    let seed = digest_hex(b"17:42:chg:1");
    assert_eq!(
        next.candidate(17, 42),
        format!("chg-{}", seed[..6].to_ascii_uppercase())
    );
    let mut last = IdSearch::start("base");
    for _ in 0..999 {
        last = last.taken().unwrap();
    }
    assert_eq!(
        last.taken().unwrap_err().message,
        "failed to allocate checkpoint id"
    );
    let seed = digest_hex(b"17:42:tx:0");
    assert_eq!(
        TransactionIdSearch::start().candidate(17, 42),
        format!("tx-{}", &seed[..10])
    );
    let mut last = TransactionIdSearch::start();
    for _ in 0..999 {
        last = last.taken().unwrap();
    }
    assert_eq!(
        last.taken().unwrap_err().message,
        "failed to allocate checkpoint transaction id"
    );
}

#[test]
fn digests_are_sha256() {
    assert_eq!(
        digest_hex(b"abc"),
        "ba7816bf8f01cfea414140de5dae2223b00361a396177a9cb410ff61f20015ad"
    );
    assert_eq!(
        digest_hex(b""),
        "e3b0c44298fc1c149afbf4c8996fb92427ae41e4649b934ca495991b7852b855"
    );
}

#[test]
fn stores_are_laid_out_by_workspace() {
    let w = world();
    let key = digest_hex(b"/w");
    let root = format!("/state/checkpoints/{}", &key[..24]);
    let directories = w.store.directories();
    assert_eq!(directories[0], root.clone().into_bytes());
    assert_eq!(directories[1], format!("{root}/objects").into_bytes());
    assert_eq!(directories[2], format!("{root}/manifests").into_bytes());
    assert_eq!(directories[3], format!("{root}/transactions").into_bytes());
    assert_eq!(
        w.store.manifest_path("chg-1"),
        format!("{root}/manifests/chg-1.json").into_bytes()
    );
    assert_eq!(
        w.store.transaction_path("tx-1"),
        format!("{root}/transactions/tx-1.json").into_bytes()
    );
    assert_eq!(w.store.refs_path(), format!("{root}/refs.json").into_bytes());
    let (directory, file) = w.store.object_path("abcdef");
    assert_eq!(directory, format!("{root}/objects/ab").into_bytes());
    assert_eq!(file, format!("{root}/objects/ab/abcdef").into_bytes());
}

#[test]
fn the_environment_places_the_store() {
    let mut environment = StateEnvironment {
        bridge_state: Some(b"/own".to_vec()),
        system_state: Some(b"/xdg".to_vec()),
        home: Some(b"/home/u".to_vec()),
        include_generated: Some(b" Yes ".to_vec()),
    };
    let directory = CheckpointStore::new(b"/w", &environment).unwrap();
    assert_eq!(directory.path, b"/own/checkpoints".to_vec());
    assert!(directory.include_generated);
    environment.bridge_state = None;
    environment.include_generated = None;
    let directory = CheckpointStore::new(b"/w", &environment).unwrap();
    assert_eq!(directory.path, b"/xdg/chatgpt-bridge/checkpoints".to_vec());
    assert!(!directory.include_generated);
    environment.system_state = None;
    let directory = CheckpointStore::new(b"/w", &environment).unwrap();
    assert_eq!(
        directory.path,
        b"/home/u/.local/state/chatgpt-bridge/checkpoints".to_vec()
    );
    let unresolved = directory.resolved(Err(failure(FailureKind::Other))).unwrap_err();
    assert_eq!(
        unresolved.message,
        "failed to resolve checkpoint state directory: broken"
    );
    environment.home = None;
    assert_eq!(
        CheckpointStore::new(b"/w", &environment).unwrap_err().message,
        "HOME is not set; configure CHATGPT_BRIDGE_STATE_DIR"
    );
    let refused = env_bool("NAME", &Some(b"maybe".to_vec()), true).unwrap_err();
    assert_eq!(refused.kind, ErrorKind::BadRequest);
    assert_eq!(refused.message, "invalid NAME; expected true or false");
    assert!(env_bool("NAME", &None, true).unwrap());
    assert!(!env_bool("NAME", &Some(b"OFF\n".to_vec()), true).unwrap());
}

#[test]
fn scopes_have_to_be_safe_directories() {
    let w = world();
    let gone = w
        .store
        .scope_root("app", Err(failure(FailureKind::NotFound)))
        .unwrap_err();
    assert_eq!(gone.kind, ErrorKind::NotFound);
    assert_eq!(gone.message, "checkpoint scope no longer exists: \"app\"");
    let broken = w
        .store
        .scope_root("app", Err(failure(FailureKind::Other)))
        .unwrap_err();
    assert_eq!(broken.message, "failed to resolve checkpoint scope: broken");
    for reply in [(b"/other".to_vec(), true), (b"/w/app".to_vec(), false)] {
        let refused = w.store.scope_root("app", Ok(reply)).unwrap_err();
        assert_eq!(refused.kind, ErrorKind::Forbidden);
    }
    assert_eq!(
        w.store.scope_root("app", Ok((b"/w/app".to_vec(), true))).unwrap(),
        b"/w/app".to_vec()
    );
}

#[test]
fn recorded_values_are_read() {
    assert_eq!(
        read_manifest("x", Loaded::Failed(failure(FailureKind::Other)))
            .unwrap_err()
            .message,
        "failed to read checkpoint: broken"
    );
    assert_eq!(
        read_manifest("x", Loaded::Failed(failure(FailureKind::NotFound)))
            .unwrap_err()
            .message,
        "checkpoint not found: x"
    );
    assert_eq!(
        read_manifest("x", Loaded::Invalid("eof".to_owned()))
            .unwrap_err()
            .message,
        "invalid checkpoint manifest: eof"
    );
    assert_eq!(
        read_transaction("x", Loaded::Invalid("eof".to_owned()))
            .unwrap_err()
            .message,
        "invalid checkpoint transaction: eof"
    );
    assert_eq!(
        read_transaction("x", Loaded::Failed(failure(FailureKind::Other)))
            .unwrap_err()
            .message,
        "failed to read checkpoint transaction: broken"
    );
    assert_eq!(
        read_refs(Loaded::Invalid("eof".to_owned())).unwrap_err().message,
        "invalid checkpoint refs: eof"
    );
    assert_eq!(
        read_refs(Loaded::Failed(failure(FailureKind::Other)))
            .unwrap_err()
            .message,
        "failed to read checkpoint refs: broken"
    );
    assert!(remove_transaction(Ok(())).is_ok());
    assert!(remove_transaction(Err(failure(FailureKind::NotFound))).is_ok());
    assert_eq!(
        remove_transaction(Err(failure(FailureKind::Other)))
            .unwrap_err()
            .message,
        "failed to remove checkpoint transaction: broken"
    );
    assert_eq!(
        serialize_failed("odd").message,
        "failed to serialize checkpoint state: odd"
    );
}

#[test]
fn listings_fail_on_broken_manifests() {
    let store = world().store;
    let cases = [
        (
            ListedManifest::Unlisted(failure(FailureKind::Other)),
            "failed to list checkpoint manifests: broken",
        ),
        (
            ListedManifest::Unknown(failure(FailureKind::Other)),
            "failed to inspect checkpoint manifest: broken",
        ),
        (
            ListedManifest::Unread(failure(FailureKind::Other)),
            "failed to read checkpoint manifest: broken",
        ),
        (
            ListedManifest::Invalid("eof".to_owned()),
            "invalid checkpoint manifest: eof",
        ),
    ];
    for (item, message) in cases {
        assert_eq!(store.list().add(item).unwrap_err().message, message);
    }
    assert!(store.list().add(ListedManifest::NoFile).unwrap().done().is_empty());
}

#[test]
fn files_are_written_in_one_piece() {
    let write = write_atomic(b"/a/b.json", 3, 99).unwrap();
    assert_eq!(write.parent, b"/a".to_vec());
    assert_eq!(write.temporary, b"/a/.b.json.tmp-3-99".to_vec());
    assert_eq!(write.target, b"/a/b.json".to_vec());
    let odd = write_atomic(b"/a/\xff", 3, 99).unwrap();
    assert_eq!(odd.temporary, b"/a/.checkpoint.tmp-3-99".to_vec());
    assert_eq!(
        write_atomic(b"/", 3, 99).unwrap_err().message,
        "checkpoint path has no parent"
    );
    let broken = failure(FailureKind::Other);
    assert_eq!(
        write_failed(WriteStep::CreateParent, &broken).message,
        "failed to create checkpoint parent directory: broken"
    );
    assert_eq!(
        write_failed(WriteStep::CreateTemporary, &broken).message,
        "failed to create temporary checkpoint file: broken"
    );
    assert_eq!(
        write_failed(WriteStep::Fill, &broken).message,
        "failed to write temporary checkpoint file: broken"
    );
    assert_eq!(
        write_failed(WriteStep::Install, &broken).message,
        "failed to install checkpoint file atomically: broken"
    );
    assert_eq!(
        create_private_dir_failed(PrivateDirectoryStep::Create, &broken).message,
        "failed to create checkpoint directory: broken"
    );
    assert_eq!(
        create_private_dir_failed(PrivateDirectoryStep::Secure, &broken).message,
        "failed to secure checkpoint directory: broken"
    );
}

fn item(path: &str, entry: Entry) -> TreeItem {
    TreeItem {
        path: path.to_owned(),
        entry,
    }
}

fn file(object: &str) -> Entry {
    Entry::File {
        object: object.to_owned(),
        mode: 0o100644,
        size: 1,
    }
}

#[test]
fn summaries_count_paths() {
    let before = Tree::from_items(vec![
        item("a", file("1")),
        item("b", file("1")),
        item("c", file("1")),
    ]);
    let after = Tree::from_items(vec![
        item("b", file("2")),
        item("c", file("1")),
        item("d", file("1")),
        item("e", file("1")),
    ]);
    let summary = diff_summary(&before, &after);
    assert_eq!(
        summary,
        ChangeSummary {
            created: 2,
            modified: 1,
            deleted: 1
        }
    );
    assert_eq!(summary.total(), 4);
    assert_eq!(
        diff_summary(&after, &before),
        ChangeSummary {
            created: 1,
            modified: 1,
            deleted: 2
        }
    );
    assert_eq!(diff_summary(&after, &after).total(), 0);
    assert!(diff_summary(&after, &after).is_empty());
}

#[test]
fn plans_go_by_depth() {
    let current = Tree::from_items(vec![
        item("a", Entry::Directory { mode: 0o40755 }),
        item("a/b", Entry::Directory { mode: 0o40755 }),
        item("a/b/c", file("1")),
        item("z", Entry::Symlink { target: "q".to_owned() }),
    ]);
    let target = Tree::from_items(vec![
        item("n", Entry::Directory { mode: 0o40500 }),
        item("n/m", Entry::Directory { mode: 0o40755 }),
        item("n/m/f", file("2")),
        item("z", file("3")),
    ]);
    let plan = apply_manifest(&current, &target);
    assert_eq!(
        plan.removals,
        vec![
            RestoreOp::RemoveFile { path: "a/b/c".to_owned() },
            RestoreOp::RemoveDirectory { path: "a/b".to_owned() },
            RestoreOp::RemoveDirectory { path: "a".to_owned() },
            RestoreOp::RemoveFile { path: "z".to_owned() },
        ]
    );
    assert_eq!(
        plan.preparations,
        vec![
            RestoreOp::PrepareDirectory { path: "n".to_owned(), mode: 0o40500 },
            RestoreOp::PrepareDirectory { path: "n/m".to_owned(), mode: 0o40755 },
        ]
    );
    assert_eq!(
        plan.placements,
        vec![
            RestoreOp::PlaceFile {
                path: "n/m/f".to_owned(),
                object: "2".to_owned(),
                mode: 0o100644
            },
            RestoreOp::PlaceFile {
                path: "z".to_owned(),
                object: "3".to_owned(),
                mode: 0o100644
            },
        ]
    );
    assert_eq!(
        plan.seals,
        vec![
            RestoreOp::SealDirectory { path: "n/m".to_owned(), mode: 0o40755 },
            RestoreOp::SealDirectory { path: "n".to_owned(), mode: 0o40500 },
        ]
    );
    let actions = plan.preparations[0]
        .actions(&Err(failure(FailureKind::NotFound)))
        .unwrap();
    assert_eq!(
        actions,
        vec![
            FsAction::CreateDirectory { path: "n".to_owned() },
            FsAction::PrepareMode { path: "n".to_owned(), mode: 0o40700 },
        ]
    );
    assert_eq!(path_depth("a/b/c"), 3);
    assert_eq!(path_depth("a//./c/"), 2);
}

#[test]
fn failed_operations_are_told_apart() {
    let gone = failure(FailureKind::NotFound);
    let full = failure(FailureKind::DirectoryNotEmpty);
    let other = failure(FailureKind::Other);
    let p = "p".to_owned();
    let dir = FsAction::RemoveStaleDirectory { path: p.clone() };
    assert!(dir.failed(&gone).is_ok());
    assert!(dir.failed(&full).is_ok());
    assert_eq!(
        dir.failed(&other).unwrap_err().message,
        "failed to remove directory \"p\": broken"
    );
    let stale = FsAction::RemoveStaleFile { path: p.clone() };
    assert!(stale.failed(&gone).is_ok());
    assert_eq!(
        stale.failed(&full).unwrap_err().message,
        "failed to remove path \"p\": broken"
    );
    let replace = FsAction::ReplaceDirectory { path: p.clone() };
    let refused = replace.failed(&full).unwrap_err();
    assert_eq!(refused.kind, ErrorKind::Conflict);
    assert_eq!(
        refused.message,
        "cannot replace non-empty directory \"p\": broken"
    );
    let cases = [
        (
            FsAction::RemoveNonDirectory { path: p.clone() },
            "failed to replace path with directory during restore: broken",
        ),
        (
            FsAction::CreateDirectory { path: p.clone() },
            "failed to create directory during restore: broken",
        ),
        (
            FsAction::PrepareMode { path: p.clone(), mode: 0 },
            "failed to prepare directory permissions during restore: broken",
        ),
        (
            FsAction::ReplaceFile { path: p.clone() },
            "failed to replace symlink during restore: broken",
        ),
        (
            FsAction::ReadObject { object: p.clone() },
            "failed to read checkpoint object: broken",
        ),
        (
            FsAction::WriteFile { path: p.clone(), object: p.clone() },
            "failed to install checkpoint file atomically: broken",
        ),
        (
            FsAction::SetFileMode { path: p.clone(), mode: 0 },
            "failed to restore file permissions: broken",
        ),
        (
            FsAction::MakeSymlink { path: p.clone(), target: p.clone() },
            "failed to restore symlink: broken",
        ),
        (
            FsAction::SetDirectoryMode { path: p.clone(), mode: 0 },
            "failed to restore directory permissions: broken",
        ),
    ];
    for (action, message) in cases {
        assert_eq!(action.failed(&gone).unwrap_err().message, message);
    }
    let place = RestoreOp::PlaceSymlink { path: p.clone(), target: p.clone() };
    assert_eq!(
        place.actions(&Err(failure(FailureKind::Other))).unwrap_err().message,
        "failed to inspect \"p\": broken"
    );
    assert_eq!(
        remove_non_directory("p", &Err(failure(FailureKind::Other)))
            .unwrap_err()
            .message,
        "failed to inspect \"p\": broken"
    );
}

#[test]
fn snapshots_fail_where_something_cannot_be_read() {
    let broken = || failure(FailureKind::Other);
    let start = || DirectoryRead::start(b"/w", b"/state", false);
    assert_eq!(
        start().listed(Err(broken())).unwrap_err().message,
        "failed to read workspace during checkpoint: broken"
    );
    let entry = |name: &[u8]| {
        match start().listed(Ok(vec![name.to_vec()])).unwrap().next() {
            Visit::Inspect(entry) => entry,
            Visit::Done(_) => panic!("nothing to visit"),
        }
    };
    let told = |kind: NodeKind| Inspected { kind, mode: 0, size: 0 };
    assert_eq!(entry(b"f").path(), b"/w/f".to_vec());
    assert_eq!(
        entry(b"f").inspected(Err(broken())).unwrap_err().message,
        "failed to inspect workspace during checkpoint: broken"
    );
    match entry(b"\xff").inspected(Ok(told(NodeKind::Other))).unwrap() {
        EntryVisit::NotText(refused) => {
            assert_eq!(refused.path(), b"\xff");
            let e = refused.refusal("\"\\xFF\"");
            assert_eq!(e.kind, ErrorKind::BadRequest);
            assert_eq!(e.message, "workspace path is not valid UTF-8: \"\\xFF\"");
        }
        _ => panic!("text"),
    }
    match entry(b"l").inspected(Ok(told(NodeKind::Symlink))).unwrap() {
        EntryVisit::Link(link) => {
            let e = link.read(Ok(b"\xff".to_vec())).unwrap_err();
            assert_eq!(e.kind, ErrorKind::BadRequest);
            assert_eq!(e.message, "symlink target is not valid UTF-8: l");
        }
        _ => panic!("no link"),
    }
    match entry(b"l").inspected(Ok(told(NodeKind::Symlink))).unwrap() {
        EntryVisit::Link(link) => assert_eq!(
            link.read(Err(broken())).unwrap_err().message,
            "failed to read symlink during checkpoint: broken"
        ),
        _ => panic!("no link"),
    }
    match entry(b"f").inspected(Ok(told(NodeKind::File))).unwrap() {
        EntryVisit::File(file) => assert_eq!(
            file.read(Err(broken())).unwrap_err().message,
            "failed to read file during checkpoint: broken"
        ),
        _ => panic!("no file"),
    }
    match entry(b"f").inspected(Ok(told(NodeKind::File))).unwrap() {
        EntryVisit::File(file) => {
            let object = file.read(Ok(b"abc".to_vec())).unwrap();
            assert_eq!(object.object(), digest_hex(b"abc"));
            let refused = ApiError::internal("full");
            assert_eq!(object.stored(Err(refused)).unwrap_err().message, "full");
        }
        _ => panic!("no file"),
    }
}

#[test]
fn snapshots_visit_names_in_order_and_leave_some_out() {
    let names = vec![
        b"b".to_vec(),
        b".git".to_vec(),
        b"state".to_vec(),
        b"a".to_vec(),
        b"node_modules".to_vec(),
    ];
    let walk = DirectoryRead::start(b"/w", b"/w/state", false)
        .listed(Ok(names))
        .unwrap();
    let other = || {
        Ok(Inspected {
            kind: NodeKind::Other,
            mode: 0,
            size: 0,
        })
    };
    let walk = match walk.next() {
        Visit::Inspect(entry) => {
            assert_eq!(entry.path(), b"/w/a".to_vec());
            match entry.inspected(other()).unwrap() {
                EntryVisit::Skipped(walk) => walk,
                _ => panic!("not skipped"),
            }
        }
        Visit::Done(_) => panic!("nothing to visit"),
    };
    let walk = match walk.next() {
        Visit::Inspect(entry) => {
            assert_eq!(entry.path(), b"/w/b".to_vec());
            match entry.inspected(other()).unwrap() {
                EntryVisit::Skipped(walk) => walk,
                _ => panic!("not skipped"),
            }
        }
        Visit::Done(_) => panic!("nothing to visit"),
    };
    let walk = match walk.next() {
        Visit::Inspect(entry) => {
            assert_eq!(entry.path(), b"/w/node_modules".to_vec());
            let directory = Inspected {
                kind: NodeKind::Directory,
                mode: 0o40755,
                size: 0,
            };
            match entry.inspected(Ok(directory)).unwrap() {
                EntryVisit::Skipped(walk) => walk,
                _ => panic!("not skipped"),
            }
        }
        Visit::Done(_) => panic!("nothing to visit"),
    };
    assert!(matches!(walk.next(), Visit::Done(tree) if tree.len() == 0));
    assert!(is_vcs_metadata(b".hg"));
    assert!(is_vcs_metadata(b".svn"));
    assert!(!is_vcs_metadata(b".gitignore"));
    for name in [
        "node_modules", "target", ".venv", "venv", "__pycache__", ".pytest_cache", ".mypy_cache",
        ".cache", "dist", "build", ".next", ".nuxt", "coverage",
    ] {
        assert!(is_generated_dir(name.as_bytes()));
    }
    assert!(!is_generated_dir(b"src"));
}
