//! What the history of a workspace is made of: recorded states, the changes
//! under way and the state that each scope is at.

use vstd::prelude::*;

use crate::text;
use crate::tree::EntryView;
use crate::tree::Tree;

verus! {

/// How many paths a change created, modified and deleted.
#[derive(Debug, Clone, Copy, PartialEq, Eq, Structural)]
pub struct ChangeSummary {
    pub created: usize,
    pub modified: usize,
    pub deleted: usize,
}

impl Default for ChangeSummary {
    fn default() -> (s: ChangeSummary)
        ensures
            s == (ChangeSummary { created: 0, modified: 0, deleted: 0 }),
    {
        ChangeSummary { created: 0, modified: 0, deleted: 0 }
    }
}

impl ChangeSummary {
    /// The number of paths that changed.
    pub open spec fn count(self) -> int {
        self.created + self.modified + self.deleted
    }

    /// The number of paths that changed.
    pub fn total(&self) -> (n: usize)
        requires
            self.count() <= usize::MAX,
        ensures
            n == self.count(),
    {
        self.created + self.modified + self.deleted
    }

    /// Whether no path changed.
    pub fn is_empty(&self) -> (r: bool)
        ensures
            r == (self.count() == 0),
    {
        self.created == 0 && self.modified == 0 && self.deleted == 0
    }
}

/// The paths that are recorded after a change and not before it.
pub open spec fn created(
    before: Map<Seq<u8>, EntryView>,
    after: Map<Seq<u8>, EntryView>,
) -> Set<Seq<u8>> {
    after.dom().filter(|p: Seq<u8>| !before.contains_key(p))
}

/// The paths that are recorded before and after a change, with another entry.
pub open spec fn modified(
    before: Map<Seq<u8>, EntryView>,
    after: Map<Seq<u8>, EntryView>,
) -> Set<Seq<u8>> {
    after.dom().filter(|p: Seq<u8>| before.contains_key(p) && before[p] != after[p])
}

/// The paths that are recorded before a change and not after it.
pub open spec fn deleted(
    before: Map<Seq<u8>, EntryView>,
    after: Map<Seq<u8>, EntryView>,
) -> Set<Seq<u8>> {
    before.dom().filter(|p: Seq<u8>| !after.contains_key(p))
}

/// Whether a summary counts the paths that a change created, modified and
/// deleted.
pub open spec fn is_summary(
    before: Map<Seq<u8>, EntryView>,
    after: Map<Seq<u8>, EntryView>,
    summary: ChangeSummary,
) -> bool {
    &&& summary.created == created(before, after).len()
    &&& summary.modified == modified(before, after).len()
    &&& summary.deleted == deleted(before, after).len()
}

/// Counts the paths that a change created, modified and deleted.
pub fn diff_summary(before: &Tree, after: &Tree) -> (summary: ChangeSummary)
    requires
        before.wf(),
        after.wf(),
    ensures
        is_summary(before@, after@, summary),
        summary.count() == 0 <==> before@ == after@,
{
    let mut summary = ChangeSummary { created: 0, modified: 0, deleted: 0 };
    let ghost akeys = after.keys();
    let ghost bkeys = before.keys();
    let ghost mut c: Set<Seq<u8>> = Set::empty();
    let ghost mut m: Set<Seq<u8>> = Set::empty();
    let ghost mut d: Set<Seq<u8>> = Set::empty();
    proof {
        after.lemma_keys();
        before.lemma_keys();
    }
    let n = after.len();
    let mut i: usize = 0;
    while i < n
        invariant
            i <= n,
            n == akeys.len(),
            akeys == after.keys(),
            akeys.no_duplicates(),
            after.wf(),
            before.wf(),
            c.finite(),
            m.finite(),
            c.len() == summary.created,
            m.len() == summary.modified,
            summary.deleted == 0,
            summary.created <= i,
            summary.modified <= i,
            forall|p: Seq<u8>| #[trigger]
                c.contains(p) <==> akeys.take(i as int).contains(p) && !before@.contains_key(p),
            forall|p: Seq<u8>| #[trigger]
                m.contains(p) <==> akeys.take(i as int).contains(p) && before@.contains_key(p)
                    && before@[p] != after@[p],
        decreases n - i,
    {
        let ghost p = akeys[i as int];
        proof {
            lemma_take_next(akeys, i as int);
            assert(!akeys.take(i as int).contains(p));
        }
        match before.get(after.path_at(i).as_str()) {
            None => {
                summary.created = summary.created + 1;
                proof {
                    c = c.insert(p);
                }
            },
            Some(previous) => {
                if !previous.same(after.entry_at(i)) {
                    summary.modified = summary.modified + 1;
                    proof {
                        m = m.insert(p);
                    }
                }
            },
        }
        i = i + 1;
    }
    proof {
        assert(akeys.take(n as int) == akeys);
        assert(c =~= created(before@, after@));
        assert(m =~= modified(before@, after@));
    }
    let k = before.len();
    let mut j: usize = 0;
    while j < k
        invariant
            j <= k,
            k == bkeys.len(),
            bkeys == before.keys(),
            bkeys.no_duplicates(),
            after.wf(),
            d.finite(),
            d.len() == summary.deleted,
            summary.deleted <= j,
            summary.created == created(before@, after@).len(),
            summary.modified == modified(before@, after@).len(),
            forall|p: Seq<u8>| #[trigger]
                d.contains(p) <==> bkeys.take(j as int).contains(p) && !after@.contains_key(p),
        decreases k - j,
    {
        proof {
            lemma_take_next(bkeys, j as int);
            assert(!bkeys.take(j as int).contains(bkeys[j as int]));
        }
        if after.get(before.path_at(j).as_str()).is_none() {
            summary.deleted = summary.deleted + 1;
            proof {
                d = d.insert(bkeys[j as int]);
            }
        }
        j = j + 1;
    }
    proof {
        assert(bkeys.take(k as int) == bkeys);
        assert(d =~= deleted(before@, after@));
        law_summary_is_empty_iff_unchanged(before@, after@, summary);
    }
    summary
}

proof fn lemma_take_next<T>(s: Seq<T>, i: int)
    requires
        0 <= i < s.len(),
    ensures
        forall|x: T| #[trigger] s.take(i + 1).contains(x) <==> s.take(i).contains(x) || x == s[i],
        s.no_duplicates() ==> !s.take(i).contains(s[i]),
{
    let a = s.take(i);
    let b = s.take(i + 1);
    assert forall|x: T| #[trigger] b.contains(x) <==> a.contains(x) || x == s[i] by {
        if b.contains(x) {
            let k = choose|k: int| 0 <= k < b.len() && b[k] == x;
            if k < i {
                assert(a[k] == x);
            }
        }
        if a.contains(x) {
            let k = choose|k: int| 0 <= k < a.len() && a[k] == x;
            assert(b[k] == x);
        }
        assert(b[i] == s[i]);
    }
}

/// What one way is created is deleted the other way, and what is modified is
/// modified either way.
pub proof fn law_summary_of_the_way_back(
    before: Map<Seq<u8>, EntryView>,
    after: Map<Seq<u8>, EntryView>,
    there: ChangeSummary,
    back: ChangeSummary,
)
    requires
        is_summary(before, after, there),
        is_summary(after, before, back),
    ensures
        back.created == there.deleted,
        back.deleted == there.created,
        back.modified == there.modified,
{
    assert(created(after, before) =~= deleted(before, after));
    assert(deleted(after, before) =~= created(before, after));
    assert(modified(after, before) =~= modified(before, after));
}

/// A summary counts nothing if and only if both states are the same.
pub proof fn law_summary_is_empty_iff_unchanged(
    before: Map<Seq<u8>, EntryView>,
    after: Map<Seq<u8>, EntryView>,
    summary: ChangeSummary,
)
    requires
        before.dom().finite(),
        after.dom().finite(),
        is_summary(before, after, summary),
    ensures
        summary.count() == 0 <==> before == after,
{
    let c = created(before, after);
    let m = modified(before, after);
    let d = deleted(before, after);
    if summary.count() == 0 {
        assert(c =~= Set::empty());
        assert(m =~= Set::empty());
        assert(d =~= Set::empty());
        assert forall|p: Seq<u8>| #[trigger] before.contains_key(p) <==> after.contains_key(p) by {
            assert(!c.contains(p));
            assert(!d.contains(p));
        }
        assert forall|p: Seq<u8>| #[trigger] before.contains_key(p) implies before[p]
            == after[p] by {
            assert(after.contains_key(p));
            assert(!m.contains(p));
        }
        assert(before =~= after);
    } else if before == after {
        assert(c =~= Set::empty());
        assert(m =~= Set::empty());
        assert(d =~= Set::empty());
    }
}

/// A recorded state of a scope.
#[derive(Debug, PartialEq, Eq)]
pub struct Manifest {
    pub id: String,
    pub scope: String,
    pub parent: Option<String>,
    pub created_at_ms: u128,
    pub visible: bool,
    pub summary: ChangeSummary,
    pub entries: Tree,
}

/// A recorded state as contracts speak of it.
pub struct ManifestView {
    pub id: Seq<char>,
    pub scope: Seq<char>,
    pub parent: Option<Seq<char>>,
    pub created_at_ms: u128,
    pub visible: bool,
    pub summary: ChangeSummary,
    pub entries: Map<Seq<u8>, EntryView>,
}

impl View for Manifest {
    type V = ManifestView;

    open spec fn view(&self) -> ManifestView {
        ManifestView {
            id: self.id@,
            scope: self.scope@,
            parent: self.parent.deep_view(),
            created_at_ms: self.created_at_ms,
            visible: self.visible,
            summary: self.summary,
            entries: self.entries@,
        }
    }
}

impl Manifest {
    /// The recorded entries are well formed.
    pub open spec fn wf(self) -> bool {
        self.entries.wf()
    }
}

/// A change under way: the scope, and the state that it starts from.
#[derive(Debug, PartialEq, Eq)]
pub struct Transaction {
    pub id: String,
    pub scope: String,
    pub base: String,
    pub created_at_ms: u128,
}

/// A change under way as contracts speak of it.
pub struct TransactionView {
    pub id: Seq<char>,
    pub scope: Seq<char>,
    pub base: Seq<char>,
    pub created_at_ms: u128,
}

impl View for Transaction {
    type V = TransactionView;

    open spec fn view(&self) -> TransactionView {
        TransactionView {
            id: self.id@,
            scope: self.scope@,
            base: self.base@,
            created_at_ms: self.created_at_ms,
        }
    }
}

/// The state that a scope is at.
#[derive(Debug, PartialEq, Eq)]
pub struct Head {
    pub scope: String,
    pub id: String,
}

/// The state that each scope is at.
#[derive(Debug, PartialEq, Eq)]
pub struct Refs {
    heads: Vec<Head>,
}

/// What some heads say; of those of the same scope the last counts.
pub open spec fn heads_map(heads: Seq<Head>) -> Map<Seq<char>, Seq<char>>
    decreases heads.len(),
{
    if heads.len() == 0 {
        Map::empty()
    } else {
        heads_map(heads.drop_last()).insert(heads.last().scope@, heads.last().id@)
    }
}

impl View for Refs {
    type V = Map<Seq<char>, Seq<char>>;

    closed spec fn view(&self) -> Map<Seq<char>, Seq<char>> {
        heads_map(self.heads@)
    }
}

impl Refs {
    /// No scope is at any state.
    pub fn new() -> (r: Refs)
        ensures
            r@ == Map::<Seq<char>, Seq<char>>::empty(),
    {
        Refs { heads: Vec::new() }
    }

    /// The states that some heads name; of those of the same scope the last
    /// counts.
    pub fn from_heads(heads: Vec<Head>) -> (r: Refs)
        ensures
            r@ == heads_map(heads@),
    {
        Refs { heads }
    }

    /// The heads, of which the last of a scope counts.
    pub fn heads(&self) -> (r: &[Head])
        ensures
            self@ == heads_map(r@),
    {
        self.heads.as_slice()
    }

    /// The state that a scope is at.
    pub fn get(&self, scope: &str) -> (r: Option<&String>)
        ensures
            match r {
                Some(id) => self@.contains_key(scope@) && id@ == self@[scope@],
                None => !self@.contains_key(scope@),
            },
    {
        let mut i: usize = self.heads.len();
        assert(self.heads@.take(i as int) == self.heads@);
        while i > 0
            invariant
                i <= self.heads@.len(),
                self@.contains_key(scope@) == heads_map(self.heads@.take(i as int)).contains_key(
                    scope@,
                ),
                self@.contains_key(scope@) ==> self@[scope@] == heads_map(
                    self.heads@.take(i as int),
                )[scope@],
            decreases i,
        {
            let ghost now = self.heads@.take(i as int);
            assert(now.drop_last() == self.heads@.take(i - 1));
            assert(now.last() == self.heads@[i - 1]);
            let head = &self.heads[i - 1];
            if text::text_eq(head.scope.as_str(), scope) {
                return Some(&head.id);
            }
            i = i - 1;
        }
        None
    }

    /// Moves a scope to a state.
    pub fn insert(&mut self, scope: &str, id: &str)
        ensures
            final(self)@ == old(self)@.insert(scope@, id@),
    {
        let ghost was = self.heads@;
        self.remove(scope);
        let ghost cut = self.heads@;
        let head = Head { scope: scope.to_owned(), id: id.to_owned() };
        self.heads.push(head);
        proof {
            assert(self.heads@.drop_last() == cut);
            assert(heads_map(cut).insert(scope@, id@) =~= heads_map(was).insert(scope@, id@));
        }
    }

    /// Forgets the heads of a scope.
    fn remove(&mut self, scope: &str)
        ensures
            final(self)@ == old(self)@.remove(scope@),
    {
        let n = self.heads.len();
        let mut kept: Vec<Head> = Vec::new();
        let mut i: usize = 0;
        let ghost was = self.heads@;
        assert(heads_map(was.take(0)).remove(scope@) =~= Map::<Seq<char>, Seq<char>>::empty());
        while i < n
            invariant
                i <= n,
                n == self.heads@.len(),
                was == self.heads@,
                heads_map(kept@) == heads_map(was.take(i as int)).remove(scope@),
            decreases n - i,
        {
            proof {
                let next = was.take(i + 1);
                assert(next.drop_last() == was.take(i as int));
                assert(next.last() == was[i as int]);
            }
            let head = &self.heads[i];
            let ghost before = kept@;
            if !text::text_eq(head.scope.as_str(), scope) {
                kept.push(Head { scope: head.scope.clone(), id: head.id.clone() });
                assert(kept@.drop_last() == before);
            }
            proof {
                assert(heads_map(kept@) =~= heads_map(was.take(i + 1)).remove(scope@));
            }
            i = i + 1;
        }
        assert(was.take(n as int) == was);
        self.heads = kept;
    }
}

/// A path counts once and for one thing: for a creation where it is there only
/// after, for a deletion where it is there only before, for a modification where
/// it is there both times with anything different, and for nothing where it is
/// there both times and the same.
pub proof fn law_each_path_counts_once(
    before: Map<Seq<u8>, EntryView>,
    after: Map<Seq<u8>, EntryView>,
    p: Seq<u8>,
    old_entry: EntryView,
    new_entry: EntryView,
    summary: ChangeSummary,
    grown: ChangeSummary,
)
    requires
        before.dom().finite(),
        after.dom().finite(),
        !before.contains_key(p),
        !after.contains_key(p),
        is_summary(before, after, summary),
    ensures
        is_summary(before, after.insert(p, new_entry), grown) ==> grown.created == summary.created
            + 1 && grown.modified == summary.modified && grown.deleted == summary.deleted,
        is_summary(before.insert(p, old_entry), after, grown) ==> grown.created == summary.created
            && grown.modified == summary.modified && grown.deleted == summary.deleted + 1,
        is_summary(before.insert(p, old_entry), after.insert(p, new_entry), grown) && old_entry
            != new_entry ==> grown.created == summary.created && grown.modified
            == summary.modified + 1 && grown.deleted == summary.deleted,
        is_summary(before.insert(p, old_entry), after.insert(p, old_entry), grown)
            ==> grown == summary,
{
    let b = before.insert(p, old_entry);
    let a = after.insert(p, new_entry);
    let same = after.insert(p, old_entry);
    assert(created(before, after).subset_of(after.dom()));
    assert(modified(before, after).subset_of(after.dom()));
    assert(deleted(before, after).subset_of(before.dom()));
    vstd::set_lib::lemma_len_subset(created(before, after), after.dom());
    vstd::set_lib::lemma_len_subset(modified(before, after), after.dom());
    vstd::set_lib::lemma_len_subset(deleted(before, after), before.dom());
    assert(created(before, a) =~= created(before, after).insert(p));
    assert(modified(before, a) =~= modified(before, after));
    assert(deleted(before, a) =~= deleted(before, after));
    assert(created(b, after) =~= created(before, after));
    assert(modified(b, after) =~= modified(before, after));
    assert(deleted(b, after) =~= deleted(before, after).insert(p));
    assert(created(b, a) =~= created(before, after));
    assert(deleted(b, a) =~= deleted(before, after));
    if old_entry != new_entry {
        assert(modified(b, a) =~= modified(before, after).insert(p));
    }
    assert(created(b, same) =~= created(before, after));
    assert(deleted(b, same) =~= deleted(before, after));
    assert(modified(b, same) =~= modified(before, after));
}

/// The head of a scope is the one that was noted last, whatever was noted of
/// other scopes.
pub proof fn law_the_last_head_counts(heads: Seq<Head>, k: int)
    requires
        0 <= k < heads.len(),
        forall|i: int| k < i < heads.len() ==> (#[trigger] heads[i]).scope@ != heads[k].scope@,
    ensures
        heads_map(heads).contains_key(heads[k].scope@),
        heads_map(heads)[heads[k].scope@] == heads[k].id@,
    decreases heads.len(),
{
    if k < heads.len() - 1 {
        let front = heads.drop_last();
        assert(heads.last() == heads[heads.len() - 1]);
        assert forall|i: int| k < i < front.len() implies (#[trigger] front[i]).scope@
            != front[k].scope@ by {
            assert(front[i] == heads[i]);
        }
        law_the_last_head_counts(front, k);
    }
}

/// A scope of which nothing was noted has no head.
pub proof fn law_other_scopes_have_no_head(heads: Seq<Head>, scope: Seq<char>)
    requires
        forall|i: int| 0 <= i < heads.len() ==> (#[trigger] heads[i]).scope@ != scope,
    ensures
        !heads_map(heads).contains_key(scope),
    decreases heads.len(),
{
    if heads.len() > 0 {
        let front = heads.drop_last();
        assert(heads.last() == heads[heads.len() - 1]);
        assert forall|i: int| 0 <= i < front.len() implies (#[trigger] front[i]).scope@
            != scope by {
            assert(front[i] == heads[i]);
        }
        law_other_scopes_have_no_head(front, scope);
    }
}

} // verus!
