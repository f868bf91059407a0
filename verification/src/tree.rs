//! What a checkpoint records of a directory: its entries, by relative path.

use vstd::prelude::*;
use vstd::utf8;

use crate::order;
use crate::text;

verus! {

/// One recorded entry of a directory.
#[derive(Debug, PartialEq, Eq)]
pub enum Entry {
    File { object: String, mode: u32, size: u64 },
    Directory { mode: u32 },
    Symlink { target: String },
}

/// An entry as contracts speak of it.
pub enum EntryView {
    File { object: Seq<char>, mode: u32, size: u64 },
    Directory { mode: u32 },
    Symlink { target: Seq<char> },
}

impl View for Entry {
    type V = EntryView;

    open spec fn view(&self) -> EntryView {
        match self {
            Entry::File { object, mode, size } => EntryView::File {
                object: object@,
                mode: *mode,
                size: *size,
            },
            Entry::Directory { mode } => EntryView::Directory { mode: *mode },
            Entry::Symlink { target } => EntryView::Symlink { target: target@ },
        }
    }
}

/// Whether two entries are of the same kind.
pub open spec fn alike(a: EntryView, b: EntryView) -> bool {
    ||| a is File && b is File
    ||| a is Directory && b is Directory
    ||| a is Symlink && b is Symlink
}

impl Entry {
    /// Whether two entries record the same.
    pub fn same(&self, other: &Entry) -> (r: bool)
        ensures
            r == (self@ == other@),
    {
        match (self, other) {
            (
                Entry::File { object: a, mode: m, size: s },
                Entry::File { object: b, mode: n, size: t },
            ) => text::text_eq(a.as_str(), b.as_str()) && *m == *n && *s == *t,
            (Entry::Directory { mode: m }, Entry::Directory { mode: n }) => *m == *n,
            (Entry::Symlink { target: a }, Entry::Symlink { target: b }) => text::text_eq(
                a.as_str(),
                b.as_str(),
            ),
            _ => false,
        }
    }

    /// Another value that records the same.
    pub fn copied(&self) -> (r: Entry)
        ensures
            r@ == self@,
    {
        match self {
            Entry::File { object, mode, size } => Entry::File {
                object: object.clone(),
                mode: *mode,
                size: *size,
            },
            Entry::Directory { mode } => Entry::Directory { mode: *mode },
            Entry::Symlink { target } => Entry::Symlink { target: target.clone() },
        }
    }
}

/// Whether two entries are of the same kind.
pub fn same_kind(left: &Entry, right: &Entry) -> (r: bool)
    ensures
        r == alike(left@, right@),
{
    match (left, right) {
        (Entry::File { .. }, Entry::File { .. }) => true,
        (Entry::Directory { .. }, Entry::Directory { .. }) => true,
        (Entry::Symlink { .. }, Entry::Symlink { .. }) => true,
        _ => false,
    }
}

/// A recorded entry with its path.
#[derive(Debug, PartialEq, Eq)]
pub struct TreeItem {
    pub path: String,
    pub entry: Entry,
}

impl TreeItem {
    /// The path as the file system has it.
    pub open spec fn key(self) -> Seq<u8> {
        utf8::encode_utf8(self.path@)
    }
}

/// The recorded entries of a directory, each path once, in the order of the
/// paths' bytes.
#[derive(Debug, PartialEq, Eq)]
pub struct Tree {
    items: Vec<TreeItem>,
}

/// Whether each path comes before the next.
pub open spec fn ascending(keys: Seq<Seq<u8>>) -> bool {
    forall|i: int, j: int|
        #![trigger keys[i], keys[j]]
        0 <= i < j < keys.len() ==> order::before(keys[i], keys[j])
}

impl Tree {
    /// The paths in their order.
    pub closed spec fn keys(self) -> Seq<Seq<u8>> {
        self.items@.map_values(|item: TreeItem| item.key())
    }

    /// Each path occurs once, and the paths are in order.
    pub open spec fn wf(self) -> bool {
        ascending(self.keys())
    }

    closed spec fn position(self, key: Seq<u8>) -> int {
        choose|i: int| 0 <= i < self.keys().len() && self.keys()[i] == key
    }
}

impl View for Tree {
    type V = Map<Seq<u8>, EntryView>;

    closed spec fn view(&self) -> Map<Seq<u8>, EntryView> {
        Map::new(
            |key: Seq<u8>| self.keys().contains(key),
            |key: Seq<u8>| self.items@[self.position(key)].entry@,
        )
    }
}

/// Ascending paths are different from one another.
pub proof fn lemma_ascending_distinct(keys: Seq<Seq<u8>>)
    requires
        ascending(keys),
    ensures
        keys.no_duplicates(),
{
    assert forall|i: int, j: int| 0 <= i < keys.len() && 0 <= j < keys.len() && i != j implies keys[i]
        != keys[j] by {
        if i < j {
            order::lemma_before_irreflexive(keys[i]);
        } else {
            order::lemma_before_irreflexive(keys[j]);
        }
    }
}

impl Tree {
    proof fn lemma_at(self, i: int)
        requires
            self.wf(),
            0 <= i < self.items@.len(),
        ensures
            self@.contains_key(self.keys()[i]),
            self.keys()[i] == self.items@[i].key(),
            self@[self.keys()[i]] == self.items@[i].entry@,
    {
        lemma_ascending_distinct(self.keys());
        assert(self.keys().contains(self.keys()[i]));
        assert(self.position(self.keys()[i]) == i);
    }

    /// The paths of a tree are the keys of its view.
    pub proof fn lemma_keys(self)
        requires
            self.wf(),
        ensures
            forall|key: Seq<u8>| #[trigger] self@.contains_key(key) <==> self.keys().contains(key),
            self@.dom() == self.keys().to_set(),
            self@.dom().finite(),
            self@.dom().len() == self.keys().len(),
            self.keys().no_duplicates(),
            forall|i: int| 0 <= i < self.keys().len() ==> self@.contains_key(#[trigger] self.keys()[i]),
    {
        lemma_ascending_distinct(self.keys());
        assert(self@.dom() =~= self.keys().to_set());
        vstd::seq_lib::seq_to_set_is_finite(self.keys());
        self.keys().unique_seq_to_set();
    }

    /// A tree without entries.
    pub fn new() -> (t: Tree)
        ensures
            t.wf(),
            t@ == Map::<Seq<u8>, EntryView>::empty(),
    {
        let t = Tree { items: Vec::new() };
        assert(t@ =~= Map::<Seq<u8>, EntryView>::empty());
        t
    }

    /// The number of entries.
    pub fn len(&self) -> (n: usize)
        ensures
            n == self.keys().len(),
    {
        self.items.len()
    }

    /// The path of an entry.
    pub fn path_at(&self, i: usize) -> (p: &String)
        requires
            i < self.keys().len(),
        ensures
            utf8::encode_utf8(p@) == self.keys()[i as int],
    {
        &self.items[i].path
    }

    /// An entry.
    pub fn entry_at(&self, i: usize) -> (e: &Entry)
        requires
            self.wf(),
            i < self.keys().len(),
        ensures
            e@ == self@[self.keys()[i as int]],
    {
        proof {
            self.lemma_at(i as int);
        }
        &self.items[i].entry
    }

    /// The number of paths that come before a key.
    fn lower_bound(&self, key: &[u8]) -> (k: usize)
        requires
            self.wf(),
        ensures
            k <= self.keys().len(),
            forall|i: int| 0 <= i < k ==> order::before(#[trigger] self.keys()[i], key@),
            forall|i: int|
                k <= i < self.keys().len() ==> !order::before(#[trigger] self.keys()[i], key@),
    {
        let mut low: usize = 0;
        let mut high: usize = self.items.len();
        while low < high
            invariant
                low <= high <= self.keys().len(),
                self.keys().len() == self.items@.len(),
                self.wf(),
                forall|i: int| 0 <= i < low ==> order::before(#[trigger] self.keys()[i], key@),
                forall|i: int|
                    high <= i < self.keys().len() ==> !order::before(
                        #[trigger] self.keys()[i],
                        key@,
                    ),
            decreases high - low,
        {
            let mid = low + (high - low) / 2;
            assert(self.keys()[mid as int] == self.items@[mid as int].key());
            if order::comes_before(self.items[mid].path.as_str().as_bytes(), key) {
                assert forall|i: int| 0 <= i < mid + 1 implies order::before(
                    #[trigger] self.keys()[i],
                    key@,
                ) by {
                    if i < mid {
                        order::lemma_before_transitive(
                            self.keys()[i],
                            self.keys()[mid as int],
                            key@,
                        );
                    }
                }
                low = mid + 1;
            } else {
                assert forall|i: int| mid <= i < self.keys().len() implies !order::before(
                    #[trigger] self.keys()[i],
                    key@,
                ) by {
                    if i > mid && order::before(self.keys()[i], key@) {
                        order::lemma_before_transitive(
                            self.keys()[mid as int],
                            self.keys()[i],
                            key@,
                        );
                    }
                }
                high = mid;
            }
        }
        low
    }

    /// The position of a path, if it is recorded.
    fn find(&self, key: &[u8]) -> (r: Result<usize, usize>)
        requires
            self.wf(),
        ensures
            r is Ok <==> self@.contains_key(key@),
            r matches Ok(i) ==> i < self.items@.len() && self.keys()[i as int] == key@,
            r matches Err(k) ==> k <= self.items@.len() && (forall|i: int|
                0 <= i < k ==> order::before(#[trigger] self.keys()[i], key@)) && (forall|i: int|
                k <= i < self.items@.len() ==> order::before(key@, #[trigger] self.keys()[i])),
    {
        let k = self.lower_bound(key);
        if k < self.items.len() && text::bytes_eq(self.items[k].path.as_str().as_bytes(), key) {
            proof {
                self.lemma_at(k as int);
            }
            return Ok(k);
        }
        proof {
            self.lemma_keys();
            assert forall|i: int| k <= i < self.items@.len() implies order::before(
                key@,
                #[trigger] self.keys()[i],
            ) by {
                let first = self.keys()[k as int];
                assert(first == self.items@[k as int].key());
                order::lemma_before_total(first, key@);
                if i > k {
                    order::lemma_before_transitive(key@, first, self.keys()[i]);
                }
            }
            if self@.contains_key(key@) {
                let i = choose|i: int| 0 <= i < self.keys().len() && self.keys()[i] == key@;
                order::lemma_before_irreflexive(key@);
                if i < k {
                    assert(order::before(self.keys()[i], key@));
                } else {
                    assert(order::before(key@, self.keys()[i]));
                }
            }
        }
        Err(k)
    }

    /// The entry at a path, if one is recorded.
    pub fn get(&self, path: &str) -> (e: Option<&Entry>)
        requires
            self.wf(),
        ensures
            e is Some <==> self@.contains_key(utf8::encode_utf8(path@)),
            e matches Some(entry) ==> entry@ == self@[utf8::encode_utf8(path@)],
    {
        match self.find(path.as_bytes()) {
            Ok(i) => {
                proof {
                    self.lemma_at(i as int);
                }
                Some(&self.items[i].entry)
            },
            Err(_) => None,
        }
    }

    /// Records an entry, in place of one that the path had.
    pub fn insert(&mut self, path: String, entry: Entry)
        requires
            old(self).wf(),
        ensures
            final(self).wf(),
            final(self)@ == old(self)@.insert(utf8::encode_utf8(path@), entry@),
    {
        let ghost key = utf8::encode_utf8(path@);
        let ghost was = *self;
        let found = self.find(path.as_str().as_bytes());
        let item = TreeItem { path, entry };
        match found {
            Ok(i) => {
                self.items.set(i, item);
                assert(self.keys() =~= was.keys());
            },
            Err(k) => {
                self.items.insert(k, item);
                proof {
                    let keys = self.keys();
                    assert(keys =~= was.keys().insert(k as int, key));
                    assert forall|i: int, j: int|
                        #![trigger keys[i], keys[j]]
                        0 <= i < j < keys.len() implies order::before(keys[i], keys[j]) by {
                        let a = if i < k { i } else { i - 1 };
                        let b = if j < k { j } else { j - 1 };
                        if i == k {
                            assert(order::before(key, was.keys()[b]));
                        } else if j == k {
                            assert(order::before(was.keys()[a], key));
                        } else {
                            assert(order::before(was.keys()[a], was.keys()[b]));
                        }
                    }
                }
            },
        }
        proof {
            let at: int = match found {
                Ok(i) => i as int,
                Err(k) => k as int,
            };
            self.lemma_keys();
            was.lemma_keys();
            self.lemma_at(at);
            assert(self.keys()[at] == key);
            assert forall|p: Seq<u8>| #[trigger] self@.contains_key(p) <==> was@.insert(
                key,
                entry@,
            ).contains_key(p) by {
                if self.keys().contains(p) && p != key {
                    let i = choose|i: int| 0 <= i < self.keys().len() && self.keys()[i] == p;
                    if found is Ok || i < at {
                        assert(was.keys()[i] == p);
                    } else {
                        assert(was.keys()[i - 1] == p);
                    }
                }
                if was.keys().contains(p) && p != key {
                    let i = choose|i: int| 0 <= i < was.keys().len() && was.keys()[i] == p;
                    if found is Ok || i < at {
                        assert(self.keys()[i] == p);
                    } else {
                        assert(self.keys()[i + 1] == p);
                    }
                }
            }
            assert forall|p: Seq<u8>| #[trigger] self@.contains_key(p) implies self@[p]
                == was@.insert(key, entry@)[p] by {
                let i = choose|i: int| 0 <= i < self.keys().len() && self.keys()[i] == p;
                self.lemma_at(i);
                if p != key {
                    let k = if found is Ok || i < at { i } else { i - 1 };
                    assert(self.items@[i] == was.items@[k]);
                    was.lemma_at(k);
                }
            }
            assert(self@ =~= was@.insert(key, entry@));
        }
    }

    /// Whether another tree records everything that this one does.
    fn part_of(&self, other: &Tree) -> (r: bool)
        requires
            self.wf(),
            other.wf(),
        ensures
            r == (forall|p: Seq<u8>| #[trigger]
                self@.contains_key(p) ==> other@.contains_key(p) && other@[p] == self@[p]),
    {
        let n = self.items.len();
        let mut i: usize = 0;
        while i < n
            invariant
                i <= n,
                n == self.items@.len(),
                self.wf(),
                other.wf(),
                forall|k: int|
                    0 <= k < i ==> other@.contains_key(#[trigger] self.keys()[k])
                        && other@[self.keys()[k]] == self@[self.keys()[k]],
            decreases n - i,
        {
            proof {
                self.lemma_at(i as int);
            }
            let item = &self.items[i];
            match other.get(item.path.as_str()) {
                None => {
                    return false;
                },
                Some(entry) => {
                    if !entry.same(&item.entry) {
                        return false;
                    }
                },
            }
            i = i + 1;
        }
        proof {
            self.lemma_keys();
        }
        true
    }

    /// Whether two trees record the same.
    pub fn same(&self, other: &Tree) -> (r: bool)
        requires
            self.wf(),
            other.wf(),
        ensures
            r == (self@ == other@),
    {
        let r = self.part_of(other) && other.part_of(self);
        proof {
            if r {
                assert(self@ =~= other@);
            }
        }
        r
    }

    /// Another tree that records the same.
    pub fn copied(&self) -> (r: Tree)
        requires
            self.wf(),
        ensures
            r.wf(),
            r@ == self@,
            r.keys() == self.keys(),
    {
        let n = self.items.len();
        let mut items: Vec<TreeItem> = Vec::new();
        let mut i: usize = 0;
        while i < n
            invariant
                i <= n,
                n == self.items@.len(),
                items@.len() == i,
                forall|k: int|
                    0 <= k < i ==> (#[trigger] items@[k]).path@ == self.items@[k].path@
                        && items@[k].entry@ == self.items@[k].entry@,
            decreases n - i,
        {
            items.push(
                TreeItem { path: self.items[i].path.clone(), entry: self.items[i].entry.copied() },
            );
            i = i + 1;
        }
        let r = Tree { items };
        proof {
            assert(r.keys() =~= self.keys());
            r.lemma_keys();
            self.lemma_keys();
            assert forall|p: Seq<u8>| #[trigger] r@.contains_key(p) implies r@[p] == self@[p] by {
                let k = choose|k: int| 0 <= k < r.keys().len() && r.keys()[k] == p;
                r.lemma_at(k);
                self.lemma_at(k);
            }
            assert(r@ =~= self@);
        }
        r
    }

    /// A tree of some items; of those with the same path the last counts.
    pub fn from_items(items: Vec<TreeItem>) -> (t: Tree)
        ensures
            t.wf(),
            t@ == items_map(items@),
    {
        let mut t = Tree::new();
        let n = items.len();
        let mut i: usize = 0;
        while i < n
            invariant
                i <= n,
                n == items@.len(),
                t.wf(),
                t@ == items_map(items@.take(i as int)),
            decreases n - i,
        {
            proof {
                let next = items@.take(i + 1);
                assert(next.drop_last() == items@.take(i as int));
                assert(next.last() == items@[i as int]);
            }
            t.insert(items[i].path.clone(), items[i].entry.copied());
            i = i + 1;
        }
        assert(items@.take(n as int) == items@);
        t
    }
}

/// What some items record; of those with the same path the last counts.
pub open spec fn items_map(items: Seq<TreeItem>) -> Map<Seq<u8>, EntryView>
    decreases items.len(),
{
    if items.len() == 0 {
        Map::empty()
    } else {
        items_map(items.drop_last()).insert(items.last().key(), items.last().entry@)
    }
}

/// Entries are alike where they are of one kind, whatever else they hold.
pub proof fn law_entries_are_alike_by_kind(a: EntryView, b: EntryView, c: EntryView)
    ensures
        alike(a, a),
        alike(a, b) ==> alike(b, a),
        alike(a, b) && alike(b, c) ==> alike(a, c),
        a is File && b is Directory ==> !alike(a, b),
        a is File && b is Symlink ==> !alike(a, b),
        a is Directory && b is Symlink ==> !alike(a, b),
        a is File && b is File ==> alike(a, b),
        a is Directory && b is Directory ==> alike(a, b),
        a is Symlink && b is Symlink ==> alike(a, b),
{
}

/// Of several items with one path the last counts.
pub proof fn law_the_last_item_counts(items: Seq<TreeItem>, k: int)
    requires
        0 <= k < items.len(),
        forall|i: int|
            k < i < items.len() ==> (#[trigger] items[i]).path@ != items[k].path@,
    ensures
        items_map(items).contains_key(utf8::encode_utf8(items[k].path@)),
        items_map(items)[utf8::encode_utf8(items[k].path@)] == items[k].entry@,
    decreases items.len(),
{
    if k < items.len() - 1 {
        let front = items.drop_last();
        let last = items[items.len() - 1];
        assert(items.last() == last);
        assert(last.path@ != items[k].path@);
        if last.key() == items[k].key() {
            crate::text::lemma_encode_injective(last.path@, items[k].path@);
        }
        assert forall|i: int| k < i < front.len() implies (#[trigger] front[i]).path@
            != front[k].path@ by {
            assert(front[i] == items[i]);
        }
        law_the_last_item_counts(front, k);
    }
}

/// A path that no item has is not in the tree.
pub proof fn law_other_paths_are_not_there(items: Seq<TreeItem>, p: Seq<u8>)
    requires
        forall|i: int|
            0 <= i < items.len() ==> utf8::encode_utf8((#[trigger] items[i]).path@) != p,
    ensures
        !items_map(items).contains_key(p),
    decreases items.len(),
{
    if items.len() > 0 {
        let front = items.drop_last();
        assert(items.last() == items[items.len() - 1]);
        assert forall|i: int| 0 <= i < front.len() implies utf8::encode_utf8(
            (#[trigger] front[i]).path@,
        ) != p by {
            assert(front[i] == items[i]);
        }
        law_other_paths_are_not_there(front, p);
    }
}

} // verus!
