use vstd::prelude::*;

verus! {

/// One visited location: its name, the index of its parent (none for the
/// root), the index of the child most recently made current from it, and
/// the indices of its children in the order they were first visited.
pub struct HistoryTreeEntry {
    pub name: String,
    pub parent: Option<usize>,
    pub last_visited_child: Option<usize>,
    pub children: Vec<usize>,
}

/// The mathematical value of an entry.
pub struct EntryView {
    pub name: Seq<char>,
    pub parent: Option<usize>,
    pub last_visited_child: Option<usize>,
    pub children: Seq<usize>,
}

impl View for HistoryTreeEntry {
    type V = EntryView;

    open spec fn view(&self) -> EntryView {
        EntryView {
            name: self.name@,
            parent: self.parent,
            last_visited_child: self.last_visited_child,
            children: self.children@,
        }
    }
}

/// The mathematical value of a tree: its entries by index (the root at 0)
/// and the index of the current entry.
pub struct HistoryTreeView {
    pub entries: Seq<EntryView>,
    pub current: usize,
}

/// The first of `kids` whose entry is named `name`.
pub open spec fn find_named(entries: Seq<EntryView>, kids: Seq<usize>, name: Seq<char>) -> Option<usize>
    decreases kids.len(),
{
    if kids.len() == 0 {
        None
    } else if entries[kids[0] as int].name == name {
        Some(kids[0])
    } else {
        find_named(entries, kids.drop_first(), name)
    }
}

/// How many times `id` occurs in `s`.
pub open spec fn count_in(s: Seq<usize>, id: usize) -> nat
    decreases s.len(),
{
    if s.len() == 0 {
        0
    } else {
        count_in(s.drop_last(), id) + if s.last() == id { 1nat } else { 0nat }
    }
}

/// How many child-list slots of `entries` hold `id`: the references that
/// own the entry at `id`.
pub open spec fn owner_slots(entries: Seq<EntryView>, id: usize) -> nat
    decreases entries.len(),
{
    if entries.len() == 0 {
        0
    } else {
        owner_slots(entries.drop_last(), id) + count_in(entries.last().children, id)
    }
}

/// How many parent and last-visited-child links of `entries` point at `id`:
/// references to the entry at `id` that own nothing.
pub open spec fn back_links(entries: Seq<EntryView>, id: usize) -> nat
    decreases entries.len(),
{
    if entries.len() == 0 {
        0
    } else {
        let e = entries.last();
        back_links(entries.drop_last(), id)
            + if e.parent == Some(id) { 1nat } else { 0nat }
            + if e.last_visited_child == Some(id) { 1nat } else { 0nat }
    }
}

impl HistoryTreeView {
    /// A fresh tree: a root named `root_name`, which is current.
    pub open spec fn initial(root_name: Seq<char>) -> HistoryTreeView {
        HistoryTreeView {
            entries: seq![EntryView {
                name: root_name,
                parent: None,
                last_visited_child: None,
                children: Seq::empty(),
            }],
            current: 0,
        }
    }

    pub open spec fn current_entry(self) -> EntryView {
        self.entries[self.current as int]
    }

    /// The entry at `p` is consistent with the rest of the tree.
    pub open spec fn entry_wf(self, p: int) -> bool {
        let es = self.entries;
        let e = es[p];
        &&& p == 0 ==> e.parent is None
        &&& p != 0 ==> (e.parent matches Some(q) && q < p && es[q as int].children.contains(p as usize))
        &&& forall|j: int|
            0 <= j < e.children.len() ==> {
                &&& #[trigger] e.children[j] < es.len()
                &&& es[e.children[j] as int].parent == Some(p as usize)
            }
        &&& forall|j: int, k: int|
            0 <= j < e.children.len() && 0 <= k < e.children.len() && j != k
                ==> es[e.children[j] as int].name != es[e.children[k] as int].name
        &&& (e.last_visited_child matches Some(c) ==> e.children.contains(c))
    }

    /// Well-formedness: the root is at index 0, the cursor is on an entry,
    /// every parent comes before its children and lists them, every child
    /// names its parent, siblings have distinct names, and a last visited
    /// child is a child.
    pub open spec fn wf(self) -> bool {
        &&& 1 <= self.entries.len() <= usize::MAX
        &&& self.current < self.entries.len()
        &&& forall|p: int| 0 <= p < self.entries.len() ==> #[trigger] self.entry_wf(p)
    }

    /// The state after visiting `name`: the current entry's child of that
    /// name becomes current, and is created, as the last of its children,
    /// if there is none. Either way it is recorded as the last child
    /// visited from the entry that was left.
    pub open spec fn visit(self, name: Seq<char>) -> HistoryTreeView {
        let cur = self.current;
        let e = self.current_entry();
        match find_named(self.entries, e.children, name) {
            Some(c) => HistoryTreeView {
                entries: self.entries.update(
                    cur as int,
                    EntryView { last_visited_child: Some(c), ..e },
                ),
                current: c,
            },
            None => {
                let id = self.entries.len() as usize;
                HistoryTreeView {
                    entries: self.entries.update(
                        cur as int,
                        EntryView { last_visited_child: Some(id), children: e.children.push(id), ..e },
                    ).push(
                        EntryView {
                            name,
                            parent: Some(cur),
                            last_visited_child: None,
                            children: Seq::empty(),
                        },
                    ),
                    current: id,
                }
            },
        }
    }

    /// The references that keep the entry at `id` alive or in use: the
    /// child-list slot that owns it, the tree's own hold on the root, and
    /// the cursor when it rests there.
    pub open spec fn strong_refs(self, id: usize) -> nat {
        owner_slots(self.entries, id)
            + (if id == 0 { 1nat } else { 0nat })
            + (if id == self.current { 1nat } else { 0nat })
    }

    /// The non-owning links that point at the entry at `id`.
    pub open spec fn weak_refs(self, id: usize) -> nat {
        back_links(self.entries, id)
    }

    /// The state after going up: the parent becomes current; at the root
    /// nothing changes.
    pub open spec fn go_up(self) -> HistoryTreeView {
        match self.current_entry().parent {
            Some(p) => HistoryTreeView { current: p, ..self },
            None => self,
        }
    }
}

/// What `find_named` returns: a child of that name, or none when no child
/// has it.
pub proof fn lemma_find_named(entries: Seq<EntryView>, kids: Seq<usize>, name: Seq<char>)
    ensures
        match find_named(entries, kids, name) {
            Some(c) => kids.contains(c) && entries[c as int].name == name,
            None => forall|j: int| 0 <= j < kids.len() ==> entries[#[trigger] kids[j] as int].name != name,
        },
    decreases kids.len(),
{
    if kids.len() > 0 {
        lemma_find_named(entries, kids.drop_first(), name);
        if entries[kids[0] as int].name != name {
            match find_named(entries, kids.drop_first(), name) {
                Some(c) => {
                    let j = choose|j: int| 0 <= j < kids.drop_first().len() && kids.drop_first()[j] == c;
                    assert(kids[j + 1] == c);
                },
                None => {
                    assert forall|j: int| 0 <= j < kids.len() implies entries[#[trigger] kids[j] as int].name != name by {
                        if j > 0 {
                            assert(kids[j] == kids.drop_first()[j - 1]);
                        }
                    }
                },
            }
        } else {
            assert(kids[0] == kids[0]);
        }
    }
}

/// Among siblings of distinct names, the one named as a given child is that
/// child.
pub proof fn lemma_find_named_unique(v: HistoryTreeView, p: int, j: int)
    requires
        v.wf(),
        0 <= p < v.entries.len(),
        0 <= j < v.entries[p].children.len(),
    ensures
        find_named(v.entries, v.entries[p].children, v.entries[v.entries[p].children[j] as int].name)
            == Some(v.entries[p].children[j]),
{
    let kids = v.entries[p].children;
    let name = v.entries[kids[j] as int].name;
    assert(v.entry_wf(p));
    lemma_find_named(v.entries, kids, name);
    match find_named(v.entries, kids, name) {
        Some(c) => {
            let k = choose|k: int| 0 <= k < kids.len() && kids[k] == c;
            if k != j {
                assert(v.entries[kids[j] as int].name != v.entries[kids[k] as int].name);
            }
        },
        None => {
            assert(v.entries[kids[j] as int].name != name);
        },
    }
}

/// Visiting keeps the tree well-formed.
pub proof fn lemma_visit_wf(v: HistoryTreeView, name: Seq<char>)
    requires
        v.wf(),
        v.entries.len() < usize::MAX,
    ensures
        v.visit(name).wf(),
{
    let w = v.visit(name);
    let cur = v.current as int;
    let es = v.entries;
    assert(v.entry_wf(cur));
    lemma_find_named(es, es[cur].children, name);
    match find_named(es, es[cur].children, name) {
        Some(c) => {
            assert forall|p: int| 0 <= p < w.entries.len() implies #[trigger] w.entry_wf(p) by {
                assert(v.entry_wf(p));
                let e = es[p];
                if p != 0 {
                    let q = e.parent.unwrap() as int;
                    assert(w.entries[q].children == es[q].children);
                }
                assert forall|j: int| 0 <= j < e.children.len() implies
                    w.entries[#[trigger] e.children[j] as int].parent == es[e.children[j] as int].parent by {}
            }
        },
        None => {
            let id = es.len() as usize;
            assert forall|p: int| 0 <= p < w.entries.len() implies #[trigger] w.entry_wf(p) by {
                let we = w.entries[p];
                if p < es.len() {
                    assert(v.entry_wf(p));
                    let e = es[p];
                    if p != 0 {
                        let q = e.parent.unwrap() as int;
                        assert(es[q].children.contains(p as usize));
                        let k = choose|k: int| 0 <= k < es[q].children.len() && es[q].children[k] == p as usize;
                        assert(w.entries[q].children[k] == p as usize);
                    }
                    assert forall|j: int| 0 <= j < we.children.len() implies {
                        &&& #[trigger] we.children[j] < w.entries.len()
                        &&& w.entries[we.children[j] as int].parent == Some(p as usize)
                    } by {
                        if j < e.children.len() {
                            assert(we.children[j] == e.children[j]);
                        }
                    }
                    assert forall|j: int, k: int|
                        0 <= j < we.children.len() && 0 <= k < we.children.len() && j != k implies
                        w.entries[we.children[j] as int].name != w.entries[we.children[k] as int].name by {
                        if j < e.children.len() {
                            assert(we.children[j] == e.children[j]);
                        }
                        if k < e.children.len() {
                            assert(we.children[k] == e.children[k]);
                        }
                    }
                    if p == cur {
                        assert(we.children[e.children.len() as int] == id);
                    } else {
                        if let Some(c) = e.last_visited_child {
                            let k = choose|k: int| 0 <= k < e.children.len() && e.children[k] == c;
                            assert(we.children[k] == c);
                        }
                    }
                } else {
                    assert(w.entries[cur].children[es[cur].children.len() as int] == id);
                }
            }
        },
    }
}

/// Going up keeps the tree well-formed.
pub proof fn lemma_go_up_wf(v: HistoryTreeView)
    requires
        v.wf(),
    ensures
        v.go_up().wf(),
{
    assert(v.entry_wf(v.current as int));
    let w = v.go_up();
    assert forall|p: int| 0 <= p < w.entries.len() implies #[trigger] w.entry_wf(p) by {
        assert(v.entry_wf(p));
    }
}

/// A sequence without repeats holds an element at most once.
pub proof fn lemma_count_in_distinct(s: Seq<usize>, id: usize)
    requires
        forall|j: int, k: int| 0 <= j < s.len() && 0 <= k < s.len() && j != k ==> s[j] != s[k],
    ensures
        count_in(s, id) == if s.contains(id) { 1nat } else { 0nat },
    decreases s.len(),
{
    if s.len() > 0 {
        let t = s.drop_last();
        lemma_count_in_distinct(t, id);
        if s.last() == id {
            assert(s[s.len() - 1] == id);
            if t.contains(id) {
                let j = choose|j: int| 0 <= j < t.len() && t[j] == id;
                assert(s[j] == s[s.len() - 1]);
            }
        } else if s.contains(id) {
            let j = choose|j: int| 0 <= j < s.len() && s[j] == id;
            assert(t[j] == id);
        } else {
            if t.contains(id) {
                let j = choose|j: int| 0 <= j < t.len() && t[j] == id;
                assert(s[j] == id);
            }
        }
    }
}

/// In a well-formed tree a child list holds a given entry once if it is
/// that entry's parent's list, and otherwise not at all.
pub proof fn lemma_count_in_children(v: HistoryTreeView, p: int, id: usize)
    requires
        v.wf(),
        0 <= p < v.entries.len(),
    ensures
        count_in(v.entries[p].children, id) == if 0 < id < v.entries.len() && v.entries[id as int].parent
            == Some(p as usize) { 1nat } else { 0nat },
{
    let kids = v.entries[p].children;
    assert(v.entry_wf(p));
    assert forall|j: int, k: int| 0 <= j < kids.len() && 0 <= k < kids.len() && j != k implies kids[j]
        != kids[k] by {
        assert(v.entries[kids[j] as int].name != v.entries[kids[k] as int].name);
    }
    lemma_count_in_distinct(kids, id);
    if kids.contains(id) {
        let j = choose|j: int| 0 <= j < kids.len() && kids[j] == id;
        assert(kids[j] < v.entries.len());
        assert(v.entry_wf(id as int));
    }
    if 0 < id < v.entries.len() {
        assert(v.entry_wf(id as int));
    }
}

/// Over the first `k` entries, the entry at `id` is owned once if its
/// parent is among them, and otherwise not at all.
pub proof fn lemma_owner_slots_prefix(v: HistoryTreeView, id: usize, k: int)
    requires
        v.wf(),
        0 <= k <= v.entries.len(),
    ensures
        owner_slots(v.entries.take(k), id) == if 0 < id < v.entries.len() && v.entries[id as int].parent.unwrap()
            < k { 1nat } else { 0nat },
    decreases k,
{
    if 0 < id < v.entries.len() {
        assert(v.entry_wf(id as int));
    }
    if k > 0 {
        lemma_owner_slots_prefix(v, id, k - 1);
        assert(v.entries.take(k).drop_last() =~= v.entries.take(k - 1));
        lemma_count_in_children(v, k - 1, id);
    }
}

/// Each entry adds at most one link towards a given entry: it cannot both
/// be its child and its parent.
pub proof fn lemma_back_links_prefix(v: HistoryTreeView, id: usize, k: int)
    requires
        v.wf(),
        0 <= k <= v.entries.len(),
    ensures
        back_links(v.entries.take(k), id) <= k,
    decreases k,
{
    if k > 0 {
        lemma_back_links_prefix(v, id, k - 1);
        assert(v.entries.take(k).drop_last() =~= v.entries.take(k - 1));
        let e = v.entries[k - 1];
        assert(v.entry_wf(k - 1));
        if e.last_visited_child == Some(id) && e.parent == Some(id) {
            let j = choose|j: int| 0 <= j < e.children.len() && e.children[j] == id;
            assert(v.entry_wf(id as int));
        }
    }
}

/// The navigation history: an arena of entries, the root at index 0, and a
/// cursor on the current entry.
pub struct HistoryTree {
    entries: Vec<HistoryTreeEntry>,
    current: usize,
}

impl View for HistoryTree {
    type V = HistoryTreeView;

    closed spec fn view(&self) -> HistoryTreeView {
        HistoryTreeView { entries: self.entries@.map_values(|e: HistoryTreeEntry| e@), current: self.current }
    }
}

impl HistoryTree {
    pub open spec fn wf(&self) -> bool {
        self@.wf()
    }

    /// A tree holding only a root named `root_name`, which is current.
    pub fn new(root_name: &str) -> (t: HistoryTree)
        ensures
            t.wf(),
            t@ == HistoryTreeView::initial(root_name@),
    {
        let root = HistoryTreeEntry {
            name: root_name.to_owned(),
            parent: None,
            last_visited_child: None,
            children: Vec::new(),
        };
        let t = HistoryTree { entries: vec![root], current: 0 };
        proof {
            assert(t@.entries =~= HistoryTreeView::initial(root_name@).entries);
            assert(t@.entry_wf(0));
        }
        t
    }

    /// The entry currently visited.
    pub fn current_entry(&self) -> (e: &HistoryTreeEntry)
        requires
            self.wf(),
        ensures
            e@ == self@.current_entry(),
    {
        &self.entries[self.current]
    }
    /// Moves to the current entry's child named `fname`, creating it as the
    /// last child when there is none, and records it as the last child
    /// visited from the entry that was left.
    pub fn visit(&mut self, fname: &str)
        requires
            old(self).wf(),
            old(self)@.entries.len() < usize::MAX,
        ensures
            final(self).wf(),
            final(self)@ == old(self)@.visit(fname@),
            final(self)@.current_entry().name == fname@,
            final(self)@.current_entry().parent == Some(old(self)@.current),
    {
        let ghost v = self@;
        let key = fname.to_owned();
        let cur = self.current;
        proof {
            assert(v.entry_wf(cur as int));
        }
        let n = self.entries[cur].children.len();
        let ghost kids = v.entries[cur as int].children;
        let mut found: Option<usize> = None;
        let mut i: usize = 0;
        proof {
            assert(kids.subrange(0, n as int) =~= kids);
        }
        while i < n && found.is_none()
            invariant
                v.wf(),
                self@ == v,
                cur == v.current,
                kids == v.entries[cur as int].children,
                n == kids.len(),
                i <= n,
                key@ == fname@,
                v.entry_wf(cur as int),
                found is None ==> find_named(v.entries, kids, key@) == find_named(
                    v.entries,
                    kids.subrange(i as int, n as int),
                    key@,
                ),
                found matches Some(c) ==> find_named(v.entries, kids, key@) == Some(c),
            decreases n - i,
        {
            let c = self.entries[cur].children[i];
            proof {
                let rest = kids.subrange(i as int, n as int);
                assert(rest[0] == c);
                assert(rest.drop_first() =~= kids.subrange(i + 1, n as int));
            }
            if self.entries[c].name == key {
                found = Some(c);
            }
            i = i + 1;
        }
        match found {
            Some(c) => {
                self.entries[cur].last_visited_child = Some(c);
                self.current = c;
                proof {
                    assert(self@.entries =~= v.visit(key@).entries);
                    lemma_visit_wf(v, key@);
                    lemma_find_named(v.entries, kids, key@);
                }
            },
            None => {
                proof {
                    assert(kids.subrange(n as int, n as int).len() == 0);
                }
                let id = self.entries.len();
                self.entries[cur].children.push(id);
                self.entries[cur].last_visited_child = Some(id);
                let child = HistoryTreeEntry {
                    name: key,
                    parent: Some(cur),
                    last_visited_child: None,
                    children: Vec::new(),
                };
                self.entries.push(child);
                self.current = id;
                proof {
                    assert(self@.entries =~= v.visit(key@).entries);
                    lemma_visit_wf(v, key@);
                }
            },
        }
    }

    /// Moves to the parent of the current entry; at the root nothing
    /// changes.
    pub fn go_up(&mut self)
        requires
            old(self).wf(),
        ensures
            final(self).wf(),
            final(self)@ == old(self)@.go_up(),
    {
        proof {
            lemma_go_up_wf(self@);
        }
        if let Some(p) = self.entries[self.current].parent {
            self.current = p;
        }
    }
    /// The index of the root.
    pub fn root_id(&self) -> (id: usize)
        ensures
            id == 0,
    {
        0
    }

    /// The number of entries in the tree.
    pub fn entry_count(&self) -> (n: usize)
        ensures
            n == self@.entries.len(),
    {
        self.entries.len()
    }

    /// The index of the current entry.
    pub fn current_id(&self) -> (id: usize)
        ensures
            id == self@.current,
    {
        self.current
    }

    /// The entry at index `id`, if there is one.
    pub fn entry(&self, id: usize) -> (e: Option<&HistoryTreeEntry>)
        ensures
            id < self@.entries.len() ==> (e matches Some(x) && x@ == self@.entries[id as int]),
            id >= self@.entries.len() ==> e is None,
    {
        if id < self.entries.len() {
            Some(&self.entries[id])
        } else {
            None
        }
    }

    /// The number of references that keep the entry at `id` alive or in
    /// use: its slot in its parent's child list, the tree's hold on the
    /// root, and the cursor.
    pub fn strong_count(&self, id: usize) -> (r: usize)
        requires
            self.wf(),
        ensures
            r == self@.strong_refs(id),
    {
        let ghost v = self@;
        let mut total: usize = 0;
        let mut p: usize = 0;
        proof {
            lemma_owner_slots_prefix(v, id, 0);
        }
        while p < self.entries.len()
            invariant
                v.wf(),
                self@ == v,
                p <= v.entries.len(),
                total == owner_slots(v.entries.take(p as int), id),
            decreases v.entries.len() - p,
        {
            let kids = &self.entries[p].children;
            let ghost ks = v.entries[p as int].children;
            let mut here: usize = 0;
            let mut j: usize = 0;
            while j < kids.len()
                invariant
                    kids@ == ks,
                    j <= ks.len(),
                    here <= j,
                    here == count_in(ks.take(j as int), id),
                decreases ks.len() - j,
            {
                proof {
                    assert(ks.take(j + 1).drop_last() =~= ks.take(j as int));
                }
                if kids[j] == id {
                    here = here + 1;
                }
                j = j + 1;
            }
            proof {
                assert(ks.take(j as int) =~= ks);
                assert(v.entries.take(p + 1).drop_last() =~= v.entries.take(p as int));
                lemma_owner_slots_prefix(v, id, p + 1);
            }
            total = total + here;
            p = p + 1;
        }
        proof {
            lemma_owner_slots_prefix(v, id, p as int);
            assert(v.entries.take(p as int) =~= v.entries);
        }
        if id == 0 {
            total = total + 1;
        }
        if id == self.current {
            total = total + 1;
        }
        total
    }

    /// The number of non-owning links that point at the entry at `id`:
    /// parent links of its children and the last-visited-child link of its
    /// parent.
    pub fn weak_count(&self, id: usize) -> (r: usize)
        requires
            self.wf(),
        ensures
            r == self@.weak_refs(id),
    {
        let ghost v = self@;
        let mut total: usize = 0;
        let mut p: usize = 0;
        while p < self.entries.len()
            invariant
                v.wf(),
                self@ == v,
                p <= v.entries.len(),
                total == back_links(v.entries.take(p as int), id),
            decreases v.entries.len() - p,
        {
            proof {
                assert(v.entries.take(p + 1).drop_last() =~= v.entries.take(p as int));
                lemma_back_links_prefix(v, id, p + 1);
            }
            let e = &self.entries[p];
            if e.parent == Some(id) {
                total = total + 1;
            }
            if e.last_visited_child == Some(id) {
                total = total + 1;
            }
            p = p + 1;
        }
        proof {
            assert(v.entries.take(p as int) =~= v.entries);
        }
        total
    }
}

} // verus!
