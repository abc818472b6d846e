//! The item store: tasks and notes in a tree, kept as an arena of nodes that name their
//! children by index. Each item has an internal id; items that are not done also carry a
//! reference id, the one users type.

use std::collections::HashSet;
use vstd::prelude::*;

use crate::cli::ItemBatchMod;
use crate::ids::{is_lowest_free, lemma_free_exists, lowest_free, Id, ID_MAX};
use crate::persist::save_step;

verus! {

broadcast use vstd::std_specs::hash::group_hash_axioms;

/// Where an item stands.
#[derive(Debug, Clone, Copy, PartialEq, Eq, Structural)]
pub enum State {
    Todo,
    Note,
    Done,
}

/// A task or note. `children` are indices of other items of the same store.
pub struct Item {
    pub internal_id: Id,
    pub ref_id: Option<Id>,
    pub name: String,
    pub context: Option<String>,
    pub state: State,
    pub children: Vec<usize>,
}

/// Why a list of items was refused.
#[derive(Debug, Clone, Copy, PartialEq, Eq, Structural)]
pub enum Error {
    /// Two items share this reference id.
    RepeatedRefID(Id),
    /// Two items share this internal id.
    RepeatedInternalID(Id),
    /// A root or child index that names no item, or a child that does not come after its parent.
    BadIndex(usize),
}

/// The internal ids of the items of `s`.
pub open spec fn internal_set(s: Seq<Item>) -> Set<Id> {
    Set::new(|x: Id| exists|i: int| 0 <= i < s.len() && s[i].internal_id == x)
}

/// The reference ids that the items of `s` carry.
pub open spec fn ref_set(s: Seq<Item>) -> Set<Id> {
    Set::new(|x: Id| exists|i: int| 0 <= i < s.len() && s[i].ref_id == Some(x))
}

/// No two items of `s` share an internal id.
pub open spec fn internal_unique(s: Seq<Item>) -> bool {
    forall|i: int, j: int|
        0 <= i < j < s.len() ==> #[trigger] s[i].internal_id != #[trigger] s[j].internal_id
}

/// No two items of `s` carry the same reference id.
pub open spec fn ref_unique(s: Seq<Item>) -> bool {
    forall|i: int, j: int|
        0 <= i < j < s.len() && (#[trigger] s[i]).ref_id is Some ==> s[i].ref_id != (
        #[trigger] s[j]).ref_id
}

/// An item carries a reference id exactly when it is not done.
pub open spec fn ref_presence(s: Seq<Item>) -> bool {
    forall|i: int| 0 <= i < s.len() ==> ((#[trigger] s[i]).ref_id is Some <==> s[i].state != State::Done)
}

/// Every root names an item, and every child comes after its parent.
pub open spec fn shape_ok(s: Seq<Item>, roots: Seq<usize>) -> bool {
    &&& forall|k: int| 0 <= k < roots.len() ==> #[trigger] roots[k] < s.len()
    &&& forall|i: int, k: int|
        0 <= i < s.len() && 0 <= k < s[i].children@.len() ==> i < #[trigger] s[i].children@[k]
            < s.len()
}

/// The reference id that a new item in `state` gets when `fresh` is the lowest free one.
pub open spec fn normalized_ref(state: State, fresh: Id) -> Option<Id> {
    if state == State::Done {
        None
    } else {
        Some(fresh)
    }
}

/// An item after the batch edit `m`.
pub open spec fn modified_item(it: Item, m: ItemBatchMod) -> Item {
    Item {
        internal_id: it.internal_id,
        ref_id: it.ref_id,
        name: match m.name {
            Some(n) => n,
            None => it.name,
        },
        context: match m.context {
            Some(c) => if c@.len() == 0 {
                None
            } else {
                Some(c)
            },
            None => it.context,
        },
        state: match m.note {
            Some(true) => if it.state == State::Done {
                State::Done
            } else {
                State::Note
            },
            Some(false) => if it.state == State::Note {
                State::Todo
            } else {
                it.state
            },
            None => it.state,
        },
        children: it.children,
    }
}

/// The items of `s` before index `j` repeat no id.
pub open spec fn clean_before(s: Seq<Item>, j: int) -> bool {
    internal_unique(s.take(j)) && ref_unique(s.take(j))
}

/// The internal id of item `j` already stands on an item before it.
pub open spec fn internal_repeats_at(s: Seq<Item>, j: int) -> bool {
    internal_set(s.take(j)).contains(s[j].internal_id)
}

/// The reference id of item `j` already stands on an item before it.
pub open spec fn ref_repeats_at(s: Seq<Item>, j: int) -> bool {
    s[j].ref_id is Some && ref_set(s.take(j)).contains(s[j].ref_id->0)
}

/// The reference id that loading keeps on an item: none on a done item, else its own.
pub open spec fn kept_ref(b: Item) -> Option<Id> {
    if b.state == State::Done {
        None
    } else {
        b.ref_id
    }
}

/// The reference ids kept on the items of `s` from index `i` on.
pub open spec fn kept_refs_from(s: Seq<Item>, i: int) -> Set<Id> {
    Set::new(|x: Id| exists|a: int| i <= a < s.len() && kept_ref(s[a]) == Some(x))
}

/// The reference ids of the items at `roots`, in order, leaving out items that have none.
pub open spec fn surface(s: Seq<Item>, roots: Seq<usize>) -> Seq<Id>
    decreases roots.len(),
{
    if roots.len() == 0 {
        Seq::empty()
    } else {
        let rest = surface(s, roots.drop_last());
        match s[roots.last() as int].ref_id {
            Some(r) => rest.push(r),
            None => rest,
        }
    }
}

/// A batch edit changes an item's state only through `note`: with no `note` the state stays,
/// a done item stays done, `note = false` never moves a task, and the result is never done
/// unless the item was.
pub proof fn lemma_note_rules(it: Item, m: ItemBatchMod)
    ensures
        m.note is None ==> modified_item(it, m).state == it.state,
        it.state == State::Done ==> modified_item(it, m).state == State::Done,
        m.note == Some(false) && it.state != State::Note ==> modified_item(it, m).state == it.state,
        (modified_item(it, m).state == State::Done) == (it.state == State::Done),
        modified_item(it, m).internal_id == it.internal_id,
        modified_item(it, m).ref_id == it.ref_id,
{
}

proof fn lemma_push_sets(s: Seq<Item>, x: Item)
    ensures
        internal_set(s.push(x)) == internal_set(s).insert(x.internal_id),
        ref_set(s.push(x)) == match x.ref_id {
            Some(r) => ref_set(s).insert(r),
            None => ref_set(s),
        },
        internal_unique(s) && !internal_set(s).contains(x.internal_id) ==> internal_unique(
            s.push(x),
        ),
        ref_unique(s) && (x.ref_id matches Some(r) ==> !ref_set(s).contains(r)) ==> ref_unique(
            s.push(x),
        ),
{
    let t = s.push(x);
    assert forall|v: Id| internal_set(t).contains(v) <==> internal_set(s).insert(
        x.internal_id,
    ).contains(v) by {
        if internal_set(s).contains(v) {
            let k = choose|k: int| 0 <= k < s.len() && s[k].internal_id == v;
            assert(t[k].internal_id == v);
        }
        if internal_set(t).contains(v) && v != x.internal_id {
            let k = choose|k: int| 0 <= k < t.len() && t[k].internal_id == v;
            assert(s[k].internal_id == v);
        }
        assert(t[s.len() as int] == x);
    }
    assert(internal_set(t) =~= internal_set(s).insert(x.internal_id));
    let rs = match x.ref_id {
        Some(r) => ref_set(s).insert(r),
        None => ref_set(s),
    };
    assert forall|v: Id| ref_set(t).contains(v) <==> rs.contains(v) by {
        if ref_set(s).contains(v) {
            let k = choose|k: int| 0 <= k < s.len() && s[k].ref_id == Some(v);
            assert(t[k].ref_id == Some(v));
        }
        if ref_set(t).contains(v) && x.ref_id != Some(v) {
            let k = choose|k: int| 0 <= k < t.len() && t[k].ref_id == Some(v);
            assert(s[k].ref_id == Some(v));
        }
        assert(t[s.len() as int] == x);
    }
    assert(ref_set(t) =~= rs);
    if internal_unique(s) && !internal_set(s).contains(x.internal_id) {
        assert forall|i: int, j: int| 0 <= i < j < t.len() implies #[trigger] t[i].internal_id
            != #[trigger] t[j].internal_id by {
            if j == s.len() {
                assert(s[i] == t[i]);
                assert(internal_set(s).contains(s[i].internal_id));
            } else {
                assert(s[i] == t[i] && s[j] == t[j]);
            }
        }
    }
    if ref_unique(s) && (x.ref_id matches Some(r) ==> !ref_set(s).contains(r)) {
        assert forall|i: int, j: int| 0 <= i < j < t.len() && (#[trigger] t[i]).ref_id is Some implies t[i].ref_id
            != (#[trigger] t[j]).ref_id by {
            if j == s.len() {
                assert(s[i] == t[i]);
                assert(ref_set(s).contains(s[i].ref_id->0));
            } else {
                assert(s[i] == t[i] && s[j] == t[j]);
            }
        }
    }
}

proof fn lemma_sets_finite(s: Seq<Item>)
    ensures
        internal_set(s).finite(),
        internal_set(s).len() <= s.len(),
        ref_set(s).finite(),
        ref_set(s).len() <= s.len(),
    decreases s.len(),
{
    if s.len() == 0 {
        assert(internal_set(s) =~= Set::empty());
        assert(ref_set(s) =~= Set::empty());
    } else {
        let p = s.drop_last();
        lemma_sets_finite(p);
        assert(p.push(s.last()) =~= s);
        lemma_push_sets(p, s.last());
    }
}

/// Two item lists that agree, item by item, on ids and on whether an item is done.
pub open spec fn same_keys(a: Seq<Item>, b: Seq<Item>) -> bool {
    &&& a.len() == b.len()
    &&& forall|i: int|
        0 <= i < a.len() ==> (#[trigger] a[i]).internal_id == b[i].internal_id && a[i].ref_id
            == b[i].ref_id && (a[i].state == State::Done) == (b[i].state == State::Done)
}

proof fn lemma_same_keys(a: Seq<Item>, b: Seq<Item>)
    requires
        same_keys(a, b),
    ensures
        internal_set(a) == internal_set(b),
        ref_set(a) == ref_set(b),
        internal_unique(a) == internal_unique(b),
        ref_unique(a) == ref_unique(b),
        ref_presence(a) == ref_presence(b),
{
    assert forall|v: Id| internal_set(a).contains(v) <==> internal_set(b).contains(v) by {
        if internal_set(a).contains(v) {
            let k = choose|k: int| 0 <= k < a.len() && a[k].internal_id == v;
            assert(b[k].internal_id == v);
        }
        if internal_set(b).contains(v) {
            let k = choose|k: int| 0 <= k < b.len() && b[k].internal_id == v;
            assert(a[k].internal_id == v);
        }
    }
    assert(internal_set(a) =~= internal_set(b));
    assert forall|v: Id| ref_set(a).contains(v) <==> ref_set(b).contains(v) by {
        if ref_set(a).contains(v) {
            let k = choose|k: int| 0 <= k < a.len() && a[k].ref_id == Some(v);
            assert(b[k].ref_id == Some(v));
        }
        if ref_set(b).contains(v) {
            let k = choose|k: int| 0 <= k < b.len() && b[k].ref_id == Some(v);
            assert(a[k].ref_id == Some(v));
        }
    }
    assert(ref_set(a) =~= ref_set(b));
    if internal_unique(a) {
        assert forall|i: int, j: int| 0 <= i < j < b.len() implies #[trigger] b[i].internal_id
            != #[trigger] b[j].internal_id by {
            assert(a[i].internal_id != a[j].internal_id);
        }
    }
    if internal_unique(b) {
        assert forall|i: int, j: int| 0 <= i < j < a.len() implies #[trigger] a[i].internal_id
            != #[trigger] a[j].internal_id by {
            assert(b[i].internal_id != b[j].internal_id);
        }
    }
    if ref_unique(a) {
        assert forall|i: int, j: int| 0 <= i < j < b.len() && (#[trigger] b[i]).ref_id is Some implies b[i].ref_id
            != (#[trigger] b[j]).ref_id by {
            assert(a[i].ref_id == b[i].ref_id && a[j].ref_id == b[j].ref_id);
        }
    }
    if ref_unique(b) {
        assert forall|i: int, j: int| 0 <= i < j < a.len() && (#[trigger] a[i]).ref_id is Some implies a[i].ref_id
            != (#[trigger] a[j]).ref_id by {
            assert(a[i].ref_id == b[i].ref_id && a[j].ref_id == b[j].ref_id);
        }
    }
    if ref_presence(a) {
        assert forall|i: int| 0 <= i < b.len() implies ((#[trigger] b[i]).ref_id is Some <==> b[i].state
            != State::Done) by {
            assert(a[i].ref_id is Some <==> a[i].state != State::Done);
        }
    }
    if ref_presence(b) {
        assert forall|i: int| 0 <= i < a.len() implies ((#[trigger] a[i]).ref_id is Some <==> a[i].state
            != State::Done) by {
            assert(b[i].ref_id is Some <==> b[i].state != State::Done);
        }
    }
}

/// A store of items that knows whether it holds unsaved changes.
pub struct ItemManager {
    nodes: Vec<Item>,
    roots: Vec<usize>,
    modified: bool,
    internal_ids: HashSet<Id>,
    ref_ids: HashSet<Id>,
}

impl ItemManager {
    /// All items of the tree; an item's children are indices into this list.
    pub closed spec fn items(&self) -> Seq<Item> {
        self.nodes@
    }

    /// The indices of the top-level items, in order.
    pub closed spec fn root_indices(&self) -> Seq<usize> {
        self.roots@
    }

    /// The items as they are handed to a writer.
    pub closed spec fn stored(&self) -> Vec<Item> {
        self.nodes
    }

    /// The top-level indices as they are handed to a writer.
    pub closed spec fn stored_roots(&self) -> Vec<usize> {
        self.roots
    }

    /// Whether a change was made since the items were loaded or last written.
    pub closed spec fn modified(&self) -> bool {
        self.modified
    }

    /// Ids are unique in both spaces, the id sets mirror the items, reference ids are present
    /// exactly on items that are not done, and the indices form a tree.
    pub closed spec fn wf(&self) -> bool {
        &&& internal_unique(self.nodes@)
        &&& ref_unique(self.nodes@)
        &&& ref_presence(self.nodes@)
        &&& shape_ok(self.nodes@, self.roots@)
        &&& self.internal_ids@ == internal_set(self.nodes@)
        &&& self.ref_ids@ == ref_set(self.nodes@)
        &&& self.nodes@ == self.stored()@
        &&& self.roots@ == self.stored_roots()@
    }

    /// Loads items laid out as an arena; refused when an index does not form a tree or an id
    /// repeats. Done items lose their reference id; other items without one get the lowest
    /// free reference id, in order.
    pub fn new(nodes: Vec<Item>, roots: Vec<usize>) -> (r: Result<Self, Error>)
        requires
            nodes@.len() <= ID_MAX,
        ensures
            r is Ok <==> shape_ok(nodes@, roots@) && internal_unique(nodes@) && ref_unique(nodes@),
            r matches Err(Error::BadIndex(_)) ==> !shape_ok(nodes@, roots@),
            r matches Err(Error::RepeatedInternalID(id)) ==> exists|j: int|
                0 <= j < nodes@.len() && #[trigger] clean_before(nodes@, j) && internal_repeats_at(
                    nodes@,
                    j,
                ) && nodes@[j].internal_id == id,
            r matches Err(Error::RepeatedRefID(id)) ==> exists|j: int|
                0 <= j < nodes@.len() && #[trigger] clean_before(nodes@, j) && !internal_repeats_at(
                    nodes@,
                    j,
                ) && ref_repeats_at(nodes@, j) && nodes@[j].ref_id == Some(id),
            r matches Ok(m) ==> {
                &&& m.wf()
                &&& !m.modified()
                &&& m.root_indices() == roots@
                &&& m.items().len() == nodes@.len()
                &&& forall|i: int|
                    0 <= i < nodes@.len() ==> {
                        let a = #[trigger] m.items()[i];
                        let b = nodes@[i];
                        &&& a.internal_id == b.internal_id
                        &&& a.name == b.name
                        &&& a.context == b.context
                        &&& a.state == b.state
                        &&& a.children == b.children
                        &&& (b.state == State::Done ==> a.ref_id is None)
                        &&& (b.state != State::Done && b.ref_id is Some ==> a.ref_id == b.ref_id)
                        &&& (b.state != State::Done && b.ref_id is None ==> a.ref_id is Some
                            && is_lowest_free(
                            ref_set(m.items().take(i)).union(kept_refs_from(nodes@, i)),
                            0,
                            a.ref_id->0,
                        ))
                    }
            },
    {
        let n = nodes.len();
        let mut k: usize = 0;
        while k < roots.len()
            invariant
                n == nodes@.len(),
                k <= roots@.len(),
                forall|q: int| 0 <= q < k ==> #[trigger] roots@[q] < n,
            decreases roots@.len() - k,
        {
            if roots[k] >= n {
                return Err(Error::BadIndex(roots[k]));
            }
            k = k + 1;
        }
        let mut i: usize = 0;
        while i < n
            invariant
                n == nodes@.len(),
                i <= n,
                forall|a: int, q: int|
                    0 <= a < i && 0 <= q < nodes@[a].children@.len() ==> a
                        < #[trigger] nodes@[a].children@[q] < n,
            decreases n - i,
        {
            let ch = &nodes[i].children;
            let mut q: usize = 0;
            while q < ch.len()
                invariant
                    n == nodes@.len(),
                    i < n,
                    ch@ == nodes@[i as int].children@,
                    q <= ch@.len(),
                    forall|a: int, q2: int|
                        0 <= a < i && 0 <= q2 < nodes@[a].children@.len() ==> a
                            < #[trigger] nodes@[a].children@[q2] < n,
                    forall|q2: int| 0 <= q2 < q ==> i < #[trigger] ch@[q2] < n,
                decreases ch@.len() - q,
            {
                let c = ch[q];
                if c <= i || c >= n {
                    return Err(Error::BadIndex(c));
                }
                q = q + 1;
            }
            i = i + 1;
        }
        let mut in_set: HashSet<Id> = HashSet::new();
        let mut seen: HashSet<Id> = HashSet::new();
        let mut i: usize = 0;
        while i < n
            invariant
                n == nodes@.len(),
                i <= n,
                in_set@ == internal_set(nodes@.take(i as int)),
                seen@ == ref_set(nodes@.take(i as int)),
                internal_unique(nodes@.take(i as int)),
                ref_unique(nodes@.take(i as int)),
            decreases n - i,
        {
            let ghost t0 = nodes@.take(i as int);
            proof {
                assert(nodes@.take(i + 1) =~= t0.push(nodes@[i as int]));
                lemma_push_sets(t0, nodes@[i as int]);
            }
            let id = nodes[i].internal_id;
            if in_set.contains(&id) {
                proof {
                    let a = choose|a: int| 0 <= a < t0.len() && t0[a].internal_id == id;
                    assert(nodes@[a].internal_id == id);
                    assert(!internal_unique(nodes@)) by {
                        assert(nodes@[a].internal_id == nodes@[i as int].internal_id);
                    }
                    assert(clean_before(nodes@, i as int));
                    assert(internal_repeats_at(nodes@, i as int));
                }
                return Err(Error::RepeatedInternalID(id));
            }
            in_set.insert(id);
            if let Some(rid) = nodes[i].ref_id {
                if seen.contains(&rid) {
                    proof {
                        let a = choose|a: int| 0 <= a < t0.len() && t0[a].ref_id == Some(rid);
                        assert(nodes@[a].ref_id == Some(rid));
                        assert(!ref_unique(nodes@)) by {
                            assert(nodes@[a].ref_id == nodes@[i as int].ref_id);
                        }
                        assert(clean_before(nodes@, i as int));
                        assert(!internal_repeats_at(nodes@, i as int));
                        assert(ref_repeats_at(nodes@, i as int));
                    }
                    return Err(Error::RepeatedRefID(rid));
                }
                seen.insert(rid);
            }
            i = i + 1;
        }
        proof {
            assert(nodes@.take(n as int) =~= nodes@);
        }
        let ghost orig = nodes@;
        let mut nodes = nodes;
        let mut ref_ids: HashSet<Id> = HashSet::new();
        let mut i: usize = 0;
        while i < n
            invariant
                n == nodes@.len(),
                n == orig.len(),
                i <= n,
                ref_ids@ == ref_set(nodes@.take(i as int)),
                ref_unique(orig),
                forall|a: int|
                    0 <= a < n ==> {
                        let x = #[trigger] nodes@[a];
                        let y = orig[a];
                        &&& x.internal_id == y.internal_id
                        &&& x.name == y.name
                        &&& x.context == y.context
                        &&& x.state == y.state
                        &&& x.children == y.children
                        &&& (a < i && y.state == State::Done ==> x.ref_id is None)
                        &&& (a < i && y.state != State::Done ==> x.ref_id == y.ref_id)
                        &&& (a >= i ==> x.ref_id == y.ref_id)
                    },
            decreases n - i,
        {
            let ghost t0 = nodes@.take(i as int);
            if nodes[i].state == State::Done {
                nodes[i].ref_id = None;
            } else if let Some(rid) = nodes[i].ref_id {
                ref_ids.insert(rid);
            }
            proof {
                assert(nodes@.take(i as int) =~= t0);
                assert(nodes@.take(i + 1) =~= t0.push(nodes@[i as int]));
                lemma_push_sets(t0, nodes@[i as int]);
            }
            i = i + 1;
        }
        proof {
            assert(nodes@.take(n as int) =~= nodes@);
            assert forall|a: int, b: int| 0 <= a < b < n && (#[trigger] nodes@[a]).ref_id is Some implies nodes@[a].ref_id
                != (#[trigger] nodes@[b]).ref_id by {
                assert(orig[a].ref_id != orig[b].ref_id);
            }
        }
        let ghost mid = nodes@;
        proof {
            assert forall|a: int| 0 <= a < n implies (#[trigger] mid[a]).state == orig[a].state
                && mid[a].ref_id == kept_ref(orig[a]) by {
                assert(mid[a] == nodes@[a]);
            }
        }
        let mut i: usize = 0;
        while i < n
            invariant
                n == nodes@.len(),
                n == mid.len(),
                n == orig.len(),
                n <= ID_MAX,
                i <= n,
                ref_ids@ == ref_set(nodes@),
                ref_unique(nodes@),
                forall|a: int|
                    0 <= a < n ==> (#[trigger] mid[a]).state == orig[a].state && mid[a].ref_id
                        == kept_ref(orig[a]),
                forall|a: int| i <= a < n ==> (#[trigger] nodes@[a]).ref_id == mid[a].ref_id,
                forall|a: int|
                    0 <= a < i && orig[a].state != State::Done && orig[a].ref_id is None ==> (
                    #[trigger] nodes@[a]).ref_id is Some && is_lowest_free(
                        ref_set(nodes@.take(a)).union(kept_refs_from(orig, a)),
                        0,
                        nodes@[a].ref_id->0,
                    ),
                forall|a: int|
                    0 <= a < n ==> {
                        let x = #[trigger] nodes@[a];
                        let y = mid[a];
                        &&& x.internal_id == y.internal_id
                        &&& x.name == y.name
                        &&& x.context == y.context
                        &&& x.state == y.state
                        &&& x.children == y.children
                        &&& (y.ref_id is Some ==> x.ref_id == y.ref_id)
                        &&& (y.state == State::Done ==> x.ref_id is None)
                        &&& (a < i ==> (x.ref_id is Some <==> x.state != State::Done))
                    },
            decreases n - i,
        {
            if nodes[i].state != State::Done && nodes[i].ref_id.is_none() {
                proof {
                    lemma_sets_finite(nodes@);
                    lemma_free_exists(ref_ids@);
                }
                let rid = lowest_free(&ref_ids);
                let ghost before = nodes@;
                proof {
                    let u = ref_set(before.take(i as int)).union(kept_refs_from(orig, i as int));
                    assert forall|v: Id| ref_set(before).contains(v) <==> u.contains(v) by {
                        if ref_set(before).contains(v) {
                            let k = choose|k: int| 0 <= k < n && before[k].ref_id == Some(v);
                            if k < i {
                                assert(before.take(i as int)[k].ref_id == Some(v));
                            } else {
                                assert(kept_ref(orig[k]) == Some(v));
                            }
                        }
                        if ref_set(before.take(i as int)).contains(v) {
                            let k = choose|k: int|
                                0 <= k < i && before.take(i as int)[k].ref_id == Some(v);
                            assert(before[k].ref_id == Some(v));
                        }
                        if kept_refs_from(orig, i as int).contains(v) {
                            let k = choose|k: int| i <= k < n && kept_ref(orig[k]) == Some(v);
                            assert(before[k].ref_id == Some(v));
                        }
                    }
                    assert(ref_set(before) =~= u);
                }
                nodes[i].ref_id = Some(rid);
                ref_ids.insert(rid);
                proof {
                    let after = nodes@;
                    assert(after.take(i as int) =~= before.take(i as int));
                    assert forall|a: int|
                        0 <= a < i + 1 && orig[a].state != State::Done && orig[a].ref_id is None implies (
                        #[trigger] after[a]).ref_id is Some && is_lowest_free(
                            ref_set(after.take(a)).union(kept_refs_from(orig, a)),
                            0,
                            after[a].ref_id->0,
                        ) by {
                        assert(after.take(a) =~= before.take(a));
                        if a < i {
                            assert(after[a] == before[a]);
                        }
                    }
                    assert forall|v: Id| ref_set(after).contains(v) <==> ref_set(before).insert(
                        rid,
                    ).contains(v) by {
                        if ref_set(before).contains(v) {
                            let k = choose|k: int| 0 <= k < n && before[k].ref_id == Some(v);
                            assert(after[k].ref_id == Some(v));
                        }
                        if ref_set(after).contains(v) && v != rid {
                            let k = choose|k: int| 0 <= k < n && after[k].ref_id == Some(v);
                            assert(before[k].ref_id == Some(v));
                        }
                        assert(after[i as int].ref_id == Some(rid));
                    }
                    assert(ref_set(after) =~= ref_set(before).insert(rid));
                    assert forall|a: int, b: int| 0 <= a < b < n && (#[trigger] after[a]).ref_id is Some implies after[a].ref_id
                        != (#[trigger] after[b]).ref_id by {
                        if a == i {
                            if before[b].ref_id == Some(rid) {
                                assert(ref_set(before).contains(rid));
                            }
                        } else if b == i {
                            assert(ref_set(before).contains(before[a].ref_id->0));
                        } else {
                            assert(before[a].ref_id != before[b].ref_id);
                        }
                    }
                }
            }
            i = i + 1;
        }
        proof {
            lemma_sets_finite(nodes@);
            assert forall|v: Id| internal_set(nodes@).contains(v) <==> internal_set(orig).contains(
                v,
            ) by {
                if internal_set(nodes@).contains(v) {
                    let k = choose|k: int| 0 <= k < n && nodes@[k].internal_id == v;
                    assert(orig[k].internal_id == v);
                }
                if internal_set(orig).contains(v) {
                    let k = choose|k: int| 0 <= k < n && orig[k].internal_id == v;
                    assert(nodes@[k].internal_id == v);
                }
            }
            assert(internal_set(nodes@) =~= internal_set(orig));
            assert forall|a: int, b: int| 0 <= a < b < n implies #[trigger] nodes@[a].internal_id
                != #[trigger] nodes@[b].internal_id by {
                assert(orig[a].internal_id != orig[b].internal_id);
            }
            assert forall|a: int, q: int|
                0 <= a < n && 0 <= q < nodes@[a].children@.len() implies a
                    < #[trigger] nodes@[a].children@[q] < n by {
                assert(nodes@[a].children == orig[a].children);
            }
        }
        Ok(ItemManager { nodes, roots, modified: false, internal_ids: in_set, ref_ids })
    }


    /// The index of the item that carries `ref_id`.
    fn position_of_ref(&self, ref_id: Id) -> (r: Option<usize>)
        ensures
            match r {
                Some(p) => p < self.items().len() && self.items()[p as int].ref_id == Some(ref_id),
                None => !ref_set(self.items()).contains(ref_id),
            },
    {
        let mut i: usize = 0;
        while i < self.nodes.len()
            invariant
                i <= self.nodes@.len(),
                forall|a: int| 0 <= a < i ==> (#[trigger] self.nodes@[a]).ref_id != Some(ref_id),
            decreases self.nodes@.len() - i,
        {
            if self.nodes[i].ref_id == Some(ref_id) {
                return Some(i);
            }
            i = i + 1;
        }
        proof {
            if ref_set(self.nodes@).contains(ref_id) {
                let k = choose|k: int|
                    0 <= k < self.nodes@.len() && self.nodes@[k].ref_id == Some(ref_id);
                assert(self.nodes@[k].ref_id != Some(ref_id));
            }
        }
        None
    }

    /// The item that carries `ref_id`, wherever it stands in the tree.
    pub fn find(&self, ref_id: Id) -> (r: Option<&Item>)
        ensures
            match r {
                Some(it) => exists|p: int|
                    0 <= p < self.items().len() && self.items()[p] == *it && it.ref_id == Some(
                        ref_id,
                    ),
                None => !ref_set(self.items()).contains(ref_id),
            },
    {
        match self.position_of_ref(ref_id) {
            Some(p) => Some(&self.nodes[p]),
            None => None,
        }
    }

    /// Appends a new top-level item under the lowest free internal id and, unless it is done,
    /// the lowest free reference id.
    pub fn add_item_on_root(&mut self, name: String, context: Option<String>, state: State)
        requires
            old(self).wf(),
            old(self).items().len() < ID_MAX,
        ensures
            final(self).wf(),
            final(self).modified(),
            final(self).items().len() == old(self).items().len() + 1,
            final(self).items().drop_last() == old(self).items(),
            final(self).root_indices() == old(self).root_indices().push(
                old(self).items().len() as usize,
            ),
            ({
                let it = final(self).items().last();
                &&& it.name == name
                &&& it.context == context
                &&& it.state == state
                &&& it.children@.len() == 0
                &&& is_lowest_free(internal_set(old(self).items()), 0, it.internal_id)
                &&& exists|f: Id|
                    is_lowest_free(ref_set(old(self).items()), 0, f) && it.ref_id == normalized_ref(
                        state,
                        f,
                    )
            }),
    {
        let ghost old_nodes = self.nodes@;
        let idx = self.nodes.len();
        let it = self.new_item(name, context, state);
        self.nodes.push(it);
        self.roots.push(idx);
        self.modified = true;
        proof {
            self.lemma_pushed(old_nodes, idx as int);
            assert(self.nodes@.drop_last() =~= old_nodes);
        }
    }

    /// A fresh item: ids allocated and recorded in the id sets, no children.
    fn new_item(&mut self, name: String, context: Option<String>, state: State) -> (r: Item)
        requires
            old(self).wf(),
            old(self).items().len() < ID_MAX,
        ensures
            final(self).nodes == old(self).nodes,
            final(self).roots == old(self).roots,
            final(self).modified == old(self).modified,
            final(self).internal_ids@ == old(self).internal_ids@.insert(r.internal_id),
            final(self).ref_ids@ == match r.ref_id {
                Some(f) => old(self).ref_ids@.insert(f),
                None => old(self).ref_ids@,
            },
            r.name == name,
            r.context == context,
            r.state == state,
            r.children@.len() == 0,
            is_lowest_free(internal_set(old(self).items()), 0, r.internal_id),
            exists|f: Id|
                is_lowest_free(ref_set(old(self).items()), 0, f) && r.ref_id == normalized_ref(
                    state,
                    f,
                ),
    {
        proof {
            lemma_sets_finite(self.nodes@);
            lemma_free_exists(self.ref_ids@);
            lemma_free_exists(self.internal_ids@);
        }
        let fresh_ref = lowest_free(&self.ref_ids);
        let ref_id = match state {
            State::Done => None,
            State::Todo | State::Note => {
                self.ref_ids.insert(fresh_ref);
                Some(fresh_ref)
            },
        };
        let internal_id = lowest_free(&self.internal_ids);
        self.internal_ids.insert(internal_id);
        proof {
            assert(is_lowest_free(ref_set(old(self).items()), 0, fresh_ref) && ref_id
                == normalized_ref(state, fresh_ref));
        }
        Item { internal_id, ref_id, name, context, state, children: Vec::new() }
    }

    /// After `new_item` and a push onto the item list, the store is well formed again.
    proof fn lemma_pushed(&self, old_nodes: Seq<Item>, idx: int)
        requires
            idx == old_nodes.len(),
            self.nodes@ == old_nodes.push(self.nodes@[idx]),
            internal_unique(old_nodes),
            ref_unique(old_nodes),
            ref_presence(old_nodes),
            self.internal_ids@ == internal_set(old_nodes).insert(self.nodes@[idx].internal_id),
            !internal_set(old_nodes).contains(self.nodes@[idx].internal_id),
            self.ref_ids@ == match self.nodes@[idx].ref_id {
                Some(f) => ref_set(old_nodes).insert(f),
                None => ref_set(old_nodes),
            },
            self.nodes@[idx].ref_id matches Some(f) ==> !ref_set(old_nodes).contains(f),
            self.nodes@[idx].ref_id is Some <==> self.nodes@[idx].state != State::Done,
            forall|k: int| 0 <= k < self.roots@.len() ==> #[trigger] self.roots@[k] <= idx,
            forall|i: int, k: int|
                0 <= i < self.nodes@.len() && 0 <= k < self.nodes@[i].children@.len() ==> i
                    < #[trigger] self.nodes@[i].children@[k] < self.nodes@.len(),
            self.nodes@ == self.stored()@,
            self.roots@ == self.stored_roots()@,
        ensures
            self.wf(),
    {
        lemma_push_sets(old_nodes, self.nodes@[idx]);
        assert forall|i: int| 0 <= i < self.nodes@.len() implies ((#[trigger] self.nodes@[i]).ref_id
            is Some <==> self.nodes@[i].state != State::Done) by {
            if i < idx {
                assert(self.nodes@[i] == old_nodes[i]);
            }
        }
    }


    /// Appends a new item as the last child of the item that carries `ref_id`, with ids
    /// allocated as for a top-level item. When no item carries `ref_id`, nothing changes and
    /// the store stays as clean or dirty as it was.
    pub fn add_child_to_ref_id(
        &mut self,
        ref_id: Id,
        name: String,
        context: Option<String>,
        state: State,
    ) -> (r: Result<(), ()>)
        requires
            old(self).wf(),
            old(self).items().len() < ID_MAX,
        ensures
            final(self).wf(),
            r is Ok <==> ref_set(old(self).items()).contains(ref_id),
            r is Err ==> *final(self) == *old(self),
            r is Ok ==> {
                let n = old(self).items().len();
                let it = final(self).items()[n as int];
                &&& final(self).modified()
                &&& final(self).items().len() == n + 1
                &&& final(self).root_indices() == old(self).root_indices()
                &&& it.name == name
                &&& it.context == context
                &&& it.state == state
                &&& it.children@.len() == 0
                &&& is_lowest_free(internal_set(old(self).items()), 0, it.internal_id)
                &&& (exists|f: Id|
                    is_lowest_free(ref_set(old(self).items()), 0, f) && it.ref_id
                        == normalized_ref(state, f))
                &&& exists|p: int|
                    0 <= p < n && old(self).items()[p].ref_id == Some(ref_id) && {
                        let a = final(self).items()[p];
                        let b = old(self).items()[p];
                        &&& a.children@ == b.children@.push(n as usize)
                        &&& a.internal_id == b.internal_id
                        &&& a.ref_id == b.ref_id
                        &&& a.name == b.name
                        &&& a.context == b.context
                        &&& a.state == b.state
                    } && forall|q: int|
                        0 <= q < n && q != p ==> #[trigger] final(self).items()[q] == old(
                            self,
                        ).items()[q]
            },
    {
        let p = match self.position_of_ref(ref_id) {
            Some(p) => p,
            None => return Err(()),
        };
        let ghost old_nodes = self.nodes@;
        let idx = self.nodes.len();
        let it = self.new_item(name, context, state);
        self.nodes.push(it);
        let ghost pushed = self.nodes@;
        self.nodes[p].children.push(idx);
        self.modified = true;
        proof {
            let s = self.nodes@;
            assert(old_nodes =~= pushed.drop_last());
            assert(same_keys(s, pushed));
            lemma_same_keys(s, pushed);
            lemma_push_sets(old_nodes, pushed[idx as int]);
            assert forall|i: int| 0 <= i < s.len() implies ((#[trigger] s[i]).ref_id is Some
                <==> s[i].state != State::Done) by {
                if i < idx {
                    assert(pushed[i] == old_nodes[i]);
                }
            }
            assert forall|i: int, k: int|
                0 <= i < s.len() && 0 <= k < s[i].children@.len() implies i
                    < #[trigger] s[i].children@[k] < s.len() by {
                if i != p && i < idx {
                    assert(s[i] == old_nodes[i]);
                } else if i == p {
                    if k < old_nodes[i].children@.len() {
                        assert(s[i].children@[k] == old_nodes[i].children@[k]);
                    }
                }
            }
        }
        Ok(())
    }

    /// Marks the task that carries `ref_id` as done, which frees its reference id for reuse.
    /// Notes, and ids that no item carries, are left alone; returns whether a task was closed.
    pub fn mark_done(&mut self, ref_id: Id) -> (r: bool)
        requires
            old(self).wf(),
        ensures
            final(self).wf(),
            r == exists|p: int|
                0 <= p < old(self).items().len() && old(self).items()[p].ref_id == Some(ref_id)
                    && old(self).items()[p].state == State::Todo,
            !r ==> *final(self) == *old(self),
            r ==> {
                &&& final(self).modified()
                &&& final(self).root_indices() == old(self).root_indices()
                &&& ref_set(final(self).items()) == ref_set(old(self).items()).remove(ref_id)
                &&& exists|p: int|
                    0 <= p < old(self).items().len() && old(self).items()[p].ref_id == Some(ref_id)
                        && final(self).items() == old(self).items().update(
                        p,
                        (Item { state: State::Done, ref_id: None, ..old(self).items()[p] }),
                    )
            },
    {
        let p = match self.position_of_ref(ref_id) {
            Some(p) => p,
            None => return false,
        };
        if self.nodes[p].state != State::Todo {
            proof {
                assert forall|q: int|
                    0 <= q < self.nodes@.len() && self.nodes@[q].ref_id == Some(ref_id) implies self.nodes@[q].state
                    != State::Todo by {
                    if q != p {
                        if q < p {
                            assert(self.nodes@[q].ref_id != self.nodes@[p as int].ref_id);
                        } else {
                            assert(self.nodes@[p as int].ref_id != self.nodes@[q].ref_id);
                        }
                    }
                }
            }
            return false;
        }
        let ghost a = self.nodes@;
        self.nodes[p].state = State::Done;
        self.nodes[p].ref_id = None;
        self.ref_ids.remove(&ref_id);
        self.modified = true;
        proof {
            let b = self.nodes@;
            assert(b =~= a.update(p as int, Item { state: State::Done, ref_id: None, ..a[p as int] }));
            assert forall|v: Id| ref_set(b).contains(v) <==> ref_set(a).remove(ref_id).contains(v) by {
                if ref_set(b).contains(v) {
                    let k = choose|k: int| 0 <= k < b.len() && b[k].ref_id == Some(v);
                    assert(a[k].ref_id == Some(v));
                    if v == ref_id {
                        if k < p {
                            assert(a[k].ref_id != a[p as int].ref_id);
                        } else {
                            assert(a[p as int].ref_id != a[k].ref_id);
                        }
                    }
                }
                if ref_set(a).remove(ref_id).contains(v) {
                    let k = choose|k: int| 0 <= k < a.len() && a[k].ref_id == Some(v);
                    assert(b[k].ref_id == Some(v));
                }
            }
            assert(ref_set(b) =~= ref_set(a).remove(ref_id));
            assert forall|v: Id| internal_set(b).contains(v) <==> internal_set(a).contains(v) by {
                if internal_set(a).contains(v) {
                    let k = choose|k: int| 0 <= k < a.len() && a[k].internal_id == v;
                    assert(b[k].internal_id == v);
                }
                if internal_set(b).contains(v) {
                    let k = choose|k: int| 0 <= k < b.len() && b[k].internal_id == v;
                    assert(a[k].internal_id == v);
                }
            }
            assert(internal_set(b) =~= internal_set(a));
            assert forall|i: int, j: int| 0 <= i < j < b.len() implies #[trigger] b[i].internal_id
                != #[trigger] b[j].internal_id by {
                assert(a[i].internal_id != a[j].internal_id);
            }
            assert forall|i: int, j: int|
                0 <= i < j < b.len() && (#[trigger] b[i]).ref_id is Some implies b[i].ref_id != (
                #[trigger] b[j]).ref_id by {
                assert(a[i].ref_id != a[j].ref_id);
            }
            assert forall|i: int, k: int|
                0 <= i < b.len() && 0 <= k < b[i].children@.len() implies i
                    < #[trigger] b[i].children@[k] < b.len() by {
                assert(a[i].children == b[i].children);
            }
            assert forall|i: int| 0 <= i < b.len() implies ((#[trigger] b[i]).ref_id is Some
                <==> b[i].state != State::Done) by {
                assert(a[i].ref_id is Some <==> a[i].state != State::Done);
            }
        }
        true
    }

    /// A batch edit over the items selected by reference id needs a confirmation when it
    /// selects more than one.
    pub fn needs_confirmation(range: &Vec<Id>) -> (r: bool)
        ensures
            r == (range@.len() > 1),
    {
        range.len() > 1
    }

    /// Applies `m` to each item whose reference id is in `range`; a selection of more than
    /// one needs `confirmed`. Ids that no item carries are passed over. Returns whether the
    /// edit was applied.
    pub fn mass_modify(&mut self, range: &Vec<Id>, m: &ItemBatchMod, confirmed: bool) -> (r: bool)
        requires
            old(self).wf(),
        ensures
            final(self).wf(),
            r == (range@.len() <= 1 || confirmed),
            final(self).root_indices() == old(self).root_indices(),
            final(self).items().len() == old(self).items().len(),
            final(self).modified() == (old(self).modified() || (r && exists|k: int|
                0 <= k < range@.len() && ref_set(old(self).items()).contains(#[trigger] range@[k]))),
            forall|q: int|
                0 <= q < old(self).items().len() ==> #[trigger] final(self).items()[q] == if r
                    && exists|k: int|
                    0 <= k < range@.len() && old(self).items()[q].ref_id == Some(
                        #[trigger] range@[k],
                    ) {
                    modified_item(old(self).items()[q], *m)
                } else {
                    old(self).items()[q]
                },
    {
        if range.len() > 1 && !confirmed {
            return false;
        }
        let ghost orig = self.nodes@;
        let mut k: usize = 0;
        while k < range.len()
            invariant
                self.wf(),
                k <= range@.len(),
                self.roots@ == old(self).roots@,
                self.nodes@.len() == orig.len(),
                orig == old(self).nodes@,
                self.modified == (old(self).modified || exists|j: int|
                    0 <= j < k && ref_set(orig).contains(#[trigger] range@[j])),
                forall|q: int|
                    0 <= q < orig.len() ==> #[trigger] self.nodes@[q] == if exists|j: int|
                        0 <= j < k && orig[q].ref_id == Some(#[trigger] range@[j]) {
                        modified_item(orig[q], *m)
                    } else {
                        orig[q]
                    },
            decreases range@.len() - k,
        {
            let id = range[k];
            let ghost before = self.nodes@;
            proof {
                assert(same_keys(before, orig));
                lemma_same_keys(before, orig);
            }
            if let Some(p) = self.position_of_ref(id) {
                self.modify_at(p, m);
                self.modified = true;
                proof {
                    assert(ref_set(orig).contains(id));
                }
            }
            proof {
                assert forall|q: int| 0 <= q < orig.len() implies #[trigger] self.nodes@[q] == if exists|j: int|
                    0 <= j < k + 1 && orig[q].ref_id == Some(#[trigger] range@[j]) {
                    modified_item(orig[q], *m)
                } else {
                    orig[q]
                } by {
                    if orig[q].ref_id == Some(id) {
                        assert(range@[k as int] == id);
                    } else if exists|j: int| 0 <= j < k + 1 && orig[q].ref_id == Some(#[trigger] range@[j]) {
                        let j = choose|j: int| 0 <= j < k + 1 && orig[q].ref_id == Some(#[trigger] range@[j]);
                        assert(j < k);
                    }
                }
                if exists|j: int| 0 <= j < k + 1 && ref_set(orig).contains(#[trigger] range@[j]) {
                    if !ref_set(orig).contains(id) {
                        let j = choose|j: int| 0 <= j < k + 1 && ref_set(orig).contains(#[trigger] range@[j]);
                        assert(j < k);
                    }
                }
            }
            k = k + 1;
        }
        true
    }

    /// Applies `m` to the item at `p`.
    fn modify_at(&mut self, p: usize, m: &ItemBatchMod)
        requires
            old(self).wf(),
            p < old(self).items().len(),
        ensures
            final(self).wf(),
            final(self).modified == old(self).modified,
            final(self).roots == old(self).roots,
            final(self).nodes@ == old(self).nodes@.update(
                p as int,
                modified_item(old(self).nodes@[p as int], *m),
            ),
    {
        if let Some(name) = &m.name {
            self.nodes[p].name = name.clone();
        }
        if let Some(context) = &m.context {
            if context.as_str().is_empty() {
                self.nodes[p].context = None;
            } else {
                self.nodes[p].context = Some(context.clone());
            }
        }
        if let Some(note) = m.note {
            if note {
                if self.nodes[p].state != State::Done {
                    self.nodes[p].state = State::Note;
                }
            } else if self.nodes[p].state == State::Note {
                self.nodes[p].state = State::Todo;
            }
        }
        proof {
            let a = old(self).nodes@;
            let b = self.nodes@;
            assert(b =~= a.update(p as int, modified_item(a[p as int], *m)));
            assert(same_keys(a, b));
            lemma_same_keys(a, b);
            assert forall|i: int, k: int|
                0 <= i < b.len() && 0 <= k < b[i].children@.len() implies i
                    < #[trigger] b[i].children@[k] < b.len() by {
                assert(a[i].children == b[i].children);
            }
        }
    }

    /// The reference ids of the top-level items, in order; items without one are left out.
    pub fn get_surface_ref_ids(&self) -> (r: Vec<Id>)
        requires
            self.wf(),
        ensures
            r@ == surface(self.items(), self.root_indices()),
    {
        let mut r: Vec<Id> = Vec::new();
        let mut k: usize = 0;
        while k < self.roots.len()
            invariant
                self.wf(),
                k <= self.roots@.len(),
                r@ == surface(self.nodes@, self.roots@.take(k as int)),
            decreases self.roots@.len() - k,
        {
            proof {
                assert(self.roots@.take(k + 1).drop_last() =~= self.roots@.take(k as int));
            }
            let idx = self.roots[k];
            if let Some(id) = self.nodes[idx].ref_id {
                r.push(id);
            }
            k = k + 1;
        }
        proof {
            assert(self.roots@.take(k as int) =~= self.roots@);
        }
        r
    }

    /// The internal ids in use.
    pub fn internal_ids(&self) -> (r: &HashSet<Id>)
        requires
            self.wf(),
        ensures
            r@ == internal_set(self.items()),
    {
        &self.internal_ids
    }

    /// The reference ids in use.
    pub fn ref_ids(&self) -> (r: &HashSet<Id>)
        requires
            self.wf(),
        ensures
            r@ == ref_set(self.items()),
    {
        &self.ref_ids
    }

    /// All items; an item's children are indices into this list.
    pub fn data(&self) -> (r: &Vec<Item>)
        ensures
            r@ == self.items(),
    {
        &self.nodes
    }

    /// The indices of the top-level items, in order.
    pub fn roots(&self) -> (r: &Vec<usize>)
        ensures
            r@ == self.root_indices(),
    {
        &self.roots
    }

    /// Whether a change was made since the items were loaded or last written.
    pub fn is_modified(&self) -> (r: bool)
        ensures
            r == self.modified(),
    {
        self.modified
    }

    /// Hands the items and the top-level indices to `write` if a change is pending;
    /// `Ok(true)` when it wrote.
    pub fn save_if_modified<E, F: FnOnce(&Vec<Item>, &Vec<usize>) -> Result<(), E>>(
        &mut self,
        write: F,
    ) -> (r: Result<bool, E>)
        requires
            old(self).wf(),
            old(self).modified() ==> call_requires(
                write,
                (&old(self).stored(), &old(self).stored_roots()),
            ),
        ensures
            final(self).wf(),
            final(self).items() == old(self).items(),
            final(self).root_indices() == old(self).root_indices(),
            save_step(old(self).modified(), r, final(self).modified()),
            old(self).modified() ==> match r {
                Ok(_) => call_ensures(
                    write,
                    (&old(self).stored(), &old(self).stored_roots()),
                    Ok::<(), E>(()),
                ),
                Err(e) => call_ensures(
                    write,
                    (&old(self).stored(), &old(self).stored_roots()),
                    Err::<(), E>(e),
                ),
            },
    {
        if !self.modified {
            return Ok(false);
        }
        let res = write(&self.nodes, &self.roots);
        proof {
            assert(call_ensures(write, (&old(self).stored(), &old(self).stored_roots()), res));
        }
        match res {
            Ok(u) => {
                proof {
                    let unit: () = u;
                    assert(unit == ());
                    assert(res == Ok::<(), E>(()));
                }
                self.modified = false;
                Ok(true)
            },
            Err(e) => Err(e),
        }
    }

    /// In a well-formed store no two items share an internal id, and no two items carry the
    /// same reference id.
    pub proof fn lemma_ids_unique(&self)
        requires
            self.wf(),
        ensures
            internal_unique(self.items()),
            ref_unique(self.items()),
    {
    }

    /// In a well-formed store an item carries a reference id exactly when it is not done.
    pub proof fn lemma_ref_presence(&self)
        requires
            self.wf(),
        ensures
            ref_presence(self.items()),
    {
    }

}

} // verus!
