//! The bookmark store: a flat list of bookmarks with unique ids and URLs.

use std::collections::HashSet;
use vstd::prelude::*;

use crate::ids::{has_free_at_or_above, is_lowest_free, lemma_free_exists, lowest_free, Id, ID_MAX};
use crate::persist::save_step;
use crate::text::{slash_toggled, toggle_trailing_slash, trim_text, trimmed};

verus! {

broadcast use vstd::std_specs::hash::group_hash_axioms;

/// A saved link.
pub struct Bookmark {
    pub id: Id,
    pub name: String,
    pub url: String,
    pub tags: Vec<String>,
    pub archived: bool,
}

/// Why the bookmark store refused a list or a new bookmark.
#[derive(Debug, Clone, Copy, PartialEq, Eq, Structural)]
pub enum BookmarkError {
    /// Two bookmarks of a loaded list share this id.
    RepeatedId(Id),
    /// The URL (or its trailing-slash form) is already saved, by the bookmark with this id.
    RepeatedUrl(Id),
}

/// The ids that the bookmarks of `s` carry.
pub open spec fn id_set(s: Seq<Bookmark>) -> Set<Id> {
    Set::new(|x: Id| exists|i: int| 0 <= i < s.len() && s[i].id == x)
}

/// No two bookmarks of `s` share an id.
pub open spec fn ids_unique(s: Seq<Bookmark>) -> bool {
    forall|i: int, j: int| 0 <= i < j < s.len() ==> s[i].id != s[j].id
}

/// The id of the first bookmark of `s` whose URL is exactly `u`.
pub open spec fn first_with_url(s: Seq<Bookmark>, u: Seq<char>) -> Option<Id>
    decreases s.len(),
{
    if s.len() == 0 {
        None
    } else if s[0].url@ == u {
        Some(s[0].id)
    } else {
        first_with_url(s.drop_first(), u)
    }
}

/// The bookmark that a new URL `u` would repeat: the first with `u` itself, else the first
/// with its trailing-slash form.
pub open spec fn url_conflict(s: Seq<Bookmark>, u: Seq<char>) -> Option<Id> {
    match first_with_url(s, u) {
        Some(id) => Some(id),
        None => first_with_url(s, slash_toggled(u)),
    }
}

/// The id that a list with a repeated id is refused for: that of the first bookmark whose
/// id an earlier one already carries.
pub open spec fn is_first_repeat(s: Seq<Bookmark>, id: Id) -> bool {
    exists|j: int|
        0 <= j < s.len() && ids_unique(s.take(j)) && s[j].id == id && id_set(s.take(j)).contains(id)
}

/// A store of bookmarks that knows whether it holds unsaved changes.
pub struct BookmarkManager {
    data: Vec<Bookmark>,
    modified: bool,
    used_ids: HashSet<Id>,
}

impl BookmarkManager {
    /// The bookmarks, in order.
    pub closed spec fn records(&self) -> Seq<Bookmark> {
        self.data@
    }

    /// The bookmarks as they are handed to a writer.
    pub closed spec fn stored(&self) -> Vec<Bookmark> {
        self.data
    }

    /// Whether a change was made since the list was loaded or last written.
    pub closed spec fn modified(&self) -> bool {
        self.modified
    }

    /// Ids are unique, and the set of used ids is exactly the set of ids of the bookmarks.
    pub closed spec fn wf(&self) -> bool {
        &&& ids_unique(self.data@)
        &&& self.used_ids@ == id_set(self.data@)
        &&& self.used_ids@.finite()
        &&& self.used_ids@.len() == self.data@.len()
        &&& self.data@ == self.stored()@
    }

    /// Loads a list of bookmarks; it is refused if two of them share an id.
    pub fn new(data: Vec<Bookmark>) -> (r: Result<Self, BookmarkError>)
        ensures
            r is Ok <==> ids_unique(data@),
            r matches Ok(m) ==> m.wf() && m.records() == data@ && !m.modified(),
            r matches Err(e) ==> e matches BookmarkError::RepeatedId(id) && is_first_repeat(
                data@,
                id,
            ),
    {
        let mut used_ids: HashSet<Id> = HashSet::new();
        let mut i: usize = 0;
        while i < data.len()
            invariant
                i <= data@.len(),
                ids_unique(data@.take(i as int)),
                used_ids@ == id_set(data@.take(i as int)),
                used_ids@.finite(),
                used_ids@.len() == i,
            decreases data@.len() - i,
        {
            let id = data[i].id;
            if used_ids.contains(&id) {
                proof {
                    assert(!ids_unique(data@)) by {
                        let k = choose|k: int| 0 <= k < i && data@.take(i as int)[k].id == id;
                        assert(data@[k].id == data@[i as int].id);
                    }
                }
                return Err(BookmarkError::RepeatedId(id));
            }
            proof {
                let t = data@.take(i + 1);
                let t0 = data@.take(i as int);
                assert forall|a: int, b: int| 0 <= a < b < i + 1 implies #[trigger] t[a].id
                    != #[trigger] t[b].id by {
                    if b == i {
                        assert(t0[a].id == data@[a].id);
                    } else {
                        assert(t0[a].id != t0[b].id);
                    }
                }
                assert(id_set(t) =~= id_set(t0).insert(id)) by {
                    assert(t[i as int].id == id);
                    assert forall|x: Id| id_set(t0).contains(x) implies id_set(
                        t,
                    ).contains(x) by {
                        let k = choose|k: int| 0 <= k < i && t0[k].id == x;
                        assert(t[k].id == x);
                    }
                    assert forall|x: Id| id_set(t).contains(x) implies (id_set(
                        t0,
                    ).contains(x) || x == id) by {
                        let k = choose|k: int| 0 <= k < i + 1 && t[k].id == x;
                        if k < i {
                            assert(t0[k].id == x);
                        }
                    }
                }
            }
            used_ids.insert(id);
            i = i + 1;
        }
        proof {
            assert(data@.take(i as int) =~= data@);
        }
        Ok(BookmarkManager { data, modified: false, used_ids })
    }

    /// The id of the first bookmark whose URL is exactly `url`.
    fn find_url(&self, url: &String) -> (r: Option<Id>)
        ensures
            r == first_with_url(self.records(), url@),
    {
        let mut i: usize = 0;
        proof {
            assert(self.data@.subrange(0, self.data@.len() as int) =~= self.data@);
        }
        while i < self.data.len()
            invariant
                i <= self.data@.len(),
                first_with_url(self.data@, url@) == first_with_url(
                    self.data@.subrange(i as int, self.data@.len() as int),
                    url@,
                ),
            decreases self.data@.len() - i,
        {
            let ghost rest = self.data@.subrange(i as int, self.data@.len() as int);
            proof {
                assert(rest[0] == self.data@[i as int]);
                assert(rest.drop_first() =~= self.data@.subrange(i + 1, self.data@.len() as int));
            }
            if self.data[i].url == *url {
                return Some(self.data[i].id);
            }
            i = i + 1;
        }
        None
    }

    /// The bookmark that `url` repeats: one with that URL, else one with its trailing-slash form.
    pub fn already_has_url(&self, url: &str) -> (r: Option<Id>)
        ensures
            r == url_conflict(self.records(), url@),
    {
        let exact = url.to_owned();
        match self.find_url(&exact) {
            Some(id) => Some(id),
            None => {
                let other = toggle_trailing_slash(url);
                self.find_url(&other)
            },
        }
    }

    /// Appends a bookmark under the lowest free id, unless its URL is already saved.
    pub fn add_bookmark(&mut self, name: String, url: String, tags: Vec<String>) -> (r: Result<
        (),
        BookmarkError,
    >)
        requires
            old(self).wf(),
            old(self).records().len() <= ID_MAX,
        ensures
            final(self).wf(),
            match url_conflict(old(self).records(), url@) {
                Some(id) => r == Err::<(), BookmarkError>(BookmarkError::RepeatedUrl(id)) && *final(self) == *old(self),
                None => {
                    &&& r is Ok
                    &&& final(self).modified()
                    &&& final(self).records() == old(self).records().push(
                        (Bookmark {
                            id: final(self).records().last().id,
                            name,
                            url,
                            tags,
                            archived: false,
                        }),
                    )
                    &&& is_lowest_free(id_set(old(self).records()), 0, final(self).records().last().id)
                },
            },
    {
        if let Some(id) = self.already_has_url(url.as_str()) {
            return Err(BookmarkError::RepeatedUrl(id));
        }
        proof {
            lemma_free_exists(self.used_ids@);
        }
        let free_id = lowest_free(&self.used_ids);
        let ghost old_data = self.data@;
        self.data.push(Bookmark { id: free_id, name, url, tags, archived: false });
        self.used_ids.insert(free_id);
        self.modified = true;
        proof {
            let s = self.data@;
            assert(s[old_data.len() as int].id == free_id);
            assert forall|x: Id| id_set(old_data).contains(x) implies #[trigger] id_set(s).contains(
                x,
            ) by {
                let k = choose|k: int| 0 <= k < old_data.len() && old_data[k].id == x;
                assert(s[k].id == x);
            }
            assert forall|x: Id| #[trigger] id_set(s).contains(x) implies id_set(old_data).contains(x)
                || x == free_id by {
                let k = choose|k: int| 0 <= k < s.len() && s[k].id == x;
                if k < old_data.len() {
                    assert(old_data[k].id == x);
                }
            }
            assert(id_set(s) =~= id_set(old_data).insert(free_id));
            assert forall|a: int, b: int| 0 <= a < b < s.len() implies #[trigger] s[a].id
                != #[trigger] s[b].id by {
                if b == old_data.len() {
                    assert(old_data[a].id == s[a].id);
                    assert(id_set(old_data).contains(s[a].id));
                } else {
                    assert(old_data[a].id != old_data[b].id);
                }
            }
        }
        Ok(())
    }

    /// Appends a bookmark for `url` under a fetched title, trimmed, with no tags; refused like
    /// `add_bookmark` when the URL is already saved.
    pub fn add_bookmark_from_url(&mut self, url: String, title: &str) -> (r: Result<
        (),
        BookmarkError,
    >)
        requires
            old(self).wf(),
            old(self).records().len() <= ID_MAX,
        ensures
            final(self).wf(),
            match url_conflict(old(self).records(), url@) {
                Some(id) => r == Err::<(), BookmarkError>(BookmarkError::RepeatedUrl(id)) && *final(self) == *old(self),
                None => {
                    &&& r is Ok
                    &&& final(self).modified()
                    &&& final(self).records().len() == old(self).records().len() + 1
                    &&& final(self).records().drop_last() == old(self).records()
                    &&& final(self).records().last().name@ == trimmed(title@)
                    &&& final(self).records().last().url == url
                    &&& final(self).records().last().tags@.len() == 0
                    &&& !final(self).records().last().archived
                    &&& is_lowest_free(id_set(old(self).records()), 0, final(self).records().last().id)
                },
            },
    {
        let name = trim_text(title);
        let r = self.add_bookmark(name, url, Vec::new());
        proof {
            if r is Ok {
                assert(self.data@.drop_last() =~= old(self).data@);
            }
        }
        r
    }

    /// Hands the bookmarks to `write` if a change is pending; `Ok(true)` when it wrote.
    pub fn save_if_modified<E, F: FnOnce(&Vec<Bookmark>) -> Result<(), E>>(&mut self, write: F) -> (r:
        Result<bool, E>)
        requires
            old(self).wf(),
            old(self).modified() ==> call_requires(write, (&old(self).stored(),)),
        ensures
            final(self).wf(),
            final(self).records() == old(self).records(),
            save_step(old(self).modified(), r, final(self).modified()),
            old(self).modified() ==> match r {
                Ok(_) => call_ensures(write, (&old(self).stored(),), Ok::<(), E>(())),
                Err(e) => call_ensures(write, (&old(self).stored(),), Err::<(), E>(e)),
            },
    {
        if !self.modified {
            return Ok(false);
        }
        let res = write(&self.data);
        proof {
            assert(call_ensures(write, (&old(self).stored(),), res));
        }
        match res {
            Ok(u) => {
                proof {
                    let unit: () = u;
                    assert(unit == ());
                    assert(res == Ok::<(), E>(()));
                }
                self.modified = false;
                Ok(true)
            },
            Err(e) => Err(e),
        }
    }

    /// The index of the bookmark with `id`.
    fn position_of(&self, id: Id) -> (r: Option<usize>)
        ensures
            match r {
                Some(p) => p < self.records().len() && self.records()[p as int].id == id,
                None => !id_set(self.records()).contains(id),
            },
    {
        let mut i: usize = 0;
        while i < self.data.len()
            invariant
                i <= self.data@.len(),
                forall|a: int| 0 <= a < i ==> (#[trigger] self.data@[a]).id != id,
            decreases self.data@.len() - i,
        {
            if self.data[i].id == id {
                return Some(i);
            }
            i = i + 1;
        }
        proof {
            if id_set(self.data@).contains(id) {
                let k = choose|k: int| 0 <= k < self.data@.len() && self.data@[k].id == id;
                assert(self.data@[k].id != id);
            }
        }
        None
    }

    /// The bookmark with `id`.
    pub fn find(&self, id: Id) -> (r: Option<&Bookmark>)
        ensures
            match r {
                Some(b) => exists|p: int|
                    0 <= p < self.records().len() && self.records()[p] == *b && b.id == id,
                None => !id_set(self.records()).contains(id),
            },
    {
        match self.position_of(id) {
            Some(p) => Some(&self.data[p]),
            None => None,
        }
    }

    /// Marks the bookmark with `id` as archived; false when there is none.
    pub fn archive(&mut self, id: Id) -> (r: bool)
        requires
            old(self).wf(),
        ensures
            final(self).wf(),
            r == id_set(old(self).records()).contains(id),
            !r ==> *final(self) == *old(self),
            r ==> final(self).modified() && exists|p: int|
                0 <= p < old(self).records().len() && old(self).records()[p].id == id
                    && final(self).records() == old(self).records().update(
                    p,
                    (Bookmark { archived: true, ..old(self).records()[p] }),
                ),
    {
        match self.position_of(id) {
            None => false,
            Some(p) => {
                self.data[p].archived = true;
                self.modified = true;
                proof {
                    let a = old(self).data@;
                    let b = self.data@;
                    assert(b =~= a.update(p as int, Bookmark { archived: true, ..a[p as int] }));
                    assert forall|x: Id| id_set(b).contains(x) <==> id_set(a).contains(x) by {
                        if id_set(a).contains(x) {
                            let k = choose|k: int| 0 <= k < a.len() && a[k].id == x;
                            assert(b[k].id == x);
                        }
                        if id_set(b).contains(x) {
                            let k = choose|k: int| 0 <= k < b.len() && b[k].id == x;
                            assert(a[k].id == x);
                        }
                    }
                    assert(id_set(b) =~= id_set(a));
                    assert forall|i: int, j: int| 0 <= i < j < b.len() implies #[trigger] b[i].id
                        != #[trigger] b[j].id by {
                        assert(a[i].id != a[j].id);
                    }
                }
                true
            },
        }
    }

    /// Removes the bookmark with `id`, moving the last bookmark into its place, and frees the
    /// id; false when there is none.
    pub fn remove_bookmark(&mut self, id: Id) -> (r: bool)
        requires
            old(self).wf(),
        ensures
            final(self).wf(),
            r == id_set(old(self).records()).contains(id),
            !r ==> *final(self) == *old(self),
            r ==> final(self).modified() && id_set(final(self).records()) == id_set(
                old(self).records(),
            ).remove(id) && exists|p: int|
                0 <= p < old(self).records().len() && old(self).records()[p].id == id
                    && final(self).records() == old(self).records().update(
                    p,
                    old(self).records().last(),
                ).drop_last(),
    {
        match self.position_of(id) {
            None => false,
            Some(p) => {
                let ghost a = self.data@;
                self.data.swap_remove(p);
                self.used_ids.remove(&id);
                self.modified = true;
                proof {
                    let b = self.data@;
                    let n = a.len() - 1;
                    assert forall|x: Id| id_set(b).contains(x) <==> id_set(a).remove(id).contains(
                        x,
                    ) by {
                        if id_set(b).contains(x) {
                            let k = choose|k: int| 0 <= k < b.len() && b[k].id == x;
                            if k == p {
                                assert(a[n].id == x);
                                assert(a[p as int].id != a[n].id || p == n);
                            } else {
                                assert(a[k].id == x);
                                assert(a[p as int].id != a[k].id);
                            }
                        }
                        if id_set(a).remove(id).contains(x) {
                            let k = choose|k: int| 0 <= k < a.len() && a[k].id == x;
                            assert(k != p);
                            if k == n {
                                assert(b[p as int].id == x);
                            } else {
                                assert(b[k].id == x);
                            }
                        }
                    }
                    assert(id_set(b) =~= id_set(a).remove(id));
                    assert forall|i: int, j: int| 0 <= i < j < b.len() implies #[trigger] b[i].id
                        != #[trigger] b[j].id by {
                        let ii = if i == p { n } else { i };
                        let jj = if j == p { n } else { j };
                        assert(b[i] == a[ii] && b[j] == a[jj]);
                        if ii < jj {
                            assert(a[ii].id != a[jj].id);
                        } else {
                            assert(a[jj].id != a[ii].id);
                        }
                    }
                }
                true
            },
        }
    }

    /// The ids of the bookmarks that are not archived, in order.
    pub fn unarchived_ids(&self) -> (r: Vec<Id>)
        ensures
            r@ == self.records().filter(|b: Bookmark| !b.archived).map_values(|b: Bookmark| b.id),
    {
        let mut r: Vec<Id> = Vec::new();
        let mut i: usize = 0;
        while i < self.data.len()
            invariant
                i <= self.data@.len(),
                r@ == self.data@.take(i as int).filter(|b: Bookmark| !b.archived).map_values(
                    |b: Bookmark| b.id,
                ),
            decreases self.data@.len() - i,
        {
            proof {
                let t = self.data@.take(i + 1);
                assert(t.drop_last() =~= self.data@.take(i as int));
                reveal(Seq::filter);
            }
            if !self.data[i].archived {
                r.push(self.data[i].id);
            }
            proof {
                let f = self.data@.take(i + 1).filter(|b: Bookmark| !b.archived);
                let f0 = self.data@.take(i as int).filter(|b: Bookmark| !b.archived);
                if !self.data@[i as int].archived {
                    assert(f =~= f0.push(self.data@[i as int]));
                } else {
                    assert(f =~= f0);
                }
                assert(r@ =~= f.map_values(|b: Bookmark| b.id));
            }
            i = i + 1;
        }
        proof {
            assert(self.data@.take(i as int) =~= self.data@);
        }
        r
    }

    /// In a well-formed store no two bookmarks share an id.
    pub proof fn lemma_ids_unique(&self)
        requires
            self.wf(),
        ensures
            ids_unique(self.records()),
    {
    }

    /// The bookmarks, in order.
    pub fn data(&self) -> (r: &Vec<Bookmark>)
        ensures
            r@ == self.records(),
    {
        &self.data
    }

    /// Whether a change was made since the list was loaded or last written.
    pub fn is_modified(&self) -> (r: bool)
        ensures
            r == self.modified(),
    {
        self.modified
    }
}

} // verus!
