//! An in-memory model of the acronym table: the persisted entries in
//! insertion order, with store-assigned auto-incremented ids. Each
//! operation carries the contract of the corresponding data-access
//! operation; the laws at the end state the behaviour that several
//! operations guarantee together.

use vstd::prelude::*;
use vstd::pervasive::VecAdditionalExecFns;
use vstd::string::StringSliceAdditionalSpecFns;
use vstd::utf8::encode_utf8;
use crate::acronym::Acronym;
use crate::text::{is_substring, str_contains_term};

verus! {

/// Why a store operation failed: no row carries the requested id, or
/// the store itself could not carry the operation out.
#[derive(Debug, Clone, Copy, PartialEq, Eq, Structural)]
pub enum StoreError {
    NotFound,
    Unavailable,
}

/// The entry's short form or its definition contains the term, on
/// UTF-8 bytes: the two `LIKE '%term%'` tests of the search query,
/// OR-combined.
pub open spec fn entry_matches(a: Acronym, term: Seq<u8>) -> bool {
    ||| is_substring(term, encode_utf8(a.acronym@))
    ||| is_substring(term, encode_utf8(a.definition@))
}

/// The search result over a sequence of entries: exactly the matching
/// ones, in stored order.
pub open spec fn matching_entries(rows: Seq<Acronym>, term: Seq<u8>) -> Seq<Acronym> {
    rows.filter(|a: Acronym| entry_matches(a, term))
}

/// Some entry of `rows` carries the id.
pub open spec fn has_id(rows: Seq<Acronym>, id: int) -> bool {
    exists|i: int| 0 <= i < rows.len() && (#[trigger] rows[i]).id == id
}

/// No two entries carry the same id.
pub open spec fn unique_ids(rows: Seq<Acronym>) -> bool {
    forall|i: int, j: int|
        0 <= i < j < rows.len() ==> (#[trigger] rows[i]).id != (#[trigger] rows[j]).id
}

/// The entries left after deleting an id: all that do not carry it, in
/// their old order.
pub open spec fn without_id(rows: Seq<Acronym>, id: int) -> Seq<Acronym> {
    rows.filter(|a: Acronym| a.id != id)
}

/// The entries after an update with `a`: every entry carrying `a.id` is
/// overwritten by `a`, every other entry is unchanged, in place.
pub open spec fn with_updated(rows: Seq<Acronym>, a: Acronym) -> Seq<Acronym> {
    Seq::new(rows.len(), |i: int| if rows[i].id == a.id { a } else { rows[i] })
}

/// The in-memory acronym table: entries in insertion order, and the id
/// the store will assign next.
pub struct AcronymStore {
    rows: Vec<Acronym>,
    next_id: i32,
}

impl AcronymStore {
    /// The persisted entries, in insertion order.
    pub closed spec fn entries(&self) -> Seq<Acronym> {
        self.rows@
    }

    /// The id the store will assign to the next inserted entry.
    pub closed spec fn fresh_id(&self) -> int {
        self.next_id as int
    }

    /// Well-formed: every id is positive and below the next id to be
    /// assigned, and no two entries share an id.
    pub closed spec fn wf(&self) -> bool {
        &&& 1 <= self.next_id
        &&& forall|i: int|
            0 <= i < self.rows@.len() ==> 1 <= (#[trigger] self.rows@[i]).id < self.next_id
        &&& unique_ids(self.rows@)
    }

    /// An empty store; the first inserted entry will be given id 1.
    pub fn new() -> (s: AcronymStore)
        ensures
            s.wf(),
            s.entries() == Seq::<Acronym>::empty(),
            s.fresh_id() == 1,
    {
        let s = AcronymStore { rows: Vec::new(), next_id: 1 };
        proof {
            assert(s.rows@ =~= Seq::<Acronym>::empty());
        }
        s
    }

    /// Every entry, in insertion order.
    pub fn list(&self) -> (r: Vec<Acronym>)
        ensures
            r@ == self.entries(),
    {
        let mut out: Vec<Acronym> = Vec::new();
        let mut i: usize = 0;
        while i < self.rows.len()
            invariant
                i <= self.rows@.len(),
                out@ == self.rows@.subrange(0, i as int),
            decreases self.rows@.len() - i,
        {
            out.push(self.rows[i].clone());
            proof {
                assert(self.rows@.subrange(0, i as int + 1) =~= self.rows@.subrange(
                    0,
                    i as int,
                ).push(self.rows@[i as int]));
            }
            i = i + 1;
        }
        proof {
            assert(self.rows@.subrange(0, self.rows@.len() as int) =~= self.rows@);
        }
        out
    }

    /// The entry carrying the id, and `NotFound` when no entry does:
    /// a miss is never a silently returned default entry.
    pub fn get_by_id(&self, id: i32) -> (r: Result<Acronym, StoreError>)
        requires
            self.wf(),
        ensures
            r is Ok <==> has_id(self.entries(), id as int),
            match r {
                Ok(a) => a.id == id && self.entries().contains(a),
                Err(e) => e == StoreError::NotFound,
            },
    {
        let mut i: usize = 0;
        while i < self.rows.len()
            invariant
                i <= self.rows@.len(),
                forall|k: int| 0 <= k < i ==> (#[trigger] self.rows@[k]).id != id,
            decreases self.rows@.len() - i,
        {
            if self.rows[i].id == id {
                let a = self.rows[i].clone();
                proof {
                    assert(self.entries()[i as int] == a);
                }
                return Ok(a);
            }
            i = i + 1;
        }
        Err(StoreError::NotFound)
    }

    /// The entries whose short form or definition contains the term, in
    /// stored order. An empty result is a valid result, not an error.
    pub fn search(&self, term: &str) -> (r: Vec<Acronym>)
        ensures
            r@ == matching_entries(self.entries(), term.spec_bytes()),
    {
        let ghost pred = |a: Acronym| entry_matches(a, term.spec_bytes());
        let mut out: Vec<Acronym> = Vec::new();
        let mut i: usize = 0;
        while i < self.rows.len()
            invariant
                i <= self.rows@.len(),
                out@ == self.rows@.subrange(0, i as int).filter(pred),
                pred == (|a: Acronym| entry_matches(a, term.spec_bytes())),
            decreases self.rows@.len() - i,
        {
            let row = &self.rows[i];
            let hit = if str_contains_term(row.acronym.as_str(), term) {
                true
            } else {
                str_contains_term(row.definition.as_str(), term)
            };
            proof {
                assert(hit == pred(self.rows@[i as int]));
                assert(self.rows@.subrange(0, i as int + 1) =~= self.rows@.subrange(
                    0,
                    i as int,
                ).push(self.rows@[i as int]));
                lemma_filter_push(self.rows@.subrange(0, i as int), pred, self.rows@[i as int]);
            }
            if hit {
                out.push(self.rows[i].clone());
            }
            i = i + 1;
        }
        proof {
            assert(self.rows@.subrange(0, self.rows@.len() as int) =~= self.rows@);
        }
        out
    }

    /// Append a new entry; the store assigns the id and returns it, and
    /// the id is fresh: no earlier entry carries it. Fails only when
    /// the id space is exhausted.
    pub fn insert(&mut self, acronym: String, definition: String) -> (r: Result<
        i32,
        StoreError,
    >)
        requires
            old(self).wf(),
        ensures
            final(self).wf(),
            r is Ok <==> old(self).fresh_id() < i32::MAX as int,
            match r {
                Ok(id) => {
                    &&& id as int == old(self).fresh_id()
                    &&& !has_id(old(self).entries(), id as int)
                    &&& final(self).entries() == old(self).entries().push(
                        (Acronym { id, acronym, definition }),
                    )
                    &&& final(self).fresh_id() == old(self).fresh_id() + 1
                },
                Err(e) => {
                    &&& e == StoreError::Unavailable
                    &&& final(self).entries() == old(self).entries()
                    &&& final(self).fresh_id() == old(self).fresh_id()
                },
            },
    {
        if self.next_id == i32::MAX {
            return Err(StoreError::Unavailable);
        }
        let id = self.next_id;
        self.next_id = self.next_id + 1;
        self.rows.push(Acronym { id, acronym, definition });
        Ok(id)
    }

    /// Overwrite the short form and the definition of the entry
    /// carrying `a.id`. A miss is surfaced as `NotFound`, never a
    /// silent success; repeating the call with the same argument leaves
    /// the same entries.
    pub fn update(&mut self, a: &Acronym) -> (r: Result<(), StoreError>)
        requires
            old(self).wf(),
        ensures
            final(self).wf(),
            final(self).fresh_id() == old(self).fresh_id(),
            r is Ok <==> has_id(old(self).entries(), a.id as int),
            match r {
                Ok(_) => final(self).entries() == with_updated(old(self).entries(), *a),
                Err(e) => e == StoreError::NotFound && final(self).entries() == old(
                    self,
                ).entries(),
            },
    {
        let mut i: usize = 0;
        while i < self.rows.len()
            invariant
                old(self).wf(),
                i <= self.rows@.len(),
                *self == *old(self),
                forall|k: int| 0 <= k < i ==> (#[trigger] self.rows@[k]).id != a.id,
            decreases self.rows@.len() - i,
        {
            if self.rows[i].id == a.id {
                proof {
                    let rows0 = self.rows@;
                    assert(unique_ids(rows0));
                    assert forall|k: int|
                        0 <= k < rows0.len() && k != i implies (#[trigger] rows0[k]).id
                        != a.id by {
                        if k < i {
                            assert(rows0[k].id != rows0[i as int].id);
                        } else {
                            assert(rows0[i as int].id != rows0[k].id);
                        }
                    }
                }
                self.rows.set(i, a.clone());
                proof {
                    assert(self.entries() =~= with_updated(old(self).entries(), *a));
                }
                return Ok(());
            }
            i = i + 1;
        }
        Err(StoreError::NotFound)
    }

    /// Remove the entry carrying the id. Deleting an id that no entry
    /// carries is a success that changes nothing: deletion is
    /// idempotent.
    pub fn delete(&mut self, id: i32) -> (r: Result<(), StoreError>)
        requires
            old(self).wf(),
        ensures
            final(self).wf(),
            r is Ok,
            final(self).entries() == without_id(old(self).entries(), id as int),
            final(self).fresh_id() == old(self).fresh_id(),
    {
        let ghost pred = |a: Acronym| a.id != id;
        let mut i: usize = 0;
        while i < self.rows.len()
            invariant
                old(self).wf(),
                i <= self.rows@.len(),
                *self == *old(self),
                forall|k: int| 0 <= k < i ==> (#[trigger] self.rows@[k]).id != id,
            decreases self.rows@.len() - i,
        {
            if self.rows[i].id == id {
                proof {
                    let rows0 = self.rows@;
                    assert(unique_ids(rows0));
                    assert forall|k: int|
                        0 <= k < rows0.len() && k != i implies (#[trigger] rows0[k]).id
                        != id by {
                        if k < i {
                            assert(rows0[k].id != rows0[i as int].id);
                        } else {
                            assert(rows0[i as int].id != rows0[k].id);
                        }
                    }
                    lemma_remove_one_is_filter(rows0, id as int, i as int);
                }
                self.rows.remove(i);
                proof {
                    let rows0 = old(self).rows@;
                    let rows1 = self.rows@;
                    assert(unique_ids(rows0));
                    assert forall|k1: int, k2: int|
                        0 <= k1 < k2 < rows1.len() implies (#[trigger] rows1[k1]).id != (
                    #[trigger] rows1[k2]).id by {
                        let j1: int = if k1 < i { k1 } else { k1 + 1 };
                        let j2: int = if k2 < i { k2 } else { k2 + 1 };
                        assert(rows1[k1] == rows0[j1]);
                        assert(rows1[k2] == rows0[j2]);
                        assert(rows0[j1].id != rows0[j2].id);
                    }
                    assert forall|k: int|
                        0 <= k < rows1.len() implies 1 <= (#[trigger] rows1[k]).id
                        < self.next_id by {
                        let j: int = if k < i { k } else { k + 1 };
                        assert(rows1[k] == rows0[j]);
                    }
                }
                return Ok(());
            }
            i = i + 1;
        }
        proof {
            lemma_filter_all_true(self.rows@, pred);
        }
        Ok(())
    }
}

/// Round trip of insert and get: when the inserted entry's id is
/// fresh, the store holds exactly one entry carrying that id — the
/// inserted one — so a following get-by-id returns the inserted row,
/// its id, short form and definition, exactly.
pub proof fn lemma_insert_then_get(rows: Seq<Acronym>, row: Acronym)
    requires
        !has_id(rows, row.id as int),
    ensures
        has_id(rows.push(row), row.id as int),
        forall|b: Acronym| rows.push(row).contains(b) && b.id == row.id ==> b == row,
{
    assert(rows.push(row)[rows.len() as int] == row);
    assert forall|b: Acronym| rows.push(row).contains(b) && b.id == row.id implies b == row by {
        let i = choose|i: int| 0 <= i < rows.push(row).len() && rows.push(row)[i] == b;
        if i < rows.len() {
            assert(rows[i] == b);
        }
    }
}

/// Growth under insert: an insert keeps every entry where it stands
/// and appends the new one, so a listing taken after `n` successful
/// inserts and no deletes holds at least `n` entries, the inserted
/// ones among them.
pub proof fn lemma_insert_grows(rows: Seq<Acronym>, row: Acronym)
    ensures
        rows.push(row).len() == rows.len() + 1,
        forall|i: int| 0 <= i < rows.len() ==> rows.push(row)[i] == #[trigger] rows[i],
        rows.push(row).contains(row),
{
    assert(rows.push(row)[rows.len() as int] == row);
}

/// Deleted rows never reappear: after a delete no entry carries the
/// deleted id, so a following get-by-id answers `NotFound`.
pub proof fn lemma_delete_then_get(rows: Seq<Acronym>, id: int)
    ensures
        !has_id(without_id(rows, id), id),
{
    let pred = |a: Acronym| a.id != id;
    assert forall|i: int|
        0 <= i < without_id(rows, id).len() implies (#[trigger] without_id(rows, id)[i]).id
        != id by {
        rows.lemma_filter_pred(pred, i);
    }
}

/// Idempotence of delete on an absent id: deleting an id that no
/// entry carries succeeds and leaves the entries unchanged.
pub proof fn lemma_delete_absent(rows: Seq<Acronym>, id: int)
    requires
        !has_id(rows, id),
    ensures
        without_id(rows, id) == rows,
{
    let pred = |a: Acronym| a.id != id;
    assert forall|i: int| 0 <= i < rows.len() implies pred(#[trigger] rows[i]) by {
        if rows[i].id == id {
            assert(has_id(rows, id));
        }
    }
    lemma_filter_all_true(rows, pred);
}

/// Last write wins: after an update overwrites the entry carrying
/// `a.id`, an entry carries that id and every such entry equals `a` in
/// all three fields — no partial update — so a following get-by-id
/// returns `(id, acronym, definition)` exactly.
pub proof fn lemma_update_then_get(rows: Seq<Acronym>, a: Acronym)
    requires
        has_id(rows, a.id as int),
    ensures
        has_id(with_updated(rows, a), a.id as int),
        forall|b: Acronym| with_updated(rows, a).contains(b) && b.id == a.id ==> b == a,
{
    let rows2 = with_updated(rows, a);
    let w = choose|i: int| 0 <= i < rows.len() && (#[trigger] rows[i]).id == a.id;
    assert(rows2[w] == a);
    assert forall|b: Acronym| rows2.contains(b) && b.id == a.id implies b == a by {
        let i = choose|i: int| 0 <= i < rows2.len() && rows2[i] == b;
        assert(rows2[i] == (if rows[i].id == a.id {
            a
        } else {
            rows[i]
        }));
    }
}

/// Search exactness: every returned entry matches the term, and every
/// matching entry is returned; a term that nothing matches yields the
/// empty sequence, not an error.
pub proof fn lemma_search_exact(rows: Seq<Acronym>, term: Seq<u8>)
    ensures
        forall|i: int|
            0 <= i < matching_entries(rows, term).len() ==> entry_matches(
                #[trigger] matching_entries(rows, term)[i],
                term,
            ),
        forall|i: int|
            0 <= i < rows.len() && entry_matches(#[trigger] rows[i], term) ==> matching_entries(
                rows,
                term,
            ).contains(rows[i]),
{
    let pred = |a: Acronym| entry_matches(a, term);
    assert forall|i: int|
        0 <= i < matching_entries(rows, term).len() implies entry_matches(
        #[trigger] matching_entries(rows, term)[i],
        term,
    ) by {
        rows.lemma_filter_pred(pred, i);
    }
    assert forall|i: int|
        0 <= i < rows.len() && entry_matches(#[trigger] rows[i], term) implies matching_entries(
        rows,
        term,
    ).contains(rows[i]) by {
        rows.lemma_filter_contains(pred, i);
    }
}

/// Unique ids: in a well-formed store no two entries share an id, so
/// each successful insert yields an id all its own.
pub proof fn lemma_ids_unique(s: &AcronymStore)
    requires
        s.wf(),
    ensures
        unique_ids(s.entries()),
{
}

/// Filtering a sequence extended by one element keeps the filtered
/// prefix and appends the element exactly when it satisfies the
/// predicate.
proof fn lemma_filter_push<A>(s: Seq<A>, pred: spec_fn(A) -> bool, x: A)
    ensures
        s.push(x).filter(pred) == (if pred(x) {
            s.filter(pred).push(x)
        } else {
            s.filter(pred)
        }),
{
    reveal(Seq::filter);
    assert(s.push(x).drop_last() =~= s);
    assert(s.push(x).last() == x);
}

/// A filter whose predicate holds of every element changes nothing.
proof fn lemma_filter_all_true<A>(s: Seq<A>, pred: spec_fn(A) -> bool)
    requires
        forall|i: int| 0 <= i < s.len() ==> pred(#[trigger] s[i]),
    ensures
        s.filter(pred) == s,
    decreases s.len(),
{
    reveal(Seq::filter);
    if s.len() > 0 {
        lemma_filter_all_true(s.drop_last(), pred);
        assert(s.drop_last().push(s.last()) =~= s);
    }
}

/// When exactly one position fails the id test, filtering out the id is
/// removing that position.
proof fn lemma_remove_one_is_filter(rows: Seq<Acronym>, id: int, i: int)
    requires
        0 <= i < rows.len(),
        rows[i].id == id,
        forall|k: int| 0 <= k < rows.len() && k != i ==> (#[trigger] rows[k]).id != id,
    ensures
        without_id(rows, id) == rows.remove(i),
{
    let pred = |a: Acronym| a.id != id;
    let front = rows.subrange(0, i);
    let hit = rows.subrange(i, i + 1);
    let back = rows.subrange(i + 1, rows.len() as int);
    assert(rows =~= front + hit + back);
    Seq::filter_distributes_over_add(front + hit, back, pred);
    Seq::filter_distributes_over_add(front, hit, pred);
    lemma_filter_all_true(front, pred);
    lemma_filter_all_true(back, pred);
    reveal(Seq::filter);
    assert(hit.len() == 1);
    assert(hit.last() == rows[i]);
    assert(!pred(hit.last()));
    assert(hit.drop_last() =~= Seq::<Acronym>::empty());
    assert(hit.drop_last().filter(pred) =~= Seq::<Acronym>::empty());
    assert(hit.filter(pred) =~= Seq::<Acronym>::empty());
    assert(without_id(front + hit + back, id) =~= front + back);
    assert(rows.remove(i) =~= front + back);
}

} // verus!
