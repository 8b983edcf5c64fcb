//! The sorted, duplicate-free catalog and its maintenance operations.
//!
//! A catalog is an ordered sequence of entries, strictly increasing by
//! title under the lexicographic order of [`crate::order`]. `locate`
//! decides whether a title is already present and, if not, where it must
//! be inserted; `insert_new` performs the insertion; `merge` folds a batch
//! of discovered entries into the catalog one at a time.

use vstd::prelude::*;

use crate::order::TitleOrder;
use crate::order::compare_titles;
use crate::order::lemma_lex_lt_asymmetric;
use crate::order::lemma_lex_lt_irrefl;
use crate::order::lemma_lex_lt_total;
use crate::order::lemma_lex_lt_trans;
use crate::order::lex_lt;

verus! {

/// One cataloged item: its title (the sort key), the path it was
/// discovered at, and the path of its derived cover artifact.
pub struct Entry {
    pub title: String,
    pub source_location: String,
    pub cover_location: String,
}

/// The mathematical value of an [`Entry`]: its three strings as
/// character sequences.
pub ghost struct EntryView {
    pub title: Seq<char>,
    pub source_location: Seq<char>,
    pub cover_location: Seq<char>,
}

impl View for Entry {
    type V = EntryView;

    open spec fn view(&self) -> EntryView {
        EntryView {
            title: self.title@,
            source_location: self.source_location@,
            cover_location: self.cover_location@,
        }
    }
}

impl Entry {
    /// An independent copy of this entry with the same three strings.
    pub fn duplicate(&self) -> (r: Entry)
        ensures
            r@ == self@,
    {
        Entry {
            title: self.title.clone(),
            source_location: self.source_location.clone(),
            cover_location: self.cover_location.clone(),
        }
    }
}

/// The catalog invariant: entries strictly increase by title, so no two
/// entries share a title.
pub open spec fn sorted_strict(s: Seq<EntryView>) -> bool {
    forall|i: int, j: int| 0 <= i < j < s.len() ==> lex_lt(s[i].title, s[j].title)
}

/// Some entry of `s` carries the title `t`.
pub open spec fn has_title(s: Seq<EntryView>, t: Seq<char>) -> bool {
    exists|k: int| 0 <= k < s.len() && s[k].title == t
}

/// A strictly sorted catalog never holds the same title twice.
pub proof fn lemma_sorted_no_duplicate_titles(s: Seq<EntryView>)
    requires
        sorted_strict(s),
    ensures
        forall|i: int, j: int|
            0 <= i < s.len() && 0 <= j < s.len() && i != j ==> s[i].title != s[j].title,
{
    assert forall|i: int, j: int|
        0 <= i < s.len() && 0 <= j < s.len() && i != j implies s[i].title != s[j].title by {
        if i < j {
            lemma_lex_lt_asymmetric(s[i].title, s[j].title);
        } else {
            lemma_lex_lt_asymmetric(s[j].title, s[i].title);
        }
    }
}

/// Where a new title must go: everything before `i` precedes it and
/// everything from `i` on follows it.
pub open spec fn insertion_point(s: Seq<EntryView>, t: Seq<char>, i: int) -> bool {
    &&& 0 <= i <= s.len()
    &&& forall|k: int| 0 <= k < i ==> lex_lt(s[k].title, t)
    &&& forall|k: int| i <= k < s.len() ==> lex_lt(t, s[k].title)
}

/// A title has at most one insertion point: the position `locate`
/// answers is fully determined by the catalog and the title.
pub proof fn lemma_insertion_point_unique(s: Seq<EntryView>, t: Seq<char>, i: int, j: int)
    requires
        insertion_point(s, t, i),
        insertion_point(s, t, j),
    ensures
        i == j,
{
    if i < j {
        lemma_lex_lt_asymmetric(t, s[i].title);
    } else if j < i {
        lemma_lex_lt_asymmetric(t, s[j].title);
    }
}

/// What `locate` answers: the title is already cataloged, or it belongs
/// at the given position.
#[derive(PartialEq, Eq, Structural, Clone, Copy, Debug)]
pub enum InsertionOutcome {
    AlreadyPresent,
    InsertAt(usize),
}

/// Inserting at an insertion point keeps the catalog strictly sorted —
/// and therefore duplicate-free.
pub proof fn lemma_insert_at_point_preserves_invariant(s: Seq<EntryView>, e: EntryView, i: int)
    requires
        sorted_strict(s),
        insertion_point(s, e.title, i),
    ensures
        sorted_strict(s.insert(i, e)),
{
    let r = s.insert(i, e);
    assert forall|p: int, q: int| 0 <= p < q < r.len() implies lex_lt(r[p].title, r[q].title) by {
        if p == i {
            assert(r[q] == s[q - 1]);
        } else if q == i {
            assert(r[p] == s[p]);
        } else if p < i && q > i {
            assert(r[p] == s[p]);
            assert(r[q] == s[q - 1]);
            lemma_lex_lt_trans(s[p].title, e.title, s[q - 1].title);
        } else if q < i {
            assert(r[p] == s[p]);
            assert(r[q] == s[q]);
        } else {
            assert(r[p] == s[p - 1]);
            assert(r[q] == s[q - 1]);
        }
    }
}

/// The new catalog after one discovery: unchanged if the title is already
/// present, else the entry placed at its unique sorted position.
pub open spec fn insert_sorted(s: Seq<EntryView>, e: EntryView) -> Seq<EntryView>
    decreases s.len(),
{
    if s.len() == 0 {
        seq![e]
    } else if e.title == s[0].title {
        s
    } else if lex_lt(e.title, s[0].title) {
        seq![e] + s
    } else {
        seq![s[0]] + insert_sorted(s.subrange(1, s.len() as int), e)
    }
}

/// What one insertion does to a strictly sorted catalog: the invariant is
/// kept, the cataloged titles grow by exactly the new title, every entry
/// of the result comes from the catalog or is the new entry, and a title
/// already present leaves the catalog untouched.
pub proof fn lemma_insert_sorted_props(s: Seq<EntryView>, e: EntryView)
    requires
        sorted_strict(s),
    ensures
        sorted_strict(insert_sorted(s, e)),
        forall|x: Seq<char>|
            #[trigger] has_title(insert_sorted(s, e), x) <==> has_title(s, x) || x == e.title,
        has_title(s, e.title) ==> insert_sorted(s, e) == s,
        !has_title(s, e.title) ==> insert_sorted(s, e).len() == s.len() + 1,
    decreases s.len(),
{
    let r = insert_sorted(s, e);
    if s.len() == 0 {
        assert forall|x: Seq<char>| #[trigger] has_title(r, x) implies has_title(s, x) || x
            == e.title by {
            let k = choose|k: int| 0 <= k < r.len() && r[k].title == x;
            assert(r[k] == e);
        }
        assert(has_title(r, e.title)) by {
            assert(r[0].title == e.title);
        }
    } else if e.title == s[0].title {
        assert(has_title(s, e.title)) by {
            assert(s[0].title == e.title);
        }
    } else if lex_lt(e.title, s[0].title) {
        // every old entry's title strictly follows the new one
        assert forall|k: int| 0 <= k < s.len() implies lex_lt(e.title, s[k].title) by {
            if k > 0 {
                lemma_lex_lt_trans(e.title, s[0].title, s[k].title);
            }
        }
        assert(insertion_point(s, e.title, 0));
        lemma_insert_at_point_preserves_invariant(s, e, 0);
        assert(r =~= s.insert(0, e));
        assert forall|x: Seq<char>| #[trigger] has_title(r, x) implies has_title(s, x) || x
            == e.title by {
            let k = choose|k: int| 0 <= k < r.len() && r[k].title == x;
            if k > 0 {
                assert(s[k - 1].title == x);
            }
        }
        assert forall|x: Seq<char>| has_title(s, x) || x == e.title implies #[trigger] has_title(
            r,
            x,
        ) by {
            if has_title(s, x) {
                let k = choose|k: int| 0 <= k < s.len() && s[k].title == x;
                assert(r[k + 1].title == x);
            } else {
                assert(r[0].title == x);
            }
        }
        if has_title(s, e.title) {
            let k = choose|k: int| 0 <= k < s.len() && s[k].title == e.title;
            lemma_lex_lt_asymmetric(e.title, s[k].title);
        }
    } else {
        let s1 = s.subrange(1, s.len() as int);
        lemma_lex_lt_total(e.title, s[0].title);
        assert(lex_lt(s[0].title, e.title));
        lemma_insert_sorted_props(s1, e);
        let r1 = insert_sorted(s1, e);
        assert(r =~= seq![s[0]] + r1);
        // the head still precedes everything behind it
        assert forall|k: int| 0 <= k < r1.len() implies lex_lt(s[0].title, r1[k].title) by {
            assert(has_title(r1, r1[k].title)) by {
                assert(r1[k].title == r1[k].title);
            }
            if has_title(s1, r1[k].title) {
                let j = choose|j: int| 0 <= j < s1.len() && s1[j].title == r1[k].title;
                assert(s1[j] == s[j + 1]);
            }
        }
        assert forall|p: int, q: int| 0 <= p < q < r.len() implies lex_lt(
            r[p].title,
            r[q].title,
        ) by {
            if p == 0 {
                assert(r[q] == r1[q - 1]);
            } else {
                assert(r[p] == r1[p - 1]);
                assert(r[q] == r1[q - 1]);
            }
        }
        assert forall|x: Seq<char>| #[trigger] has_title(r, x) implies has_title(s, x) || x
            == e.title by {
            let k = choose|k: int| 0 <= k < r.len() && r[k].title == x;
            if k == 0 {
                assert(s[0].title == x);
            } else {
                assert(r1[k - 1].title == x);
                assert(has_title(r1, x));
                if has_title(s1, x) {
                    let j = choose|j: int| 0 <= j < s1.len() && s1[j].title == x;
                    assert(s[j + 1].title == x);
                }
            }
        }
        assert forall|x: Seq<char>| has_title(s, x) || x == e.title implies #[trigger] has_title(
            r,
            x,
        ) by {
            if has_title(s, x) {
                let k = choose|k: int| 0 <= k < s.len() && s[k].title == x;
                if k == 0 {
                    assert(r[0].title == x);
                } else {
                    assert(s1[k - 1].title == x);
                    assert(has_title(r1, x));
                    let j = choose|j: int| 0 <= j < r1.len() && r1[j].title == x;
                    assert(r[j + 1].title == x);
                }
            } else {
                assert(has_title(r1, x));
                let j = choose|j: int| 0 <= j < r1.len() && r1[j].title == x;
                assert(r[j + 1].title == x);
            }
        }
        if has_title(s, e.title) {
            let k = choose|k: int| 0 <= k < s.len() && s[k].title == e.title;
            assert(k != 0);
            assert(s1[k - 1].title == e.title);
            assert(insert_sorted(s1, e) == s1);
            assert(r =~= s);
        }
        if !has_title(s, e.title) {
            if has_title(s1, e.title) {
                let k = choose|k: int| 0 <= k < s1.len() && s1[k].title == e.title;
                assert(s[k + 1].title == e.title);
            }
        }
    }
}

/// Inserting at an insertion point lands exactly on `insert_sorted`.
pub proof fn lemma_insert_at_point_is_insert_sorted(s: Seq<EntryView>, e: EntryView, i: int)
    requires
        sorted_strict(s),
        insertion_point(s, e.title, i),
    ensures
        insert_sorted(s, e) == s.insert(i, e),
    decreases s.len(),
{
    if s.len() == 0 {
        assert(insert_sorted(s, e) =~= s.insert(0, e));
    } else if e.title == s[0].title {
        if i == 0 {
            lemma_lex_lt_irrefl(e.title);
        } else {
            lemma_lex_lt_irrefl(s[0].title);
        }
    } else if lex_lt(e.title, s[0].title) {
        if i > 0 {
            lemma_lex_lt_asymmetric(e.title, s[0].title);
        }
        assert(insert_sorted(s, e) =~= s.insert(0, e));
    } else {
        lemma_lex_lt_total(e.title, s[0].title);
        if i == 0 {
            lemma_lex_lt_asymmetric(s[0].title, e.title);
        }
        let s1 = s.subrange(1, s.len() as int);
        assert(insertion_point(s1, e.title, i - 1)) by {
            assert forall|k: int| 0 <= k < i - 1 implies lex_lt(s1[k].title, e.title) by {
                assert(s1[k] == s[k + 1]);
            }
            assert forall|k: int| i - 1 <= k < s1.len() implies lex_lt(e.title, s1[k].title) by {
                assert(s1[k] == s[k + 1]);
            }
        }
        lemma_insert_at_point_is_insert_sorted(s1, e, i - 1);
        assert(insert_sorted(s, e) =~= s.insert(i, e));
    }
}

/// The catalog after a whole batch of discoveries has been folded in,
/// one insertion at a time.
pub open spec fn merge_seq(c: Seq<EntryView>, items: Seq<EntryView>) -> Seq<EntryView>
    decreases items.len(),
{
    if items.len() == 0 {
        c
    } else {
        insert_sorted(merge_seq(c, items.drop_last()), items.last())
    }
}

/// Merging keeps the invariant, and the cataloged titles afterwards are
/// exactly the old ones together with the batch's.
pub proof fn lemma_merge_seq_props(c: Seq<EntryView>, items: Seq<EntryView>)
    requires
        sorted_strict(c),
    ensures
        sorted_strict(merge_seq(c, items)),
        forall|x: Seq<char>|
            #[trigger] has_title(merge_seq(c, items), x) <==> has_title(c, x) || (exists|j: int|
                0 <= j < items.len() && items[j].title == x),
    decreases items.len(),
{
    if items.len() > 0 {
        let front = items.drop_last();
        let m1 = merge_seq(c, front);
        lemma_merge_seq_props(c, front);
        lemma_insert_sorted_props(m1, items.last());
        assert forall|x: Seq<char>| #[trigger] has_title(merge_seq(c, items), x) implies has_title(
            c,
            x,
        ) || (exists|j: int| 0 <= j < items.len() && items[j].title == x) by {
            if has_title(m1, x) {
                if !has_title(c, x) {
                    let j = choose|j: int| 0 <= j < front.len() && front[j].title == x;
                    assert(items[j].title == x);
                }
            } else {
                assert(x == items.last().title);
                assert(items[items.len() - 1].title == x);
            }
        }
        assert forall|x: Seq<char>|
            has_title(c, x) || (exists|j: int|
                0 <= j < items.len() && items[j].title == x) implies #[trigger] has_title(
            merge_seq(c, items),
            x,
        ) by {
            if !has_title(c, x) {
                let j = choose|j: int| 0 <= j < items.len() && items[j].title == x;
                if j < items.len() - 1 {
                    assert(front[j].title == x);
                    assert(has_title(m1, x));
                } else {
                    assert(x == items.last().title);
                }
            }
        }
    }
}

/// Merging a batch whose titles are all already cataloged changes nothing.
pub proof fn lemma_merge_seq_all_present_noop(c: Seq<EntryView>, items: Seq<EntryView>)
    requires
        sorted_strict(c),
        forall|j: int| 0 <= j < items.len() ==> has_title(c, #[trigger] items[j].title),
    ensures
        merge_seq(c, items) == c,
    decreases items.len(),
{
    if items.len() > 0 {
        let front = items.drop_last();
        assert forall|j: int| 0 <= j < front.len() implies has_title(
            c,
            #[trigger] front[j].title,
        ) by {
            assert(front[j] == items[j]);
        }
        lemma_merge_seq_all_present_noop(c, front);
        assert(items[items.len() - 1] == items.last());
        lemma_insert_sorted_props(c, items.last());
    }
}

/// Idempotence: folding the same batch in a second time is a no-op,
/// because every one of its titles is already cataloged after the first.
pub proof fn lemma_merge_idempotent(c: Seq<EntryView>, items: Seq<EntryView>)
    requires
        sorted_strict(c),
    ensures
        merge_seq(merge_seq(c, items), items) == merge_seq(c, items),
{
    lemma_merge_seq_props(c, items);
    let m = merge_seq(c, items);
    assert forall|j: int| 0 <= j < items.len() implies has_title(
        m,
        #[trigger] items[j].title,
    ) by {
        assert(0 <= j < items.len() && items[j].title == items[j].title);
    }
    lemma_merge_seq_all_present_noop(m, items);
}

/// The catalog: a vector of entries kept strictly sorted by title.
pub struct Catalog {
    entries: Vec<Entry>,
}

impl View for Catalog {
    type V = Seq<EntryView>;

    closed spec fn view(&self) -> Seq<EntryView> {
        self.entries@.map_values(|e: Entry| e@)
    }
}

impl Catalog {
    /// Well-formedness: the entries strictly increase by title.
    pub open spec fn wf(&self) -> bool {
        sorted_strict(self@)
    }

    /// The empty catalog.
    pub fn new() -> (c: Catalog)
        ensures
            c.wf(),
            c@ == Seq::<EntryView>::empty(),
    {
        let c = Catalog { entries: Vec::new() };
        proof {
            assert(c@ =~= Seq::<EntryView>::empty());
        }
        c
    }

    /// How many entries the catalog holds.
    pub fn len(&self) -> (n: usize)
        ensures
            n == self@.len(),
    {
        self.entries.len()
    }

    /// The entry at position `i`.
    pub fn get(&self, i: usize) -> (e: &Entry)
        requires
            i < self@.len(),
        ensures
            e@ == self@[i as int],
    {
        &self.entries[i]
    }

    /// Decides whether `title` is already cataloged and, if not, where an
    /// entry with that title must be inserted.
    ///
    /// The search is a binary search over the whole catalog under the
    /// total title order. Narrowing it to the contiguous run of entries
    /// sharing the title's leading character would answer the same within
    /// that run, but has no correct position to fall back to when the run
    /// is empty, so the search is not narrowed.
    pub fn locate(&self, title: &str) -> (r: InsertionOutcome)
        requires
            self.wf(),
        ensures
            r == InsertionOutcome::AlreadyPresent <==> has_title(self@, title@),
            r matches InsertionOutcome::InsertAt(i) ==> insertion_point(self@, title@, i as int),
    {
        let ghost s = self@;
        let ghost t = title@;
        let n = self.entries.len();
        let mut low: usize = 0;
        let mut high: usize = n;
        while low < high
            invariant
                low <= high <= n,
                n == s.len(),
                self.wf(),
                s == self@,
                t == title@,
                forall|k: int| 0 <= k < low ==> lex_lt(s[k].title, t),
                forall|k: int| high <= k < s.len() ==> lex_lt(t, s[k].title),
            decreases high - low,
        {
            let mid = low + (high - low) / 2;
            let e = &self.entries[mid];
            proof {
                assert(e@ == s[mid as int]);
            }
            match compare_titles(e.title.as_str(), title) {
                TitleOrder::Same => {
                    proof {
                        assert(s[mid as int].title == t);
                    }
                    return InsertionOutcome::AlreadyPresent;
                },
                TitleOrder::Before => {
                    proof {
                        assert forall|k: int| 0 <= k < mid + 1 implies lex_lt(s[k].title, t) by {
                            if k < mid {
                                lemma_lex_lt_trans(s[k].title, s[mid as int].title, t);
                            }
                        }
                    }
                    low = mid + 1;
                },
                TitleOrder::After => {
                    proof {
                        assert forall|k: int| mid <= k < s.len() implies lex_lt(
                            t,
                            s[k].title,
                        ) by {
                            if k > mid {
                                lemma_lex_lt_trans(t, s[mid as int].title, s[k].title);
                            }
                        }
                    }
                    high = mid;
                },
            }
        }
        proof {
            assert(insertion_point(s, t, low as int));
            assert forall|k: int| 0 <= k < s.len() implies s[k].title != t by {
                if k < low {
                    lemma_lex_lt_asymmetric(s[k].title, t);
                } else {
                    lemma_lex_lt_asymmetric(t, s[k].title);
                }
            }
        }
        InsertionOutcome::InsertAt(low)
    }

    /// One discovery: inserts the entry at its sorted position unless its
    /// title is already cataloged, in which case the catalog is left
    /// untouched and the existing entry wins.
    pub fn insert_new(&mut self, entry: Entry) -> (inserted: bool)
        requires
            old(self).wf(),
        ensures
            final(self).wf(),
            final(self)@ == insert_sorted(old(self)@, entry@),
            inserted == !has_title(old(self)@, entry@.title),
            !inserted ==> final(self)@ == old(self)@,
    {
        proof {
            lemma_insert_sorted_props(old(self)@, entry@);
        }
        match self.locate(entry.title.as_str()) {
            InsertionOutcome::AlreadyPresent => false,
            InsertionOutcome::InsertAt(i) => {
                proof {
                    lemma_insert_at_point_is_insert_sorted(old(self)@, entry@, i as int);
                    assert(i <= self.entries@.len());
                }
                self.entries.insert(i, entry);
                proof {
                    assert(self@ =~= old(self)@.insert(i as int, entry@));
                }
                true
            },
        }
    }

    /// Folds a whole batch of discovered entries into the catalog, one
    /// insertion at a time; duplicates within the batch or against the
    /// catalog are dropped.
    pub fn merge(&mut self, items: &Vec<Entry>)
        requires
            old(self).wf(),
        ensures
            final(self).wf(),
            final(self)@ == merge_seq(old(self)@, items@.map_values(|e: Entry| e@)),
    {
        let ghost c0 = self@;
        let ghost iv = items@.map_values(|e: Entry| e@);
        let n = items.len();
        let mut idx: usize = 0;
        while idx < n
            invariant
                idx <= n,
                n == items@.len(),
                iv == items@.map_values(|e: Entry| e@),
                self.wf(),
                self@ == merge_seq(c0, iv.subrange(0, idx as int)),
            decreases n - idx,
        {
            let e = self.entry_at(items, idx);
            let ghost before = self@;
            let _ = self.insert_new(e);
            proof {
                let pre = iv.subrange(0, idx as int);
                let post = iv.subrange(0, idx as int + 1);
                assert(post.drop_last() =~= pre);
                assert(post.last() == iv[idx as int]);
                assert(self@ == insert_sorted(before, iv[idx as int]));
            }
            idx = idx + 1;
        }
        proof {
            assert(iv.subrange(0, n as int) =~= iv);
        }
    }

    /// A copy of the batch item at `idx` (helper for `merge`).
    fn entry_at(&self, items: &Vec<Entry>, idx: usize) -> (e: Entry)
        requires
            idx < items@.len(),
        ensures
            e@ == items@.map_values(|x: Entry| x@)[idx as int],
    {
        items[idx].duplicate()
    }

    /// Builds a well-formed catalog from an arbitrary batch of entries,
    /// sorting them and dropping duplicate titles.
    pub fn from_entries(items: &Vec<Entry>) -> (c: Catalog)
        ensures
            c.wf(),
            c@ == merge_seq(Seq::<EntryView>::empty(), items@.map_values(|e: Entry| e@)),
    {
        let mut c = Catalog::new();
        c.merge(items);
        c
    }
}

} // verus!
