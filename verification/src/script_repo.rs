//! The script repository: the in-memory, tag-filtered view of script
//! metadata, backed by plain rows and an event historian. Mutations update
//! the metadata and emit the matching history events together.
use crate::error::Error;
use crate::historian::{
    is_last_time, rows_wf, Event, EventData, EventRow, EventType, Historian,
};
use crate::script::{ScriptInfo, ScriptTime};
use crate::script_name::{spec_valid, string_into_script_name, ScriptName};
use crate::tag::{Tag, TagSelector, TagSelectorGroup, TagSet};
use vstd::prelude::*;
use vstd::string::*;

verus! {

/// Which entries a lookup may see.
#[derive(Debug, Clone, Copy, PartialEq, Eq, Structural)]
pub enum Visibility {
    /// Only entries that passed the tag filter.
    Normal,
    /// Only entries the tag filter hid.
    Inverse,
    /// Every entry.
    All,
}

/// One stored row of script metadata, as persisted.
#[derive(Debug)]
pub struct ScriptRow {
    pub id: i64,
    /// The display form of the name.
    pub name: String,
    /// The script type key.
    pub category: String,
    /// Comma-separated tag names.
    pub tags: String,
    pub created_time: i64,
    pub write_time: i64,
}

/// The repository: entries with a hidden mark each, the event log, and the
/// next metadata id.
#[derive(Debug)]
pub struct ScriptRepo {
    entries: Vec<ScriptInfo>,
    hidden: Vec<bool>,
    historian: Historian,
    next_script_id: i64,
}

impl ScriptRepo {
    /// The stored entries, in insertion order.
    pub closed spec fn entries(&self) -> Seq<ScriptInfo> {
        self.entries@
    }

    /// The hidden mark of each entry.
    pub closed spec fn hidden_marks(&self) -> Seq<bool> {
        self.hidden@
    }

    /// The attached event log.
    pub closed spec fn hist(&self) -> Historian {
        self.historian
    }

    /// The id the next inserted script will get.
    pub closed spec fn spec_next_script_id(&self) -> i64 {
        self.next_script_id
    }

    /// The repository invariant: one hidden mark per entry; entries well
    /// formed with distinct display names and distinct ids below the next
    /// id; the event log well formed.
    pub open spec fn wf(&self) -> bool {
        &&& 1 <= self.spec_next_script_id()
        &&& self.entries().len() == self.hidden_marks().len()
        &&& forall|i: int| 0 <= i < self.entries().len() ==> (#[trigger] self.entries()[i]).wf()
        &&& forall|i: int, j: int|
            0 <= i < j < self.entries().len() ==> self.entries()[i].name.spec_key()
                != self.entries()[j].name.spec_key()
        &&& forall|i: int|
            0 <= i < self.entries().len() ==> 1 <= (#[trigger] self.entries()[i]).id
                < self.spec_next_script_id()
        &&& forall|i: int, j: int|
            0 <= i < j < self.entries().len() ==> self.entries()[i].id != self.entries()[j].id
        &&& self.hist().wf()
    }

    /// An empty repository.
    pub fn new_empty() -> (r: ScriptRepo)
        ensures
            r.wf(),
            r.entries() == Seq::<ScriptInfo>::empty(),
            r.hist().rows() == Seq::<EventRow>::empty(),
            r.spec_next_script_id() == 1,
    {
        let r = ScriptRepo {
            entries: Vec::new(),
            hidden: Vec::new(),
            historian: Historian::new(),
            next_script_id: 1,
        };
        proof {
            assert(r.entries() =~= Seq::<ScriptInfo>::empty());
        }
        r
    }

    /// How many entries are held.
    pub fn count(&self) -> (r: usize)
        ensures
            r == self.entries().len(),
    {
        self.entries.len()
    }

    /// Read access to an entry.
    pub fn entry_at(&self, k: usize) -> (r: &ScriptInfo)
        requires
            k < self.entries().len(),
        ensures
            *r == self.entries()[k as int],
    {
        &self.entries[k]
    }

    /// Whether the entry is hidden by the tag filter.
    pub fn is_hidden(&self, k: usize) -> (r: bool)
        requires
            self.wf(),
            k < self.entries().len(),
        ensures
            r == self.hidden_marks()[k as int],
    {
        self.hidden[k]
    }

    /// Whether the entry at `k` is admitted under the visibility.
    pub open spec fn spec_visible(&self, k: int, vis: Visibility) -> bool {
        match vis {
            Visibility::Normal => !self.hidden_marks()[k],
            Visibility::Inverse => self.hidden_marks()[k],
            Visibility::All => true,
        }
    }

    /// Look a script up by name under the visibility.
    pub fn get_mut(&self, name: &ScriptName, visibility: Visibility) -> (r: Option<usize>)
        requires
            self.wf(),
            name.wf(),
        ensures
            r matches Some(k) ==> (k as int) < self.entries().len()
                && self.entries()[k as int].name.spec_key() == name.spec_key()
                && self.spec_visible(k as int, visibility),
            r is None ==> forall|i: int|
                0 <= i < self.entries().len() ==> !((#[trigger] self.entries()[i]).name.spec_key()
                    == name.spec_key() && self.spec_visible(i, visibility)),
    {
        let len = self.entries.len();
        let mut i: usize = 0;
        while i < len
            invariant
                self.wf(),
                name.wf(),
                i <= len,
                len == self.entries().len(),
                forall|j: int|
                    0 <= j < i ==> !((#[trigger] self.entries()[j]).name.spec_key()
                        == name.spec_key() && self.spec_visible(j, visibility)),
            decreases len - i,
        {
            if self.entries[i].name.eq_name(name) {
                let admitted = match visibility {
                    Visibility::Normal => !self.hidden[i],
                    Visibility::Inverse => self.hidden[i],
                    Visibility::All => true,
                };
                if admitted {
                    return Some(i);
                }
            }
            i = i + 1;
        }
        None
    }

    /// Insert the default record under the name unless one exists; the new
    /// record gets the next id. Returns the entry's position and whether it
    /// was created.
    pub fn upsert(&mut self, name: &ScriptName, default: ScriptInfo) -> (r: (usize, bool))
        requires
            old(self).wf(),
            name.wf(),
            default.wf(),
            default.name.spec_key() == name.spec_key(),
            old(self).spec_next_script_id() < i64::MAX,
        ensures
            final(self).wf(),
            final(self).hist() == old(self).hist(),
            !r.1 ==> *final(self) == *old(self) && (r.0 as int) < final(self).entries().len()
                && final(self).entries()[r.0 as int].name.spec_key() == name.spec_key(),
            r.1 ==> {
                &&& final(self).entries().len() == old(self).entries().len() + 1
                &&& (r.0 as int) == old(self).entries().len()
                &&& final(self).entries().drop_last() == old(self).entries()
                &&& final(self).entries().last() == (ScriptInfo {
                    id: old(self).spec_next_script_id(),
                    ..default
                })
                &&& final(self).hidden_marks() == old(self).hidden_marks().push(false)
                &&& final(self).spec_next_script_id() == old(self).spec_next_script_id() + 1
                &&& forall|i: int|
                    0 <= i < old(self).entries().len() ==> (#[trigger] old(self).entries()[i]).name.spec_key() != name.spec_key()
            },
    {
        match self.get_mut(name, Visibility::All) {
            Some(k) => (k, false),
            None => {
                let id = self.next_script_id;
                let entry = ScriptInfo { id, ..default };
                self.entries.push(entry);
                self.hidden.push(false);
                self.next_script_id = id + 1;
                proof {
                    assert(final(self).entries().drop_last() =~= old(self).entries());
                    assert(forall|i: int|
                        0 <= i < old(self).entries().len() ==> final(self).entries()[i] == old(self).entries()[i]);
                }
                ((self.entries.len() - 1), true)
            },
        }
    }

    /// Delete the visible entry with the name, from the metadata only: the
    /// history stays, the caller decides whether to cascade.
    pub fn remove(&mut self, name: &ScriptName)
        requires
            old(self).wf(),
            name.wf(),
        ensures
            final(self).wf(),
            final(self).hist() == old(self).hist(),
            final(self).spec_next_script_id() == old(self).spec_next_script_id(),
            forall|i: int|
                0 <= i < final(self).entries().len() ==> !((#[trigger] final(self).entries()[i]).name.spec_key() == name.spec_key() && !final(self).hidden_marks()[i]),
            // an absent name is a no-op; a visible holder is deleted, and
            // every other entry survives in place
            (forall|i: int|
                0 <= i < old(self).entries().len() ==> !((#[trigger] old(
                    self,
                ).entries()[i]).name.spec_key() == name.spec_key() && !old(self).hidden_marks()[i]))
                ==> *final(self) == *old(self),
            (exists|i: int|
                0 <= i < old(self).entries().len() && (#[trigger] old(
                    self,
                ).entries()[i]).name.spec_key() == name.spec_key() && !old(self).hidden_marks()[i])
                ==> exists|k0: int|
                {
                    &&& 0 <= k0 < old(self).entries().len()
                    &&& (#[trigger] old(self).entries()[k0]).name.spec_key() == name.spec_key()
                    &&& !old(self).hidden_marks()[k0]
                    &&& final(self).entries() == old(self).entries().remove(k0)
                    &&& final(self).hidden_marks() == old(self).hidden_marks().remove(k0)
                },
    {
        match self.get_mut(name, Visibility::Normal) {
            None => {},
            Some(k) => {
                let ghost oe = self.entries@;
                let ghost oh = self.hidden@;
                self.entries.remove(k);
                self.hidden.remove(k);
                proof {
                    assert(forall|i: int|
                        0 <= i < k ==> final(self).entries()[i] == oe[i] && final(self).hidden_marks()[i] == oh[i]);
                    assert(forall|i: int|
                        k <= i < final(self).entries().len() ==> final(self).entries()[i] == oe[i
                            + 1] && final(self).hidden_marks()[i] == oh[i + 1]);
                    assert forall|i: int|
                        0 <= i < final(self).entries().len() implies !((#[trigger] final(self).entries()[i]).name.spec_key() == name.spec_key() && !final(self).hidden_marks()[i]) by {
                        if i < k {
                        } else {
                            assert(final(self).entries()[i] == oe[i + 1]);
                        }
                    }
                }
            },
        }
    }

    /// Hide every entry whose tag set fails the selector group; entries
    /// already hidden stay hidden.
    pub fn filter_by_tag(&mut self, filter: &TagSelectorGroup)
        requires
            old(self).wf(),
        ensures
            final(self).wf(),
            final(self).entries() == old(self).entries(),
            final(self).hist() == old(self).hist(),
            final(self).spec_next_script_id() == old(self).spec_next_script_id(),
            final(self).hidden_marks().len() == old(self).hidden_marks().len(),
            forall|i: int|
                0 <= i < old(self).entries().len() ==> #[trigger] final(self).hidden_marks()[i]
                    == (old(self).hidden_marks()[i] || !crate::tag::spec_group_select(
                    filter.selectors@,
                    old(self).entries()[i].tags@,
                )),
    {
        let len = self.entries.len();
        let mut i: usize = 0;
        while i < len
            invariant
                i <= len,
                len == self.entries().len(),
                self.entries() == old(self).entries(),
                self.historian == old(self).historian,
                self.next_script_id == old(self).next_script_id,
                self.hidden_marks().len() == old(self).hidden_marks().len(),
                old(self).wf(),
                forall|j: int|
                    0 <= j < len ==> #[trigger] self.hidden_marks()[j] == (if j < i {
                        old(self).hidden_marks()[j] || !crate::tag::spec_group_select(
                            filter.selectors@,
                            old(self).entries()[j].tags@,
                        )
                    } else {
                        old(self).hidden_marks()[j]
                    }),
            decreases len - i,
        {
            if !self.hidden[i] {
                let pass = filter.select(&self.entries[i].tags);
                if !pass {
                    self.hidden.set(i, true);
                }
            }
            i = i + 1;
        }
    }

    /// The visible entries ordered newest first by `last_time`, ties to the
    /// later entry: every position names a visible entry, positions fall
    /// strictly, and every visible entry appears.
    pub fn sorted_by_recency(&self) -> (r: Vec<usize>)
        requires
            self.wf(),
        ensures
            recency_order(self.entries(), self.hidden_marks(), r@),
    {
        let len = self.entries.len();
        let mut reps: Vec<RecEntry> = Vec::new();
        let mut i: usize = 0;
        while i < len
            invariant
                self.wf(),
                i <= len,
                len == self.entries().len(),
                forall|k: int|
                    0 <= k < reps@.len() ==> 0 <= (#[trigger] reps@[k]).idx < i && !self.hidden_marks()[reps@[k].idx as int]
                        && reps@[k].time == self.entries()[reps@[k].idx as int].spec_last_time(),
                forall|p: int, q: int| 0 <= p < q < reps@.len() ==> reps@[p].idx < reps@[q].idx,
                forall|w: int|
                    0 <= w < i && !self.hidden_marks()[w] ==> exists|k: int|
                        0 <= k < reps@.len() && (#[trigger] reps@[k]).idx == w,
            decreases len - i,
        {
            if !self.hidden[i] {
                let t = self.entries[i].last_time();
                let ghost old_reps = reps@;
                reps.push(RecEntry { idx: i, time: t });
                proof {
                    assert(reps@.last().idx == i);
                    assert(forall|k: int| 0 <= k < old_reps.len() ==> reps@[k] == old_reps[k]);
                    assert forall|w: int|
                        0 <= w < i + 1 && !self.hidden_marks()[w] implies exists|k: int|
                        0 <= k < reps@.len() && (#[trigger] reps@[k]).idx == w by {
                        if w == i {
                            assert(reps@[reps@.len() - 1].idx == w);
                        } else {
                            let k = choose|k: int|
                                0 <= k < old_reps.len() && (#[trigger] old_reps[k]).idx == w;
                            assert(reps@[k].idx == w);
                        }
                    }
                }
            }
            i = i + 1;
        }
        // extract newest first
        let mut work = reps;
        let ghost reps0 = work@;
        let mut out: Vec<usize> = Vec::new();
        let ghost mut outkeys: Seq<RecEntry> = Seq::empty();
        proof {
            broadcast use vstd::seq_lib::group_to_multiset_ensures;

            assert(outkeys.to_multiset().add(work@.to_multiset()) =~= reps0.to_multiset());
        }
        while work.len() > 0
            invariant
                outkeys.to_multiset().add(work@.to_multiset()) =~= reps0.to_multiset(),
                outkeys.len() == out@.len(),
                forall|k: int| 0 <= k < out@.len() ==> #[trigger] outkeys[k].idx == out@[k],
                forall|p: int, q: int|
                    0 <= p < q < work@.len() ==> work@[p].idx != work@[q].idx,
                forall|p: int, q: int|
                    0 <= p < q < outkeys.len() ==> rec_lt(#[trigger] outkeys[q], #[trigger] outkeys[p]),
                forall|k: int|
                    0 <= k < work@.len() && outkeys.len() > 0 ==> rec_lt(
                        #[trigger] work@[k],
                        outkeys.last(),
                    ),
                forall|k: int| 0 <= k < outkeys.len() ==> reps0.contains(#[trigger] outkeys[k]),
            decreases work.len(),
        {
            let wlen = work.len();
            let mut m: usize = 0;
            let mut c: usize = 1;
            while c < wlen
                invariant
                    m < c <= wlen,
                    wlen == work@.len(),
                    forall|p: int, q: int|
                        0 <= p < q < work@.len() ==> work@[p].idx != work@[q].idx,
                    forall|k: int|
                        0 <= k < c && k != m ==> rec_lt(#[trigger] work@[k], work@[m as int]),
                decreases wlen - c,
            {
                let a = &work[c];
                let b = &work[m];
                if a.time > b.time || (a.time == b.time && a.idx > b.idx) {
                    m = c;
                }
                c = c + 1;
            }
            let ghost old_work = work@;
            let ghost old_outkeys = outkeys;
            let item = work.remove(m);
            proof {
                broadcast use vstd::seq_lib::group_to_multiset_ensures;

                assert(item == old_work[m as int]);
                assert(old_work.to_multiset().contains(item));
                assert(reps0.to_multiset().contains(item)) by {
                    assert(reps0.to_multiset().count(item) >= old_work.to_multiset().count(item));
                }
                assert(reps0.contains(item));
            }
            out.push(item.idx);
            proof {
                broadcast use vstd::seq_lib::group_to_multiset_ensures;

                outkeys = outkeys.push(item);
                assert(outkeys.to_multiset() =~= old_outkeys.to_multiset().insert(item));
                assert(work@.to_multiset() =~= old_work.to_multiset().remove(item));
                assert(outkeys.to_multiset().add(work@.to_multiset()) =~= reps0.to_multiset());
                assert(forall|k: int| 0 <= k < old_outkeys.len() ==> outkeys[k] == old_outkeys[k]);
                assert(forall|k: int| 0 <= k < old_outkeys.len() ==> out@[k] == old_outkeys[k].idx);
                assert(outkeys.last() == item);
                assert(forall|k: int| 0 <= k < m ==> work@[k] == old_work[k]);
                assert(forall|k: int|
                    m <= k < work@.len() ==> #[trigger] work@[k] == old_work[k + 1]);
                assert(forall|k: int|
                    0 <= k < work@.len() ==> rec_lt(#[trigger] work@[k], outkeys.last()));
                if old_outkeys.len() > 0 {
                    assert(rec_lt(outkeys.last(), old_outkeys.last()));
                }
            }
        }
        proof {
            broadcast use vstd::seq_lib::group_to_multiset_ensures;

            assert(outkeys.to_multiset() =~= reps0.to_multiset()) by {
                assert(forall|e: RecEntry| work@.to_multiset().count(e) == 0);
            }
            assert forall|k: int| 0 <= k < out@.len() implies 0 <= (#[trigger] out@[k])
                < self.entries().len() && !self.hidden_marks()[out@[k] as int] by {
                assert(outkeys[k].idx == out@[k]);
                assert(reps0.contains(outkeys[k]));
                let l = choose|l: int| 0 <= l < reps0.len() && reps0[l] == outkeys[k];
            }
            assert forall|p: int, q: int| 0 <= p < q < out@.len() implies entry_rec_lt(
                self.entries(),
                out@[q] as int,
                out@[p] as int,
            ) by {
                assert(rec_lt(outkeys[q], outkeys[p]));
                assert(reps0.contains(outkeys[q]));
                assert(reps0.contains(outkeys[p]));
                let lq = choose|l: int| 0 <= l < reps0.len() && reps0[l] == outkeys[q];
                let lp = choose|l: int| 0 <= l < reps0.len() && reps0[l] == outkeys[p];
            }
            assert forall|w: int|
                0 <= w < self.entries().len() && !self.hidden_marks()[w] implies exists|k: int|
                0 <= k < out@.len() && (#[trigger] out@[k]) == w as usize by {
                let l = choose|l: int| 0 <= l < reps0.len() && (#[trigger] reps0[l]).idx == w;
                assert(reps0.to_multiset().contains(reps0[l]));
                assert(outkeys.to_multiset().contains(reps0[l]));
                assert(outkeys.contains(reps0[l]));
                let k = choose|k: int| 0 <= k < outkeys.len() && outkeys[k] == reps0[l];
                assert(out@[k] == w as usize);
            }
        }
        out
    }

    /// The `n`-th most recently active visible script, 1-indexed.
    pub fn latest_mut(&self, n: usize) -> (r: Option<usize>)
        requires
            self.wf(),
            n >= 1,
        ensures
            r matches Some(k) ==> exists|order: Seq<usize>|
                #[trigger] recency_order(self.entries(), self.hidden_marks(), order) && n - 1
                    < order.len() && order[n - 1] == k,
            r is None ==> exists|order: Seq<usize>|
                #[trigger] recency_order(self.entries(), self.hidden_marks(), order)
                    && order.len() < n,
    {
        let sorted = self.sorted_by_recency();
        if n <= sorted.len() {
            Some(sorted[n - 1])
        } else {
            None
        }
    }
}

/// A visible entry's position and its last-active time.
#[derive(Debug)]
pub struct RecEntry {
    pub idx: usize,
    pub time: i64,
}

/// Strict recency order on collected entries: older time first, ties to the
/// lower position.
pub open spec fn rec_lt(a: RecEntry, b: RecEntry) -> bool {
    a.time < b.time || (a.time == b.time && a.idx < b.idx)
}

/// Entry `a` was active strictly before entry `b`, ties to the lower
/// position.
pub open spec fn entry_rec_lt(entries: Seq<ScriptInfo>, a: int, b: int) -> bool {
    entries[a].spec_last_time() < entries[b].spec_last_time() || (entries[a].spec_last_time()
        == entries[b].spec_last_time() && a < b)
}

/// The sequence lists exactly the visible entries, newest first.
pub open spec fn recency_order(
    entries: Seq<ScriptInfo>,
    hidden: Seq<bool>,
    order: Seq<usize>,
) -> bool {
    &&& forall|k: int| 0 <= k < order.len() ==> 0 <= (#[trigger] order[k]) < entries.len() && !hidden[order[k] as int]
    &&& forall|p: int, q: int|
        0 <= p < q < order.len() ==> entry_rec_lt(entries, order[q] as int, order[p] as int)
    &&& forall|w: int|
        0 <= w < entries.len() && !hidden[w] ==> exists|k: int|
            0 <= k < order.len() && (#[trigger] order[k]) == w as usize
}

/// The legal, non-reserved names among the first `p` pieces of the stored
/// tags text.
pub open spec fn spec_piece_tags(text: Seq<char>, p: int) -> Set<Seq<char>> {
    Set::new(
        |x: Seq<char>|
            crate::strutil::spec_split(text, ',').take(p).contains(x) && crate::tag::legal_tag(x)
                && x != "all"@,
    )
}

/// One parsing step extends the gathered tag set by the piece, when the piece
/// is a legal, non-reserved tag.
proof fn lemma_piece_tags_step(text: Seq<char>, p: int, pre: Set<Seq<char>>, post: Set<Seq<char>>)
    requires
        0 <= p < crate::strutil::spec_split(text, ',').len(),
        pre == spec_piece_tags(text, p),
        ({
            let piece = crate::strutil::spec_split(text, ',')[p];
            if crate::tag::legal_tag(piece) && piece != "all"@ {
                post == pre.insert(piece)
            } else {
                post == pre
            }
        }),
    ensures
        post == spec_piece_tags(text, p + 1),
{
    lemma_take_one_more(crate::strutil::spec_split(text, ','), p);
    assert(post =~= spec_piece_tags(text, p + 1));
}

/// Taking one more element adds exactly that element to the members.
proof fn lemma_take_one_more(pieces: Seq<Seq<char>>, p: int)
    requires
        0 <= p < pieces.len(),
    ensures
        forall|x: Seq<char>|
            #![trigger pieces.take(p + 1).contains(x)]
            pieces.take(p + 1).contains(x) <==> (pieces.take(p).contains(x) || x == pieces[p]),
{
    assert forall|x: Seq<char>|
        #![trigger pieces.take(p + 1).contains(x)]
        pieces.take(p + 1).contains(x) <==> (pieces.take(p).contains(x) || x == pieces[p]) by {
        if pieces.take(p + 1).contains(x) {
            let j = choose|j: int| #![trigger pieces.take(p + 1)[j]]
                0 <= j < pieces.take(p + 1).len() && pieces.take(p + 1)[j] == x;
            if j < p {
                assert(pieces.take(p)[j] == x);
            } else {
                assert(pieces.take(p + 1)[p] == pieces[p]);
            }
        }
        if pieces.take(p).contains(x) {
            let j = choose|j: int| #![trigger pieces.take(p)[j]]
                0 <= j < pieces.take(p).len() && pieces.take(p)[j] == x;
            assert(pieces.take(p + 1)[j] == x);
        }
        if x == pieces[p] {
            assert(pieces.take(p + 1)[p] == x);
        }
    }
}

/// The tag set a stored comma-joined tags text denotes: its legal pieces,
/// without the reserved word.
pub open spec fn spec_stored_tags(text: Seq<char>) -> Set<Seq<char>> {
    Set::new(
        |x: Seq<char>|
            crate::strutil::spec_split(text, ',').contains(x) && crate::tag::legal_tag(x) && x
                != "all"@,
    )
}

/// The hydrated cached time: the event time when one exists and does not
/// predate creation, else the creation time.
pub open spec fn spec_hydrate(o: Option<i64>, created: i64) -> i64 {
    match o {
        Some(t) => if t >= created {
            t
        } else {
            created
        },
        None => created,
    }
}

impl ScriptRepo {
    /// The entry's updated record and one appended event, with everything
    /// else unchanged.
    pub open spec fn spec_updated(
        &self,
        older: &ScriptRepo,
        k: int,
        updated: ScriptInfo,
        grown: int,
    ) -> bool {
        &&& self.entries().len() == older.entries().len()
        &&& self.entries() == older.entries().update(k, updated)
        &&& self.hidden_marks() == older.hidden_marks()
        &&& self.spec_next_script_id() == older.spec_next_script_id()
        &&& self.hist().rows().len() == older.hist().rows().len() + grown
        &&& forall|i: int|
            0 <= i < older.hist().rows().len() ==> #[trigger] self.hist().rows()[i]
                == older.hist().rows()[i]
    }

    /// Mark the script read and append the matching `Read` event.
    pub fn read_script(&mut self, k: usize, now: i64, cmd: String) -> (r: i64)
        requires
            old(self).wf(),
            k < old(self).entries().len(),
            old(self).entries()[k as int].created_time.time <= now,
            old(self).hist().spec_next_id() < i64::MAX,
        ensures
            final(self).wf(),
            final(self).spec_updated(
                old(self),
                k as int,
                ScriptInfo {
                    read_time: ScriptTime { time: now, changed: true },
                    ..old(self).entries()[k as int]
                },
                1,
            ),
            final(self).hist().rows().last() == (EventRow {
                id: r,
                script_id: old(self).entries()[k as int].id,
                ty: EventType::Read,
                time: now,
                cmd,
                args: None,
                content: None,
                main_event_id: 0,
                ignored: false,
            }),
            r == old(self).hist().spec_next_id(),
    {
        let sid = self.entries[k].id;
        let info = &mut self.entries[k];
        info.read(now);
        let res = self.historian.record(
            Event { script_id: sid, time: now, cmd, data: EventData::Read },
        );
        let id = match res {
            Ok(id) => id,
            Err(_) => {
                proof {
                    assert(false);
                }
                0
            },
        };
        proof {
            assert(final(self).entries() =~= old(self).entries().update(
                k as int,
                ScriptInfo {
                    read_time: ScriptTime { time: now, changed: true },
                    ..old(self).entries()[k as int]
                },
            ));
            assert(final(self).wf()) by {
                lemma_entry_update_wf(old(self), final(self), k as int);
            }
        }
        id
    }

    /// Mark the script missed and append the matching `Miss` event.
    pub fn miss_script(&mut self, k: usize, now: i64, cmd: String) -> (r: i64)
        requires
            old(self).wf(),
            k < old(self).entries().len(),
            old(self).hist().spec_next_id() < i64::MAX,
        ensures
            final(self).wf(),
            final(self).spec_updated(
                old(self),
                k as int,
                ScriptInfo {
                    miss_time: Some(ScriptTime { time: now, changed: true }),
                    ..old(self).entries()[k as int]
                },
                1,
            ),
            final(self).hist().rows().last() == (EventRow {
                id: r,
                script_id: old(self).entries()[k as int].id,
                ty: EventType::Miss,
                time: now,
                cmd,
                args: None,
                content: None,
                main_event_id: 0,
                ignored: false,
            }),
    {
        let sid = self.entries[k].id;
        let info = &mut self.entries[k];
        info.miss(now);
        let res = self.historian.record(
            Event { script_id: sid, time: now, cmd, data: EventData::Miss },
        );
        let id = match res {
            Ok(id) => id,
            Err(_) => {
                proof {
                    assert(false);
                }
                0
            },
        };
        proof {
            assert(final(self).entries() =~= old(self).entries().update(
                k as int,
                ScriptInfo {
                    miss_time: Some(ScriptTime { time: now, changed: true }),
                    ..old(self).entries()[k as int]
                },
            ));
            assert(final(self).wf()) by {
                lemma_entry_update_wf(old(self), final(self), k as int);
            }
        }
        id
    }

    /// Mark the script written and append the `Read` then `Write` events, in
    /// the fixed flush order.
    pub fn write_script(&mut self, k: usize, now: i64, cmd: String) -> (r: i64)
        requires
            old(self).wf(),
            k < old(self).entries().len(),
            old(self).entries()[k as int].created_time.time <= now,
            old(self).hist().spec_next_id() + 1 < i64::MAX,
        ensures
            final(self).wf(),
            final(self).spec_updated(
                old(self),
                k as int,
                ScriptInfo {
                    read_time: ScriptTime { time: now, changed: true },
                    write_time: ScriptTime { time: now, changed: true },
                    ..old(self).entries()[k as int]
                },
                2,
            ),
            final(self).hist().rows()[final(self).hist().rows().len() - 2].ty == EventType::Read,
            final(self).hist().rows().last().ty == EventType::Write,
            final(self).hist().rows().last().script_id == old(self).entries()[k as int].id,
            final(self).hist().rows().last().time == now,
            final(self).hist().rows()[final(self).hist().rows().len() - 2].time == now,
            final(self).hist().rows()[final(self).hist().rows().len() - 2].script_id == old(
                self,
            ).entries()[k as int].id,
            r == final(self).hist().rows().last().id,
    {
        let sid = self.entries[k].id;
        let info = &mut self.entries[k];
        info.write(now);
        let cmd2 = cmd.clone();
        let res1 = self.historian.record(
            Event { script_id: sid, time: now, cmd, data: EventData::Read },
        );
        let res2 = self.historian.record(
            Event { script_id: sid, time: now, cmd: cmd2, data: EventData::Write },
        );
        let id = match res2 {
            Ok(id) => id,
            Err(_) => {
                proof {
                    assert(false);
                }
                0
            },
        };
        proof {
            if res1 is Err {
                assert(false);
            }
            assert(final(self).entries() =~= old(self).entries().update(
                k as int,
                ScriptInfo {
                    read_time: ScriptTime { time: now, changed: true },
                    write_time: ScriptTime { time: now, changed: true },
                    ..old(self).entries()[k as int]
                },
            ));
            assert(final(self).hist().rows().drop_last().drop_last() =~= old(self).hist().rows());
            assert(forall|i: int|
                0 <= i < old(self).hist().rows().len() ==> #[trigger] final(self).hist().rows()[i]
                    == old(self).hist().rows()[i]);
            assert(final(self).wf()) by {
                lemma_entry_update_wf(old(self), final(self), k as int);
            }
        }
        id
    }

    /// Record an execution: update the entry's execution payload and append
    /// the `Exec` event, whose id is the run id. The stored args are the
    /// JSON encoding of the argument list.
    pub fn exec_script(&mut self, k: usize, content: String, args: &Vec<String>, now: i64, cmd: String) -> (r: i64)
        requires
            old(self).wf(),
            k < old(self).entries().len(),
            old(self).hist().spec_next_id() < i64::MAX,
        ensures
            final(self).wf(),
            final(self).spec_updated(
                old(self),
                k as int,
                ScriptInfo {
                    exec_time: Some(ScriptTime { time: now, changed: true }),
                    exec_content: Some(content),
                    exec_args: final(self).entries()[k as int].exec_args,
                    ..old(self).entries()[k as int]
                },
                1,
            ),
            final(self).entries()[k as int].exec_args matches Some(a) && a@
                == crate::bridge::json_of_args(args.deep_view()),
            final(self).hist().rows().last().ty == EventType::Exec,
            final(self).hist().rows().last().id == r,
            final(self).hist().rows().last().script_id == old(self).entries()[k as int].id,
            final(self).hist().rows().last().time == now,
            final(self).hist().rows().last().args matches Some(a) && a@
                == crate::bridge::json_of_args(args.deep_view()),
            r == old(self).hist().spec_next_id(),
    {
        let sid = self.entries[k].id;
        let args_ser = crate::bridge::args_to_json(args);
        let args_ser2 = args_ser.clone();
        let content2 = content.clone();
        let info = &mut self.entries[k];
        info.exec(content, args_ser, now);
        let res = self.historian.record(
            Event {
                script_id: sid,
                time: now,
                cmd,
                data: EventData::Exec { content: content2, args: args_ser2 },
            },
        );
        let id = match res {
            Ok(id) => id,
            Err(_) => {
                proof {
                    assert(false);
                }
                0
            },
        };
        proof {
            assert(final(self).entries() =~= old(self).entries().update(
                k as int,
                final(self).entries()[k as int],
            ));
            assert(final(self).wf()) by {
                lemma_entry_update_wf(old(self), final(self), k as int);
            }
        }
        id
    }

    /// The owner of the execution row with the given id, if any.
    pub fn exec_owner(&self, run_id: i64) -> (r: Option<i64>)
        requires
            self.wf(),
        ensures
            r matches Some(sid) ==> forall|j: int|
                0 <= j < self.hist().rows().len() && (#[trigger] self.hist().rows()[j]).ty
                    == EventType::Exec && self.hist().rows()[j].id == run_id
                    ==> self.hist().rows()[j].script_id == sid,
            r matches Some(sid) ==> exists|j: int|
                0 <= j < self.hist().rows().len() && (#[trigger] self.hist().rows()[j]).ty
                    == EventType::Exec && self.hist().rows()[j].id == run_id
                    && self.hist().rows()[j].script_id == sid,
            r is None ==> forall|j: int|
                0 <= j < self.hist().rows().len() ==> !((#[trigger] self.hist().rows()[j]).ty
                    == EventType::Exec && self.hist().rows()[j].id == run_id),
    {
        self.historian.exec_owner(run_id)
    }

    /// Record a finished execution: update the entry and append the
    /// `ExecDone` event pointing at the run id — unless that execution is
    /// ignored, in which case nothing is appended and the result is 0.
    /// Fails when the run id names no execution of this script.
    pub fn exec_done_script(&mut self, k: usize, code: i32, run_id: i64, now: i64, cmd: String) -> (r: Result<i64, Error>)
        requires
            old(self).wf(),
            k < old(self).entries().len(),
            old(self).hist().spec_next_id() < i64::MAX,
        ensures
            final(self).wf(),
            r is Err ==> *final(self) == *old(self) && r->Err_0 is Database,
            // failure exactly when the run id names no execution of this script
            r is Err <==> !(exists|j: int|
                0 <= j < old(self).hist().rows().len() && (#[trigger] old(self).hist().rows()[j]).ty
                    == EventType::Exec && old(self).hist().rows()[j].id == run_id && old(
                    self,
                ).hist().rows()[j].script_id == old(self).entries()[k as int].id),
            r matches Ok(id) ==> {
                &&& final(self).spec_updated(
                    old(self),
                    k as int,
                    ScriptInfo {
                        exec_done_time: Some(ScriptTime { time: now, changed: true }),
                        exec_done_code: Some(code),
                        ..old(self).entries()[k as int]
                    },
                    if id == 0 {
                        0int
                    } else {
                        1int
                    },
                )
                &&& (id == 0 ==> exists|j: int|
                    0 <= j < old(self).hist().rows().len() && (#[trigger] old(
                        self,
                    ).hist().rows()[j]).ty == EventType::Exec && old(self).hist().rows()[j].id
                        == run_id && old(self).hist().rows()[j].ignored)
                &&& (id != 0 ==> final(self).hist().rows().last() == (EventRow {
                    id,
                    script_id: old(self).entries()[k as int].id,
                    ty: EventType::ExecDone,
                    time: now,
                    cmd,
                    args: None,
                    content: final(self).hist().rows().last().content,
                    main_event_id: run_id,
                    ignored: false,
                }))
                &&& (id != 0 ==> (final(self).hist().rows().last().content matches Some(c) && c@
                    == crate::historian::spec_code_string(code as int)))
            },
    {
        let sid = self.entries[k].id;
        match self.historian.exec_owner(run_id) {
            None => {
                return Err(Error::Database);
            },
            Some(owner) => {
                if owner != sid {
                    proof {
                        assert forall|j: int|
                            !(0 <= j < old(self).hist().rows().len() && (#[trigger] old(
                                self,
                            ).hist().rows()[j]).ty == EventType::Exec && old(
                                self,
                            ).hist().rows()[j].id == run_id && old(self).hist().rows()[j].script_id
                                == sid) by {
                            if 0 <= j < old(self).hist().rows().len() && old(
                                self,
                            ).hist().rows()[j].ty == EventType::Exec && old(
                                self,
                            ).hist().rows()[j].id == run_id {
                                assert(old(self).hist().rows()[j].script_id == owner);
                            }
                        }
                    }
                    return Err(Error::Database);
                }
            },
        }
        let info = &mut self.entries[k];
        info.exec_done(code, now);
        let res = self.historian.record(
            Event {
                script_id: sid,
                time: now,
                cmd,
                data: EventData::ExecDone { code, main_event_id: run_id },
            },
        );
        let id = match res {
            Ok(id) => id,
            Err(_) => {
                proof {
                    assert(false);
                }
                0
            },
        };
        proof {
            assert(final(self).entries() =~= old(self).entries().update(
                k as int,
                final(self).entries()[k as int],
            ));
            assert(final(self).wf()) by {
                lemma_entry_update_wf(old(self), final(self), k as int);
            }
        }
        Ok(id)
    }

    /// Move a script: change its name, type or tags, mark it written, and
    /// append the `Read` and `Write` events. Renaming onto an existing
    /// script's name fails with `ScriptExist` and changes nothing.
    pub fn mv(&mut self, k: usize, new_name: Option<ScriptName>, ty: Option<String>, tags: Option<TagSelector>, now: i64, cmd: String) -> (r: Result<i64, Error>)
        requires
            old(self).wf(),
            k < old(self).entries().len(),
            old(self).entries()[k as int].created_time.time <= now,
            old(self).hist().spec_next_id() + 1 < i64::MAX,
            new_name matches Some(n) ==> n.wf(),
            tags matches Some(t) ==> t.wf(),
        ensures
            final(self).wf(),
            r is Err ==> *final(self) == *old(self) && r->Err_0 is ScriptExist,
            // failure exactly when renaming onto a different existing entry
            r is Err <==> (new_name matches Some(n) && n.spec_key() != old(self).entries()[
                k as int
            ].name.spec_key() && exists|i: int|
                0 <= i < old(self).entries().len() && (#[trigger] old(
                    self,
                ).entries()[i]).name.spec_key() == n.spec_key()),
            r is Ok ==> {
                &&& final(self).entries().len() == old(self).entries().len()
                &&& final(self).hidden_marks() == old(self).hidden_marks()
                &&& final(self).entries()[k as int].name == (match new_name {
                    Some(n) => n,
                    None => old(self).entries()[k as int].name,
                })
                &&& final(self).entries()[k as int].ty == (match ty {
                    Some(t) => t,
                    None => old(self).entries()[k as int].ty,
                })
                &&& final(self).entries()[k as int].read_time == (ScriptTime {
                    time: now,
                    changed: true,
                })
                &&& final(self).entries()[k as int].write_time == (ScriptTime {
                    time: now,
                    changed: true,
                })
                &&& (tags is None ==> final(self).entries()[k as int].tags@ == old(
                    self,
                ).entries()[k as int].tags@)
                &&& forall|i: int|
                    0 <= i < old(self).entries().len() && i != k as int
                        ==> #[trigger] final(self).entries()[i] == old(self).entries()[i]
            },
    {
        let ghost gnew = new_name;
        if let Some(n) = &new_name {
            if !self.entries[k].name.eq_name(n) {
                match self.get_mut(n, Visibility::All) {
                    Some(_) => {
                        return Err(Error::ScriptExist(n.key()));
                    },
                    None => {
                        proof {
                            assert(forall|i: int|
                                0 <= i < old(self).entries().len() ==> (#[trigger] old(
                                    self,
                                ).entries()[i]).name.spec_key() != gnew->0.spec_key());
                        }
                    },
                }
            } else {
                proof {
                    assert(gnew->0.spec_key() == old(self).entries()[
                        k as int
                    ].name.spec_key());
                }
            }
        }
        let info = &mut self.entries[k];
        if let Some(t) = ty {
            info.ty = t;
        }
        if let Some(n) = new_name {
            info.name = n;
        }
        if let Some(t) = tags {
            info.append_tags(t);
        }
        proof {
            assert(self.entries() =~= old(self).entries().update(
                k as int,
                self.entries()[k as int],
            ));
            assert(self.entries()[k as int].name == (match gnew {
                Some(n) => n,
                None => old(self).entries()[k as int].name,
            }));
            assert(self.entries()[k as int].wf());
            assert forall|i: int, j: int|
                0 <= i < j < self.entries().len() implies self.entries()[i].name.spec_key()
                != self.entries()[j].name.spec_key() by {
                if i != k as int && j != k as int {
                    assert(self.entries()[i] == old(self).entries()[i]);
                    assert(self.entries()[j] == old(self).entries()[j]);
                } else {
                    let other = if i == k as int {
                        j
                    } else {
                        i
                    };
                    assert(self.entries()[other] == old(self).entries()[other]);
                    match gnew {
                        None => {
                            assert(self.entries()[k as int].name == old(self).entries()[
                                k as int
                            ].name);
                        },
                        Some(n) => {
                            if n.spec_key() == old(self).entries()[k as int].name.spec_key() {
                            } else {
                                assert(old(self).entries()[other].name.spec_key()
                                    != n.spec_key());
                            }
                        },
                    }
                }
            }
            assert(self.wf());
        }
        let id = self.write_script(k, now, cmd);

        Ok(id)
    }
}

/// Updating one entry without touching its name or id keeps the repository
/// invariant, as long as the new record stays well formed.
proof fn lemma_entry_update_wf(older: &ScriptRepo, newer: &ScriptRepo, k: int)
    requires
        older.wf(),
        0 <= k < older.entries().len(),
        newer.entries().len() == older.entries().len(),
        forall|i: int|
            0 <= i < older.entries().len() && i != k ==> #[trigger] newer.entries()[i]
                == older.entries()[i],
        newer.entries()[k].name == older.entries()[k].name,
        newer.entries()[k].id == older.entries()[k].id,
        newer.entries()[k].wf(),
        newer.hidden_marks() == older.hidden_marks(),
        newer.spec_next_script_id() == older.spec_next_script_id(),
        newer.hist().wf(),
    ensures
        newer.wf(),
{
    assert forall|i: int, j: int|
        0 <= i < j < newer.entries().len() implies newer.entries()[i].name.spec_key()
        != newer.entries()[j].name.spec_key() by {
        assert(older.entries()[i].name.spec_key() != older.entries()[j].name.spec_key());
    }
}

/// The display key a stored name row denotes.
pub open spec fn spec_row_key(name: Seq<char>) -> Seq<char> {
    match spec_valid(name) {
        Ok(Some(id)) => seq!['.'] + crate::strutil::dec_repr(id as nat),
        _ => name,
    }
}

impl ScriptRepo {
    /// Rebuild a repository from stored metadata rows and the event log:
    /// each script's cached read, exec, exec-done and miss times are
    /// hydrated from the newest matching non-ignored events; a stored read
    /// time older than creation falls back to the creation time. Tag text
    /// that breaks the tag rule, repeats, or is the reserved word is
    /// dropped, as when it was stored by an older tool.
    pub fn open(rows: Vec<ScriptRow>, events: Vec<EventRow>, next_event_id: i64, next_script_id: i64) -> (r: ScriptRepo)
        requires
            rows_wf(events@, next_event_id),
            forall|i: int| 0 <= i < rows@.len() ==> spec_valid((#[trigger] rows@[i]).name@) is Ok,
            forall|i: int, j: int|
                0 <= i < j < rows@.len() ==> spec_row_key(rows@[i].name@) != spec_row_key(
                    rows@[j].name@,
                ),
            forall|i: int|
                0 <= i < rows@.len() ==> 1 <= (#[trigger] rows@[i]).id < next_script_id,
            forall|i: int, j: int| 0 <= i < j < rows@.len() ==> rows@[i].id != rows@[j].id,
            forall|i: int|
                0 <= i < rows@.len() ==> (#[trigger] rows@[i]).created_time
                    <= rows@[i].write_time,
            1 <= next_script_id,
        ensures
            r.wf(),
            r.hist().rows() == events@,
            r.hist().spec_next_id() == next_event_id,
            r.spec_next_script_id() == next_script_id,
            r.entries().len() == rows@.len(),
            forall|i: int| 0 <= i < rows@.len() ==> !(#[trigger] r.hidden_marks()[i]),
            forall|i: int|
                0 <= i < rows@.len() ==> {
                    let e = #[trigger] r.entries()[i];
                    let row = rows@[i];
                    &&& e.id == row.id
                    &&& e.name.spec_key() == spec_row_key(row.name@)
                    &&& e.ty@ == row.category@
                    &&& e.tags@ == spec_stored_tags(row.tags@)
                    &&& e.created_time == (ScriptTime { time: row.created_time, changed: false })
                    &&& e.write_time == (ScriptTime { time: row.write_time, changed: false })
                    &&& exists|o: Option<i64>|
                        #[trigger] is_last_time(events@, row.id, EventType::Read, o)
                            && e.read_time.time == spec_hydrate(o, row.created_time)
                    &&& exists|o: Option<i64>|
                        #[trigger] is_last_time(events@, row.id, EventType::Exec, o)
                            && e.exec_time == crate::script::spec_opt_stored(o)
                    &&& exists|o: Option<i64>|
                        #[trigger] is_last_time(events@, row.id, EventType::ExecDone, o)
                            && e.exec_done_time == crate::script::spec_opt_stored(o)
                    &&& exists|o: Option<i64>|
                        #[trigger] is_last_time(events@, row.id, EventType::Miss, o)
                            && e.miss_time == crate::script::spec_opt_stored(o)
                },
    {
        let historian = Historian::from_rows(events, next_event_id);
        let mut entries: Vec<ScriptInfo> = Vec::new();
        let mut hidden: Vec<bool> = Vec::new();
        let len = rows.len();
        let mut i: usize = 0;
        while i < len
            invariant
                i <= len,
                len == rows@.len(),
                historian.wf(),
                historian.rows() == events@,
                historian.spec_next_id() == next_event_id,
                forall|x: int|
                    0 <= x < rows@.len() ==> spec_valid((#[trigger] rows@[x]).name@) is Ok,
                forall|x: int, j: int|
                    0 <= x < j < rows@.len() ==> spec_row_key(rows@[x].name@) != spec_row_key(
                        rows@[j].name@,
                    ),
                forall|x: int|
                    0 <= x < rows@.len() ==> 1 <= (#[trigger] rows@[x]).id < next_script_id,
                forall|x: int, j: int| 0 <= x < j < rows@.len() ==> rows@[x].id != rows@[j].id,
                forall|x: int|
                    0 <= x < rows@.len() ==> (#[trigger] rows@[x]).created_time
                        <= rows@[x].write_time,
                entries@.len() == i,
                hidden@.len() == i,
                forall|x: int| 0 <= x < i ==> !(#[trigger] hidden@[x]),
                forall|x: int| 0 <= x < i ==> (#[trigger] entries@[x]).wf(),
                forall|x: int|
                    0 <= x < i ==> {
                        let e = #[trigger] entries@[x];
                        let row = rows@[x];
                        &&& e.id == row.id
                        &&& e.name.spec_key() == spec_row_key(row.name@)
                        &&& e.ty@ == row.category@
                        &&& e.tags@ == spec_stored_tags(row.tags@)
                        &&& e.created_time == (ScriptTime {
                            time: row.created_time,
                            changed: false,
                        })
                        &&& e.write_time == (ScriptTime { time: row.write_time, changed: false })
                        &&& exists|o: Option<i64>|
                            #[trigger] is_last_time(events@, row.id, EventType::Read, o)
                                && e.read_time.time == spec_hydrate(o, row.created_time)
                        &&& exists|o: Option<i64>|
                            #[trigger] is_last_time(events@, row.id, EventType::Exec, o)
                                && e.exec_time == crate::script::spec_opt_stored(o)
                        &&& exists|o: Option<i64>|
                            #[trigger] is_last_time(events@, row.id, EventType::ExecDone, o)
                                && e.exec_done_time == crate::script::spec_opt_stored(o)
                        &&& exists|o: Option<i64>|
                            #[trigger] is_last_time(events@, row.id, EventType::Miss, o)
                                && e.miss_time == crate::script::spec_opt_stored(o)
                    },
            decreases len - i,
        {
            let row = &rows[i];
            let name = match string_into_script_name(row.name.clone()) {
                Ok(n) => n,
                Err(_) => {
                    proof {
                        assert(false);
                    }
                    ScriptName::Anonymous(0)
                },
            };
            proof {
                lemma_spec_row_key(row.name@, name);
            }
            // rebuild the tag set, dropping anything illegal
            let mut tags = TagSet::new();
            let pieces = crate::strutil::split_str(row.tags.as_str(), ',');
            let ghost gtags = row.tags@;
            let mut p: usize = 0;
            let plen = pieces.len();
            proof {
                assert(tags@ =~= spec_piece_tags(gtags, 0));
            }
            while p < plen
                invariant
                    p <= plen,
                    plen == pieces@.len(),
                    pieces.deep_view() == crate::strutil::spec_split(gtags, ','),
                    tags.wf(),
                    tags@ == spec_piece_tags(gtags, p as int),
                decreases plen - p,
            {
                let ghost pre = tags@;
                match Tag::from_str(pieces[p].as_str()) {
                    Ok(t) => {
                        if !t.match_all() {
                            tags.insert(t);
                        }
                    },
                    Err(_) => {},
                }
                proof {
                    lemma_piece_tags_step(gtags, p as int, pre, tags@);
                }
                p = p + 1;
            }
            proof {
                assert(tags@ =~= spec_stored_tags(gtags)) by {
                    assert(forall|x: Seq<char>|
                        crate::strutil::spec_split(gtags, ',').take(plen as int).contains(x)
                            <==> crate::strutil::spec_split(gtags, ',').contains(x)) by {
                        assert(crate::strutil::spec_split(gtags, ',').take(plen as int)
                            =~= crate::strutil::spec_split(gtags, ','));
                    }
                }
            }
            let sid = row.id;
            let created = row.created_time;
            let rd = historian.last_time_of(sid, EventType::Read);
            let ex = historian.last_time_of(sid, EventType::Exec);
            let ed = historian.last_time_of(sid, EventType::ExecDone);
            let ms = historian.last_time_of(sid, EventType::Miss);
            proof {
                assert(is_last_time(events@, sid, EventType::Read, rd));
                assert(is_last_time(events@, sid, EventType::Exec, ex));
                assert(is_last_time(events@, sid, EventType::ExecDone, ed));
                assert(is_last_time(events@, sid, EventType::Miss, ms));
            }
            let read = match rd {
                Some(t) => if t >= created {
                    t
                } else {
                    created
                },
                None => created,
            };
            let entry = ScriptInfo {
                id: sid,
                name,
                ty: row.category.clone(),
                tags,
                created_time: ScriptTime::stored(created),
                read_time: ScriptTime::stored(read),
                write_time: ScriptTime::stored(row.write_time),
                exec_time: match ex {
                    Some(t) => Some(ScriptTime::stored(t)),
                    None => None,
                },
                exec_content: None,
                exec_args: None,
                exec_done_time: match ed {
                    Some(t) => Some(ScriptTime::stored(t)),
                    None => None,
                },
                exec_done_code: None,
                miss_time: match ms {
                    Some(t) => Some(ScriptTime::stored(t)),
                    None => None,
                },
            };
            proof {
                assert(entry.wf());
                assert(entry.read_time.time == spec_hydrate(rd, created));
                assert(entry.exec_time == crate::script::spec_opt_stored(ex));
                assert(entry.exec_done_time == crate::script::spec_opt_stored(ed));
                assert(entry.miss_time == crate::script::spec_opt_stored(ms));
            }
            entries.push(entry);
            hidden.push(false);
            i = i + 1;
        }
        let r = ScriptRepo { entries, hidden, historian, next_script_id };
        proof {
            assert forall|x: int, j: int|
                0 <= x < j < r.entries().len() implies r.entries()[x].name.spec_key()
                != r.entries()[j].name.spec_key() by {
                assert(r.entries()[x].name.spec_key() == spec_row_key(rows@[x].name@));
                assert(r.entries()[j].name.spec_key() == spec_row_key(rows@[j].name@));
            }
            assert(r.wf());
        }
        r
    }

    /// The stored form of every entry, for persistence: tags joined with
    /// commas, in insertion order.
    pub fn export_scripts(&self) -> (r: Vec<ScriptRow>)
        requires
            self.wf(),
        ensures
            r@.len() == self.entries().len(),
            forall|i: int|
                0 <= i < r@.len() ==> {
                    let row = #[trigger] r@[i];
                    let e = self.entries()[i];
                    &&& row.id == e.id
                    &&& row.name@ == e.name.spec_key()
                    &&& row.category@ == e.ty@
                    &&& row.tags@ == crate::strutil::join_commas(e.tags.seq_view())
                    &&& row.created_time == e.created_time.time
                    &&& row.write_time == e.write_time.time
                },
    {
        let len = self.entries.len();
        let mut out: Vec<ScriptRow> = Vec::new();
        let mut i: usize = 0;
        while i < len
            invariant
                self.wf(),
                i <= len,
                len == self.entries().len(),
                out@.len() == i,
                forall|x: int|
                    0 <= x < i ==> {
                        let row = #[trigger] out@[x];
                        let e = self.entries()[x];
                        &&& row.id == e.id
                        &&& row.name@ == e.name.spec_key()
                        &&& row.category@ == e.ty@
                        &&& row.tags@ == crate::strutil::join_commas(e.tags.seq_view())
                        &&& row.created_time == e.created_time.time
                        &&& row.write_time == e.write_time.time
                    },
            decreases len - i,
        {
            let e = &self.entries[i];
            let mut names: Vec<String> = Vec::new();
            let tcount = e.tags.count();
            let mut t: usize = 0;
            proof {
                assert(names.deep_view() =~= e.tags.seq_view().take(0));
            }
            while t < tcount
                invariant
                    t <= tcount,
                    tcount == e.tags.seq_view().len(),
                    names.deep_view() == e.tags.seq_view().take(t as int),
                decreases tcount - t,
            {
                let ghost old_names = names.deep_view();
                names.push(String::from_str(e.tags.get(t).as_str()));
                proof {
                    assert(names.deep_view().len() == old_names.len() + 1);
                    assert(forall|j: int|
                        0 <= j < old_names.len() ==> names.deep_view()[j] == old_names[j]);
                    assert(names.deep_view().last() == e.tags.seq_view()[t as int]);
                    assert(names.deep_view() =~= e.tags.seq_view().take(t + 1));
                }
                t = t + 1;
            }
            proof {
                assert(names.deep_view() =~= e.tags.seq_view());
            }
            let tags_joined = crate::strutil::join_commas_exec(&names, 0);
            proof {
                assert(names.deep_view().skip(0) =~= names.deep_view());
                assert(tags_joined@ == crate::strutil::join_commas(names.deep_view()));
            }
            out.push(
                ScriptRow {
                    id: e.id,
                    name: e.name.key(),
                    category: e.ty.clone(),
                    tags: tags_joined,
                    created_time: e.created_time.time,
                    write_time: e.write_time.time,
                },
            );
            i = i + 1;
        }
        out
    }

    /// The stored event rows, for persistence and for tests.
    pub fn export_events(&self) -> (r: &Vec<EventRow>)
        ensures
            r@ == self.hist().rows(),
    {
        self.historian.all_rows()
    }

    /// The id the next event will get, for persistence.
    pub fn next_event_id(&self) -> (r: i64)
        ensures
            r == self.hist().spec_next_id(),
    {
        self.historian.next_id()
    }

    /// The id the next script will get, for persistence.
    pub fn next_script_id(&self) -> (r: i64)
        ensures
            r == self.spec_next_script_id(),
    {
        self.next_script_id
    }
}

/// A parsed name's display key is the stored text's key.
pub proof fn lemma_spec_row_key(name: Seq<char>, parsed: ScriptName)
    requires
        spec_valid(name) is Ok,
        match spec_valid(name) {
            Ok(Some(id)) => parsed == ScriptName::Anonymous(id),
            Ok(None) => parsed matches ScriptName::Named(t) && t@ == name,
            Err(_) => false,
        },
    ensures
        parsed.spec_key() == spec_row_key(name),
{
}

} // verus!
