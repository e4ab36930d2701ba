//! The boards the worker knows of, each with its last snapshot and the channel
//! on which changed snapshots go out, and the reconciliation of that set with
//! the list of boards that the device reports.
use vstd::prelude::*;
use crate::command::BoardId;
use crate::matrix::{Matrix, MatrixView};

verus! {

/// One step of a reconciliation, in the order in which it is to be announced.
#[derive(Clone, Copy, Debug, PartialEq, Eq, Structural)]
pub enum Change {
    /// The board is gone; its record has been dropped.
    Removed(BoardId),
    /// The board is new: build its handle, then `insert` it.
    Added(BoardId),
}

struct BoardRecord<S> {
    id: BoardId,
    matrix: Matrix,
    channel: S,
}

/// Known boards in the order they were found, each id at most once.
pub struct BoardSet<S> {
    records: Vec<BoardRecord<S>>,
}

pub open spec fn ids_of<S>(recs: Seq<(BoardId, MatrixView, S)>) -> Seq<BoardId> {
    recs.map_values(|p: (BoardId, MatrixView, S)| p.0)
}

/// Known boards, in order, that `reported` no longer lists.
pub open spec fn departed(known: Seq<BoardId>, reported: Seq<BoardId>) -> Seq<BoardId>
    decreases known.len(),
{
    if known.len() == 0 {
        Seq::empty()
    } else {
        let p = departed(known.drop_last(), reported);
        if reported.contains(known.last()) {
            p
        } else {
            p.push(known.last())
        }
    }
}

/// Reported boards that are not known, in the order of their first mention.
pub open spec fn arrived(reported: Seq<BoardId>, known: Seq<BoardId>) -> Seq<BoardId>
    decreases reported.len(),
{
    if reported.len() == 0 {
        Seq::empty()
    } else {
        let p = arrived(reported.drop_last(), known);
        let x = reported.last();
        if known.contains(x) || p.contains(x) {
            p
        } else {
            p.push(x)
        }
    }
}

/// The records whose board is still reported, in their order.
pub open spec fn kept<S>(recs: Seq<(BoardId, MatrixView, S)>, reported: Seq<BoardId>) -> Seq<
    (BoardId, MatrixView, S),
>
    decreases recs.len(),
{
    if recs.len() == 0 {
        Seq::empty()
    } else {
        let p = kept(recs.drop_last(), reported);
        if reported.contains(recs.last().0) {
            p.push(recs.last())
        } else {
            p
        }
    }
}

/// What a reconciliation announces: every removal, then every addition.
pub open spec fn changes(known: Seq<BoardId>, reported: Seq<BoardId>) -> Seq<Change> {
    departed(known, reported).map_values(|id: BoardId| Change::Removed(id)) + arrived(
        reported,
        known,
    ).map_values(|id: BoardId| Change::Added(id))
}

pub open spec fn empty_view() -> MatrixView {
    MatrixView { rows: 0, cols: 0, cells: Seq::<bool>::empty() }
}

spec fn records_view<S>(recs: Seq<BoardRecord<S>>) -> Seq<(BoardId, MatrixView, S)> {
    recs.map_values(|r: BoardRecord<S>| (r.id, r.matrix@, r.channel))
}

fn vec_contains(v: &Vec<BoardId>, x: BoardId) -> (r: bool)
    ensures
        r == v@.contains(x),
{
    let mut i: usize = 0;
    while i < v.len()
        invariant
            i <= v@.len(),
            forall|j: int| 0 <= j < i ==> v@[j] != x,
        decreases v@.len() - i,
    {
        if v[i] == x {
            return true;
        }
        i = i + 1;
    }
    false
}

impl<S> View for BoardSet<S> {
    type V = Seq<(BoardId, MatrixView, S)>;

    closed spec fn view(&self) -> Seq<(BoardId, MatrixView, S)> {
        records_view(self.records@)
    }
}

impl<S> BoardSet<S> {
    pub open spec fn wf(&self) -> bool {
        ids_of(self@).no_duplicates()
    }

    pub fn new() -> (r: BoardSet<S>)
        ensures
            r.wf(),
            r@ == Seq::<(BoardId, MatrixView, S)>::empty(),
    {
        let r = BoardSet { records: Vec::new() };
        proof {
            assert(r@ =~= Seq::<(BoardId, MatrixView, S)>::empty());
        }
        r
    }

    fn position(&self, id: BoardId) -> (r: Option<usize>)
        ensures
            match r {
                Some(i) => i < self@.len() && self@[i as int].0 == id,
                None => !ids_of(self@).contains(id),
            },
    {
        let mut i: usize = 0;
        while i < self.records.len()
            invariant
                i <= self.records@.len(),
                forall|j: int| 0 <= j < i ==> self@[j].0 != id,
            decreases self.records@.len() - i,
        {
            if self.records[i].id == id {
                return Some(i);
            }
            i = i + 1;
        }
        proof {
            if ids_of(self@).contains(id) {
                let j = choose|j: int| 0 <= j < ids_of(self@).len() && ids_of(self@)[j] == id;
                assert(self@[j].0 == id);
            }
        }
        None
    }

    pub fn contains(&self, id: BoardId) -> (r: bool)
        ensures
            r == ids_of(self@).contains(id),
    {
        match self.position(id) {
            Some(i) => {
                proof {
                    assert(ids_of(self@)[i as int] == id);
                }
                true
            },
            None => false,
        }
    }

    /// The known boards, in order.
    pub fn board_ids(&self) -> (r: Vec<BoardId>)
        ensures
            r@ == ids_of(self@),
    {
        let mut r: Vec<BoardId> = Vec::new();
        let mut i: usize = 0;
        while i < self.records.len()
            invariant
                i <= self.records@.len(),
                r@ =~= ids_of(self@).take(i as int),
            decreases self.records@.len() - i,
        {
            r.push(self.records[i].id);
            i = i + 1;
        }
        proof {
            assert(r@ =~= ids_of(self@));
        }
        r
    }

    /// Adds a newly found board with an empty snapshot; does nothing, and
    /// returns false, if the board is known already.
    pub fn insert(&mut self, id: BoardId, channel: S) -> (r: bool)
        requires
            old(self).wf(),
        ensures
            final(self).wf(),
            r == !ids_of(old(self)@).contains(id),
            r ==> final(self)@ == old(self)@.push((id, empty_view(), channel)),
            !r ==> final(self)@ == old(self)@,
    {
        if self.contains(id) {
            return false;
        }
        let ghost before = self@;
        self.records.push(BoardRecord { id, matrix: Matrix::empty(), channel });
        proof {
            assert(self@ =~= before.push((id, empty_view(), channel)));
            assert(ids_of(self@) =~= ids_of(before).push(id));
        }
        true
    }

    /// The channel on which the snapshots of board `id` go out.
    pub fn channel(&self, id: BoardId) -> (r: Option<&S>)
        requires
            self.wf(),
        ensures
            !ids_of(self@).contains(id) ==> r.is_none(),
            forall|i: int|
                0 <= i < self@.len() && #[trigger] self@[i].0 == id ==> r == Some(&self@[i].2),
    {
        match self.position(id) {
            Some(i) => {
                proof {
                    assert(ids_of(self@)[i as int] == id);
                    assert forall|j: int|
                        0 <= j < self@.len() && #[trigger] self@[j].0 == id implies j == i by {
                        if j != i {
                            assert(ids_of(self@)[j] == ids_of(self@)[i as int]);
                        }
                    }
                }
                Some(&self.records[i].channel)
            },
            None => {
                proof {
                    assert forall|j: int| 0 <= j < self@.len() implies #[trigger] self@[j].0
                        != id by {
                        assert(ids_of(self@)[j] == self@[j].0);
                    }
                }
                None
            },
        }
    }

    /// Records a freshly read snapshot of board `id`. If it differs from the
    /// stored one it replaces it, and a copy comes back to be sent on the
    /// board's channel; if it is equal, or the board is unknown, nothing
    /// changes and nothing comes back.
    pub fn observe(&mut self, id: BoardId, m: Matrix) -> (r: Option<Matrix>)
        requires
            old(self).wf(),
        ensures
            final(self).wf(),
            !ids_of(old(self)@).contains(id) ==> r.is_none() && final(self)@ == old(self)@,
            forall|i: int|
                0 <= i < old(self)@.len() && #[trigger] old(self)@[i].0 == id ==> if old(
                    self,
                )@[i].1 == m@ {
                    r.is_none() && final(self)@ == old(self)@
                } else {
                    r.is_some() && r.unwrap()@ == m@ && final(self)@ == old(self)@.update(
                        i,
                        (id, m@, old(self)@[i].2),
                    )
                },
    {
        let ghost before = self@;
        match self.position(id) {
            None => {
                proof {
                    assert forall|j: int| 0 <= j < before.len() implies #[trigger] before[j].0
                        != id by {
                        assert(ids_of(before)[j] == before[j].0);
                    }
                }
                None
            },
            Some(i) => {
                proof {
                    assert(ids_of(before)[i as int] == id);
                }
                if self.records[i].matrix.same_as(&m) {
                    proof {
                        assert forall|j: int|
                            0 <= j < before.len() && #[trigger] before[j].0 == id implies j
                            == i by {
                            if j != i {
                                assert(ids_of(before)[j] == ids_of(before)[i as int]);
                            }
                        }
                    }
                    None
                } else {
                    let out = m.duplicate();
                    let ghost recs = self.records@;
                    let mut rec = self.records.remove(i);
                    rec.matrix = m;
                    self.records.insert(i, rec);
                    assert(self.records@ =~= recs.update(i as int, rec));
                    proof {
                        assert(self@ =~= before.update(i as int, (id, out@, before[i as int].2)));
                        assert forall|j: int|
                            0 <= j < before.len() && #[trigger] before[j].0 == id implies j
                            == i by {
                            if j != i {
                                assert(ids_of(before)[j] == ids_of(before)[i as int]);
                            }
                        }
                        assert(ids_of(self@) =~= ids_of(before));
                    }
                    Some(out)
                }
            },
        }
    }

    /// Reconciles the known boards with the list that the device reports:
    /// drops every record whose board is no longer reported, and returns the
    /// removals, then the reported boards that are new, each once.
    pub fn reconcile(&mut self, reported: &Vec<BoardId>) -> (r: Vec<Change>)
        requires
            old(self).wf(),
        ensures
            final(self).wf(),
            final(self)@ == kept(old(self)@, reported@),
            r@ == changes(ids_of(old(self)@), reported@),
    {
        let ghost orig = self@;
        let mut rest: Vec<BoardRecord<S>> = Vec::new();
        std::mem::swap(&mut self.records, &mut rest);
        let mut out: Vec<Change> = Vec::new();
        let ghost mut k: int = 0;
        proof {
            assert(orig.take(0) =~= Seq::<(BoardId, MatrixView, S)>::empty());
            assert(ids_of(orig.take(0)) =~= Seq::<BoardId>::empty());
            assert(self@ =~= Seq::<(BoardId, MatrixView, S)>::empty());
            assert(records_view(rest@) =~= orig.skip(0));
            assert(out@ =~= Seq::<Change>::empty());
        }
        while rest.len() > 0
            invariant
                0 <= k <= orig.len(),
                records_view(rest@) == orig.skip(k),
                self@ == kept(orig.take(k), reported@),
                out@ == departed(ids_of(orig.take(k)), reported@).map_values(
                    |id: BoardId| Change::Removed(id),
                ),
                ids_of(orig).no_duplicates(),
                ids_of(self@).no_duplicates(),
                forall|i: int|
                    #![trigger self@[i]]
                    0 <= i < self@.len() ==> exists|j: int|
                        0 <= j < k && #[trigger] orig[j].0 == self@[i].0,
            decreases rest@.len(),
        {
            let ghost before = self@;
            let ghost out_before = out@;
            let ghost rest_before = rest@;
            let rec = rest.remove(0);
            proof {
                assert(records_view(rest_before).len() == rest_before.len());
                assert(k < orig.len());
                assert(records_view(rest_before)[0] == (rec.id, rec.matrix@, rec.channel));
                assert(orig.skip(k)[0] == orig[k]);
                assert forall|i: int| 0 <= i < rest@.len() implies #[trigger] records_view(
                    rest@,
                )[i] == orig.skip(k + 1)[i] by {
                    assert(rest@[i] == rest_before[i + 1]);
                    assert(records_view(rest_before)[i + 1] == orig.skip(k)[i + 1]);
                }
                assert(records_view(rest@) =~= orig.skip(k + 1));
                assert(orig.take(k + 1).drop_last() =~= orig.take(k));
                assert(ids_of(orig.take(k + 1)).drop_last() =~= ids_of(orig.take(k)));
            }
            if vec_contains(reported, rec.id) {
                self.records.push(rec);
                proof {
                    assert(self@ =~= before.push(orig[k]));
                    assert(ids_of(self@) =~= ids_of(before).push(orig[k].0));
                    assert forall|i: int| 0 <= i < before.len() implies before[i].0 != orig[k].0 by {
                        let j = choose|j: int| 0 <= j < k && #[trigger] orig[j].0 == before[i].0;
                        assert(ids_of(orig)[j] == orig[j].0);
                        assert(ids_of(orig)[k] == orig[k].0);
                    }
                }
            } else {
                let id = rec.id;
                out.push(Change::Removed(id));
                proof {
                    assert(out@ =~= out_before.push(Change::Removed(id)));
                    assert(departed(ids_of(orig.take(k + 1)), reported@) == departed(
                        ids_of(orig.take(k)),
                        reported@,
                    ).push(id));
                    assert(out@ =~= departed(ids_of(orig.take(k + 1)), reported@).map_values(
                        |id: BoardId| Change::Removed(id),
                    ));
                }
            }
            proof {
                k = k + 1;
                assert forall|i: int| #![trigger self@[i]] 0 <= i < self@.len() implies exists|j: int|
                    0 <= j < k && #[trigger] orig[j].0 == self@[i].0 by {
                    if i < before.len() {
                        let j = choose|j: int| 0 <= j < k - 1 && #[trigger] orig[j].0 == before[i].0;
                        assert(orig[j].0 == self@[i].0);
                    } else {
                        assert(orig[k - 1].0 == self@[i].0);
                    }
                }
            }
        }
        proof {
            assert(orig.take(k) =~= orig);
        }
        let ghost known = ids_of(orig);
        let ghost removals = out@;
        let mut fresh: Vec<BoardId> = Vec::new();
        let mut j: usize = 0;
        proof {
            assert(reported@.take(0) =~= Seq::<BoardId>::empty());
        }
        while j < reported.len()
            invariant
                j <= reported@.len(),
                self@ == kept(orig, reported@),
                ids_of(self@).no_duplicates(),
                known == ids_of(orig),
                fresh@ == arrived(reported@.take(j as int), known),
                out@ == removals + fresh@.map_values(|id: BoardId| Change::Added(id)),
            decreases reported@.len() - j,
        {
            let x = reported[j];
            proof {
                assert(reported@.take(j + 1).drop_last() =~= reported@.take(j as int));
                assert(reported@.contains(x));
                lemma_kept_ids(orig, reported@, x);
            }
            if !self.contains(x) && !vec_contains(&fresh, x) {
                let ghost fb = fresh@;
                fresh.push(x);
                out.push(Change::Added(x));
                proof {
                    assert(fresh@.map_values(|id: BoardId| Change::Added(id)) =~= fb.map_values(
                        |id: BoardId| Change::Added(id),
                    ).push(Change::Added(x)));
                }
            }
            j = j + 1;
        }
        proof {
            assert(reported@.take(j as int) =~= reported@);
        }
        out
    }
}

/// For a reported board, being kept is the same as having been known.
proof fn lemma_kept_ids<S>(recs: Seq<(BoardId, MatrixView, S)>, reported: Seq<BoardId>, x: BoardId)
    requires
        reported.contains(x),
    ensures
        ids_of(kept(recs, reported)).contains(x) == ids_of(recs).contains(x),
    decreases recs.len(),
{
    if recs.len() > 0 {
        let p = recs.drop_last();
        lemma_kept_ids(p, reported, x);
        let kp = kept(p, reported);
        let y = recs.last().0;
        assert(ids_of(recs) =~= ids_of(p).push(y));
        let a = if reported.contains(y) { ids_of(kp).push(y) } else { ids_of(kp) };
        assert(ids_of(kept(recs, reported)) =~= a);
        lemma_contains_push(ids_of(p), y, x);
        lemma_contains_push(ids_of(kp), y, x);
    }
}

proof fn lemma_contains_push(s: Seq<BoardId>, y: BoardId, x: BoardId)
    ensures
        s.push(y).contains(x) == (s.contains(x) || x == y),
{
    if x == y {
        assert(s.push(y)[s.len() as int] == y);
    }
    if s.contains(x) {
        let i = choose|i: int| 0 <= i < s.len() && s[i] == x;
        assert(s.push(y)[i] == x);
    }
    if s.push(y).contains(x) && x != y {
        let i = choose|i: int| 0 <= i < s.push(y).len() && s.push(y)[i] == x;
        assert(s[i] == x);
    }
}

proof fn lemma_push_no_dup<A>(s: Seq<A>, y: A)
    requires
        s.no_duplicates(),
        !s.contains(y),
    ensures
        s.push(y).no_duplicates(),
{
    assert forall|i: int, j: int|
        0 <= i < s.push(y).len() && 0 <= j < s.push(y).len() && i != j implies s.push(y)[i]
        != s.push(y)[j] by {
        if i == s.len() as int {
            assert(s[j] == s.push(y)[j]);
        } else if j == s.len() as int {
            assert(s[i] == s.push(y)[i]);
        }
    }
}

proof fn lemma_departed(known: Seq<BoardId>, reported: Seq<BoardId>, x: BoardId)
    ensures
        departed(known, reported).contains(x) == (known.contains(x) && !reported.contains(x)),
        known.no_duplicates() ==> departed(known, reported).no_duplicates(),
    decreases known.len(),
{
    if known.len() > 0 {
        let dl = known.drop_last();
        let y = known.last();
        lemma_departed(dl, reported, x);
        lemma_departed(dl, reported, y);
        assert(known =~= dl.push(y));
        lemma_contains_push(dl, y, x);
        let p = departed(dl, reported);
        lemma_contains_push(p, y, x);
        if known.no_duplicates() {
            assert(dl.no_duplicates());
            if !reported.contains(y) {
                assert(!dl.contains(y)) by {
                    if dl.contains(y) {
                        let i = choose|i: int| 0 <= i < dl.len() && dl[i] == y;
                        assert(known[i] == known[known.len() - 1]);
                    }
                }
                lemma_push_no_dup(p, y);
            }
        }
    }
}

proof fn lemma_arrived(reported: Seq<BoardId>, known: Seq<BoardId>, x: BoardId)
    ensures
        arrived(reported, known).contains(x) == (reported.contains(x) && !known.contains(x)),
        arrived(reported, known).no_duplicates(),
    decreases reported.len(),
{
    if reported.len() > 0 {
        let dl = reported.drop_last();
        let y = reported.last();
        lemma_arrived(dl, known, x);
        assert(reported =~= dl.push(y));
        lemma_contains_push(dl, y, x);
        let p = arrived(dl, known);
        lemma_contains_push(p, y, x);
        if !known.contains(y) && !p.contains(y) {
            lemma_push_no_dup(p, y);
        }
        if x == y && !known.contains(y) && p.contains(y) {
            lemma_arrived(dl, known, y);
        }
    }
}

/// A reconciliation announces every removal before any addition; it
/// announces the removal of exactly the known boards that are no longer
/// reported and the addition of exactly the reported boards that were not
/// known, each once, and nothing of a board that is both known and reported.
pub proof fn law_reconcile_diff(known: Seq<BoardId>, reported: Seq<BoardId>)
    requires
        known.no_duplicates(),
    ensures
        changes(known, reported).no_duplicates(),
        forall|x: BoardId|
            #[trigger] changes(known, reported).contains(Change::Removed(x)) == (known.contains(x)
                && !reported.contains(x)),
        forall|x: BoardId|
            #[trigger] changes(known, reported).contains(Change::Added(x)) == (reported.contains(x)
                && !known.contains(x)),
        forall|i: int, j: int|
            0 <= i < j < changes(known, reported).len() && (#[trigger] changes(known, reported)[j]
                is Removed) ==> #[trigger] changes(known, reported)[i] is Removed,
{
    let d = departed(known, reported);
    let a = arrived(reported, known);
    let l = d.map_values(|id: BoardId| Change::Removed(id));
    let r = a.map_values(|id: BoardId| Change::Added(id));
    let c = changes(known, reported);
    assert(c == l + r);
    lemma_departed(known, reported, known[0]);
    lemma_arrived(reported, known, reported[0]);
    assert forall|i: int, j: int|
        0 <= i < c.len() && 0 <= j < c.len() && i != j implies c[i] != c[j] by {
        if i < l.len() && j < l.len() {
            assert(d[i] != d[j]);
        } else if i >= l.len() && j >= l.len() {
            assert(a[i - l.len()] != a[j - l.len()]);
        }
    }
    assert forall|x: BoardId| #[trigger] c.contains(Change::Removed(x)) == (known.contains(x)
        && !reported.contains(x)) by {
        lemma_departed(known, reported, x);
        if c.contains(Change::Removed(x)) {
            let i = choose|i: int| 0 <= i < c.len() && c[i] == Change::Removed(x);
            if i < l.len() {
                assert(d[i] == x);
            }
        }
        if d.contains(x) {
            let i = choose|i: int| 0 <= i < d.len() && d[i] == x;
            assert(c[i] == Change::Removed(x));
        }
    }
    assert forall|x: BoardId| #[trigger] c.contains(Change::Added(x)) == (reported.contains(x)
        && !known.contains(x)) by {
        lemma_arrived(reported, known, x);
        if c.contains(Change::Added(x)) {
            let i = choose|i: int| 0 <= i < c.len() && c[i] == Change::Added(x);
            if i >= l.len() {
                assert(a[i - l.len()] == x);
            }
        }
        if a.contains(x) {
            let i = choose|i: int| 0 <= i < a.len() && a[i] == x;
            assert(c[l.len() + i] == Change::Added(x));
        }
    }
}

} // verus!
