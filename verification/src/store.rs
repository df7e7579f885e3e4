//! The entry store: invariant-enforcing storage for clocking entries
//! and the state machine for starting and finishing them.
//!
//! The store holds one row per entry, in insertion order. Its central
//! invariant: no two rows share the `(title, start)` key, at most one
//! row is unfinished at any time, and every finished row ends strictly
//! after it starts.
use crate::errors::Error;
use crate::time::{now_utc_secs, parse_rfc3339_utc, rfc3339_ts, valid_ts, MAX_TS};
use crate::types::{EntryId, EntryIdModel, FinishedEntry, FinishedModel, UnfinishedEntry,
    UnfinishedModel};
use vstd::pervasive::VecAdditionalExecFns;
use vstd::prelude::*;

verus! {

/// One persisted entry row.
#[derive(Clone, Debug)]
pub struct Row {
    pub title: String,
    pub start: i64,
    /// `None` marks the row unfinished.
    pub end: Option<i64>,
    pub notes: String,
}

/// The mathematical value of a `Row`.
pub ghost struct RowModel {
    pub title: Seq<char>,
    pub start: int,
    pub end: Option<int>,
    pub notes: Seq<char>,
}

impl View for Row {
    type V = RowModel;

    open spec fn view(&self) -> RowModel {
        RowModel {
            title: self.title@,
            start: self.start as int,
            end: match self.end {
                Some(e) => Some(e as int),
                None => None,
            },
            notes: self.notes@,
        }
    }
}

impl RowModel {
    /// Whether the row is finished.
    pub open spec fn finished(self) -> bool {
        self.end is Some
    }

    /// A well-formed row: non-empty title, instants in the supported
    /// range, and a finished row ends strictly after its start.
    pub open spec fn wf(self) -> bool {
        &&& self.title.len() > 0
        &&& valid_ts(self.start)
        &&& match self.end {
            Some(e) => valid_ts(e) && self.start < e,
            None => true,
        }
    }

    /// The finished entry a finished row denotes.
    pub open spec fn to_finished(self) -> FinishedModel {
        FinishedModel {
            id: EntryIdModel { title: self.title, start: self.start },
            end: self.end->Some_0,
            notes: self.notes,
        }
    }
}

/// Whether the row carries the key `(title, start)`.
pub open spec fn key_is(row: RowModel, title: Seq<char>, start: int) -> bool {
    row.title == title && row.start == start
}

/// Whether some row of `rows` carries the key `(title, start)`.
pub open spec fn has_key(rows: Seq<RowModel>, title: Seq<char>, start: int) -> bool {
    exists|i: int| 0 <= i < rows.len() && key_is(#[trigger] rows[i], title, start)
}

/// Whether some row of `rows` is unfinished.
pub open spec fn has_unfinished(rows: Seq<RowModel>) -> bool {
    exists|i: int| 0 <= i < rows.len() && !(#[trigger] rows[i]).finished()
}


/// The row as it stands after being finished at `end` with `notes`
/// appended.
pub open spec fn finish_row(row: RowModel, end: int, notes: Seq<char>) -> RowModel {
    RowModel { title: row.title, start: row.start, end: Some(end), notes: row.notes + notes }
}

/// Whether row `i` is the one `try_finish_entry` can finish: it carries
/// the key of `id`, is still unfinished, and started strictly before
/// `end`.
pub open spec fn finishable_at(rows: Seq<RowModel>, id: EntryIdModel, end: int, i: int) -> bool {
    &&& 0 <= i < rows.len()
    &&& key_is(rows[i], id.title, id.start)
    &&& !rows[i].finished()
    &&& rows[i].start < end
}

/// Whether row `i` is one that a finish-by-title can finish: its title
/// matches, it is unfinished, and it started strictly before `end`.
pub open spec fn title_finishable_at(
    rows: Seq<RowModel>,
    title: Seq<char>,
    end: int,
    i: int,
) -> bool {
    &&& 0 <= i < rows.len()
    &&& rows[i].title == title
    &&& !rows[i].finished()
    &&& rows[i].start < end
}

/// Whether row `i` is one that `try_finish_any` can finish: it is
/// unfinished and started strictly before `end`.
pub open spec fn any_finishable_at(rows: Seq<RowModel>, end: int, i: int) -> bool {
    &&& 0 <= i < rows.len()
    &&& !rows[i].finished()
    &&& rows[i].start < end
}


/// Whether the finished entries of `s` are ordered by ascending start.
pub open spec fn sorted_by_start(s: Seq<FinishedModel>) -> bool {
    forall|i: int, j: int| 0 <= i < j < s.len() ==> s[i].id.start <= s[j].id.start
}

/// Inserts `x` into `s` from the right: `x` lands after every entry
/// whose start is at most `x`'s, so entries with equal starts keep
/// their relative order.
pub open spec fn insert_by_start(x: FinishedModel, s: Seq<FinishedModel>) -> Seq<FinishedModel>
    decreases s.len(),
{
    if s.len() == 0 {
        seq![x]
    } else if x.id.start < s.last().id.start {
        insert_by_start(x, s.drop_last()).push(s.last())
    } else {
        s.push(x)
    }
}

/// Stable insertion sort by ascending start.
pub open spec fn sort_by_start(s: Seq<FinishedModel>) -> Seq<FinishedModel>
    decreases s.len(),
{
    if s.len() == 0 {
        s
    } else {
        insert_by_start(s.last(), sort_by_start(s.drop_last()))
    }
}

/// Whether a row is finished with its start at or after `qs` and its
/// end at or before `qe`.
pub open spec fn row_in_range(r: RowModel, qs: int, qe: int) -> bool {
    r.finished() && r.start >= qs && r.end->Some_0 <= qe
}

/// The finished entries of `rows` within `[qs, qe]`, ordered by
/// ascending start; entries with equal starts keep row order.
pub open spec fn finished_between(rows: Seq<RowModel>, qs: int, qe: int) -> Seq<FinishedModel> {
    sort_by_start(
        rows.filter(|r: RowModel| row_in_range(r, qs, qe)).map_values(
            |r: RowModel| r.to_finished(),
        ),
    )
}

/// Inserting into a sorted run keeps it sorted and adds exactly the
/// new entry.
proof fn lemma_insert_by_start_props(x: FinishedModel, s: Seq<FinishedModel>)
    requires
        sorted_by_start(s),
    ensures
        sorted_by_start(insert_by_start(x, s)),
        insert_by_start(x, s).to_multiset() =~= s.push(x).to_multiset(),
        insert_by_start(x, s).len() == s.len() + 1,
        forall|k: int|
            0 <= k < insert_by_start(x, s).len() ==> #[trigger] insert_by_start(x, s)[k] == x
                || s.contains(insert_by_start(x, s)[k]),
    decreases s.len(),
{
    broadcast use vstd::seq_lib::group_to_multiset_ensures;

    if s.len() == 0 {
    } else if x.id.start < s.last().id.start {
        assert(sorted_by_start(s.drop_last()));
        lemma_insert_by_start_props(x, s.drop_last());
        assert(s.drop_last().push(s.last()) =~= s);
        let r = insert_by_start(x, s);
        let ri = insert_by_start(x, s.drop_last());
        assert forall|k: int| 0 <= k < r.len() implies #[trigger] r[k] == x || s.contains(
            r[k],
        ) by {
            if k < r.len() - 1 {
                if ri[k] == x {
                } else {
                    let m = choose|m: int| 0 <= m < s.drop_last().len() && s.drop_last()[m] == ri[k];
                    assert(s[m] == ri[k]);
                }
            } else {
                assert(r[k] == s.last());
            }
        }
        assert forall|a: int, b: int| 0 <= a < b < r.len() implies r[a].id.start
            <= r[b].id.start by {
            if b < r.len() - 1 {
            } else {
                if ri[a] == x {
                } else {
                    let m = choose|m: int| 0 <= m < s.drop_last().len() && s.drop_last()[m] == ri[a];
                    assert(s[m].id.start <= s.last().id.start);
                }
            }
        }
    }
}

/// Sorting orders the entries by start and keeps exactly the same
/// entries.
pub proof fn lemma_sort_by_start_props(s: Seq<FinishedModel>)
    ensures
        sorted_by_start(sort_by_start(s)),
        sort_by_start(s).to_multiset() =~= s.to_multiset(),
        sort_by_start(s).len() == s.len(),
    decreases s.len(),
{
    broadcast use vstd::seq_lib::group_to_multiset_ensures;

    if s.len() > 0 {
        lemma_sort_by_start_props(s.drop_last());
        lemma_insert_by_start_props(s.last(), sort_by_start(s.drop_last()));
        assert(s.drop_last().push(s.last()) =~= s);
    }
}

/// Where the strictly-greater suffix of a sorted run begins determines
/// the insertion point exactly.
proof fn lemma_insert_by_start_at(x: FinishedModel, s: Seq<FinishedModel>, j: int)
    requires
        0 <= j <= s.len(),
        forall|k: int| j <= k < s.len() ==> s[k].id.start > x.id.start,
        j > 0 ==> s[j - 1].id.start <= x.id.start,
    ensures
        insert_by_start(x, s) =~= s.take(j) + seq![x] + s.skip(j),
    decreases s.len(),
{
    if j == s.len() {
        if s.len() == 0 {
        } else {
            assert(!(x.id.start < s.last().id.start));
        }
    } else {
        assert(s[s.len() - 1].id.start > x.id.start);
        lemma_insert_by_start_at(x, s.drop_last(), j);
        assert(s.drop_last().take(j) =~= s.take(j));
        assert(s.drop_last().skip(j).push(s.last()) =~= s.skip(j));
        assert((s.drop_last().take(j) + seq![x] + s.drop_last().skip(j)).push(s.last()) =~= s.take(
            j,
        ) + seq![x] + s.skip(j));
    }
}


/// Sorts finished entries by ascending start; entries with equal
/// starts keep their order.
#[verifier::loop_isolation(false)]
pub fn sort_finished(v: Vec<FinishedEntry>) -> (r: Vec<FinishedEntry>)
    ensures
        r@.map_values(|e: FinishedEntry| e@) == sort_by_start(
            v@.map_values(|e: FinishedEntry| e@),
        ),
{
    let ghost orig = v@.map_values(|e: FinishedEntry| e@);
    let mut rest = v;
    let mut out: Vec<FinishedEntry> = Vec::new();
    let ghost mut done: int = 0;
    while rest.len() > 0
        invariant
            0 <= done <= orig.len(),
            rest@.map_values(|e: FinishedEntry| e@) =~= orig.skip(done),
            out@.map_values(|e: FinishedEntry| e@) =~= sort_by_start(orig.take(done)),
        decreases rest@.len(),
    {
        proof {
            assert(rest@.len() > 0);
        }
        let ghost prev = rest@;
        let e = rest.remove(0);
        proof {
            assert(e == prev[0]);
            assert(prev.map_values(|x: FinishedEntry| x@)[0] == prev[0]@);
            assert(e@ == orig.skip(done)[0]);
            assert(e@ == orig[done]);
            assert forall|k: int| 0 <= k < rest@.len() implies rest@.map_values(
                |x: FinishedEntry| x@,
            )[k] == #[trigger] orig.skip(done + 1)[k] by {
                assert(rest@[k] == prev[k + 1]);
                assert(prev.map_values(|x: FinishedEntry| x@)[k + 1] == prev[k + 1]@);
                assert(orig.skip(done)[k + 1] == orig[done + 1 + k]);
            }
            assert(rest@.map_values(|x: FinishedEntry| x@) =~= orig.skip(done + 1));
        }
        let mut j: usize = out.len();
        while j > 0 && out[j - 1].id.start > e.id.start
            invariant
                0 <= j <= out@.len(),
                forall|k: int|
                    j <= k < out@.len() ==> (#[trigger] out@[k])@.id.start > e@.id.start,
            decreases j,
        {
            j = j - 1;
        }
        proof {
            let s = out@.map_values(|x: FinishedEntry| x@);
            lemma_sort_by_start_props(orig.take(done));
            lemma_insert_by_start_at(e@, s, j as int);
            assert(orig.take(done + 1).drop_last() =~= orig.take(done));
            assert(orig.take(done + 1).last() == orig[done]);
        }
        out.insert(j, e);
        proof {
            let snew = out@.map_values(|x: FinishedEntry| x@);
            let sold = snew.remove(j as int);
            assert(out@.map_values(|x: FinishedEntry| x@) =~= sort_by_start(orig.take(done + 1)));
            done = done + 1;
        }
    }
    proof {
        assert(orig.take(done) =~= orig);
    }
    out
}


/// Every element of a filtered sequence stands somewhere in the
/// original sequence.
proof fn lemma_filter_membership(s: Seq<RowModel>, pred: spec_fn(RowModel) -> bool, m: int)
    requires
        0 <= m < s.filter(pred).len(),
    ensures
        exists|i: int| 0 <= i < s.len() && #[trigger] s[i] == s.filter(pred)[m],
    decreases s.len(),
{
    reveal(Seq::filter);
    if s.len() > 0 {
        let dl = s.drop_last();
        if m < dl.filter(pred).len() {
            lemma_filter_membership(dl, pred, m);
            let i = choose|i: int| 0 <= i < dl.len() && #[trigger] dl[i] == dl.filter(pred)[m];
            assert(s[i] == s.filter(pred)[m]);
        } else {
            assert(pred(s.last()));
            assert(s[s.len() - 1] == s.filter(pred)[m]);
        }
    }
}

/// Whether `e` is the finished entry of some finished row of `rows`
/// whose start is at or after `qs`.
pub open spec fn from_finished_row(rows: Seq<RowModel>, e: FinishedModel, qs: int) -> bool {
    exists|i: int|
        0 <= i < rows.len() && (#[trigger] rows[i]).to_finished() == e && rows[i].finished()
            && rows[i].start >= qs
}


/// Whether row `i` is a finished row with the given title.
pub open spec fn finished_title_at(rows: Seq<RowModel>, title: Seq<char>, i: int) -> bool {
    0 <= i < rows.len() && rows[i].finished() && rows[i].title == title
}

/// The store invariant over its rows: well-formed rows, unique
/// `(title, start)` keys, and at most one unfinished row.
pub open spec fn rows_wf(rows: Seq<RowModel>) -> bool {
    &&& forall|i: int| 0 <= i < rows.len() ==> (#[trigger] rows[i]).wf()
    &&& forall|i: int, j: int|
        0 <= i < rows.len() && 0 <= j < rows.len() && i != j ==> !key_is(
            #[trigger] rows[i],
            (#[trigger] rows[j]).title,
            rows[j].start,
        )
    &&& forall|i: int, j: int|
        0 <= i < rows.len() && 0 <= j < rows.len() && !(#[trigger] rows[i]).finished() && !(
        #[trigger] rows[j]).finished() ==> i == j
}


/// The larger of two instants.
pub open spec fn max_int(a: int, b: int) -> int {
    if a > b {
        a
    } else {
        b
    }
}

/// Records a finished row's start under its title: the title's latest
/// start is kept; a new title opens a pair at the end.
pub open spec fn upsert_max(
    acc: Seq<(Seq<char>, int)>,
    title: Seq<char>,
    start: int,
) -> Seq<(Seq<char>, int)>
    decreases acc.len(),
{
    if acc.len() == 0 {
        seq![(title, start)]
    } else if acc[0].0 == title {
        seq![(acc[0].0, max_int(acc[0].1, start))] + acc.drop_first()
    } else {
        seq![acc[0]] + upsert_max(acc.drop_first(), title, start)
    }
}

/// The distinct titles of the finished rows, each with its latest
/// start, in first-met order.
pub open spec fn finished_titles(rows: Seq<RowModel>) -> Seq<(Seq<char>, int)>
    decreases rows.len(),
{
    if rows.len() == 0 {
        Seq::empty()
    } else if rows.last().finished() {
        upsert_max(finished_titles(rows.drop_last()), rows.last().title, rows.last().start)
    } else {
        finished_titles(rows.drop_last())
    }
}

/// Inserts `x` before every pair whose latest start is strictly
/// smaller, so pairs with equal starts keep their order.
pub open spec fn insert_desc(x: (Seq<char>, int), s: Seq<(Seq<char>, int)>) -> Seq<
    (Seq<char>, int),
>
    decreases s.len(),
{
    if s.len() == 0 {
        seq![x]
    } else if x.1 > s.last().1 {
        insert_desc(x, s.drop_last()).push(s.last())
    } else {
        s.push(x)
    }
}

/// Stable insertion sort by descending latest start.
pub open spec fn sort_desc(s: Seq<(Seq<char>, int)>) -> Seq<(Seq<char>, int)>
    decreases s.len(),
{
    if s.len() == 0 {
        s
    } else {
        insert_desc(s.last(), sort_desc(s.drop_last()))
    }
}

/// The distinct titles of the finished rows, ordered by most recent
/// start first, at most `limit` of them.
pub open spec fn recent_titles_spec(rows: Seq<RowModel>, limit: int) -> Seq<Seq<char>> {
    let sorted = sort_desc(finished_titles(rows));
    let cut = if limit < sorted.len() {
        limit
    } else {
        sorted.len() as int
    };
    sorted.take(cut).map_values(|p: (Seq<char>, int)| p.0)
}

proof fn lemma_upsert_max_found(acc: Seq<(Seq<char>, int)>, title: Seq<char>, start: int, f: int)
    requires
        0 <= f < acc.len(),
        acc[f].0 == title,
        forall|k: int| 0 <= k < f ==> acc[k].0 != title,
    ensures
        upsert_max(acc, title, start) =~= acc.update(f, (acc[f].0, max_int(acc[f].1, start))),
    decreases acc.len(),
{
    if f == 0 {
    } else {
        assert(acc[0].0 != title);
        lemma_upsert_max_found(acc.drop_first(), title, start, f - 1);
    }
}

proof fn lemma_upsert_max_new(acc: Seq<(Seq<char>, int)>, title: Seq<char>, start: int)
    requires
        forall|k: int| 0 <= k < acc.len() ==> acc[k].0 != title,
    ensures
        upsert_max(acc, title, start) =~= acc.push((title, start)),
    decreases acc.len(),
{
    if acc.len() > 0 {
        assert(acc[0].0 != title);
        lemma_upsert_max_new(acc.drop_first(), title, start);
    }
}

proof fn lemma_insert_desc_at(x: (Seq<char>, int), s: Seq<(Seq<char>, int)>, j: int)
    requires
        0 <= j <= s.len(),
        forall|k: int| j <= k < s.len() ==> (#[trigger] s[k]).1 < x.1,
        j > 0 ==> s[j - 1].1 >= x.1,
    ensures
        insert_desc(x, s) =~= s.take(j) + seq![x] + s.skip(j),
    decreases s.len(),
{
    if j == s.len() {
        if s.len() == 0 {
        } else {
            assert(!(x.1 > s.last().1));
        }
    } else {
        assert(s[s.len() - 1].1 < x.1);
        lemma_insert_desc_at(x, s.drop_last(), j);
        assert(s.drop_last().take(j) =~= s.take(j));
        assert((s.drop_last().take(j) + seq![x] + s.drop_last().skip(j)).push(s.last()) =~= s.take(
            j,
        ) + seq![x] + s.skip(j));
    }
}

/// A title with its latest finished start.
struct TitleStart {
    title: String,
    start: i64,
}

impl View for TitleStart {
    type V = (Seq<char>, int);

    closed spec fn view(&self) -> (Seq<char>, int) {
        (self.title@, self.start as int)
    }
}

/// The invariant-enforcing store of clocking entries.
#[derive(Debug)]
pub struct ClockingStore {
    rows: Vec<Row>,
}

impl View for ClockingStore {
    type V = Seq<RowModel>;

    closed spec fn view(&self) -> Seq<RowModel> {
        self.rows@.map_values(|r: Row| r@)
    }
}

impl ClockingStore {
    /// The store's invariant: well-formed rows, unique keys, and at
    /// most one unfinished row.
    pub open spec fn wf(self) -> bool {
        rows_wf(self@)
    }

    /// An empty store.
    pub fn new() -> (r: Self)
        ensures
            r.wf(),
            r@ =~= Seq::<RowModel>::empty(),
    {
        ClockingStore { rows: Vec::new() }
    }

    /// The store's rows, in insertion order.
    pub fn rows(&self) -> (r: &Vec<Row>)
        ensures
            r@.map_values(|x: Row| x@) == self@,
    {
        &self.rows
    }


    /// Builds a store from decoded rows, checking the store invariant:
    /// fails with `ImpossibleState` exactly where the rows break it.
    #[verifier::loop_isolation(false)]
    pub fn from_rows(rows: Vec<Row>) -> (r: Result<Self, Error>)
        ensures
            rows_wf(rows@.map_values(|x: Row| x@)) ==> (r matches Ok(st) && st.wf() && st@ == rows@.map_values(
                |x: Row| x@,
            )),
            !rows_wf(rows@.map_values(|x: Row| x@)) ==> (r matches Err(Error::ImpossibleState(_))),
    {
        let ghost ms = rows@.map_values(|x: Row| x@);
        let n = rows.len();
        let mut i: usize = 0;
        while i < n
            invariant
                0 <= i <= n,
                n == ms.len(),
                ms == rows@.map_values(|x: Row| x@),
                forall|k: int| 0 <= k < i ==> (#[trigger] ms[k]).wf(),
            decreases n - i,
        {
            let row = &rows[i];
            let ok = !row.title.as_str().is_empty() && 0 <= row.start && row.start < MAX_TS
                && match row.end {
                Some(e) => 0 <= e && e < MAX_TS && row.start < e,
                None => true,
            };
            if !ok {
                proof {
                    assert(!(ms[i as int]).wf());
                }
                return Err(Error::ImpossibleState("stored row is malformed".to_owned()));
            }
            i = i + 1;
        }
        let mut i: usize = 0;
        while i < n
            invariant
                0 <= i <= n,
                n == ms.len(),
                ms == rows@.map_values(|x: Row| x@),
                forall|a: int, b: int|
                    0 <= a < i && 0 <= b < n && a != b ==> !key_is(
                        #[trigger] ms[a],
                        (#[trigger] ms[b]).title,
                        ms[b].start,
                    ),
                forall|a: int, b: int|
                    0 <= a < i && 0 <= b < n && !(#[trigger] ms[a]).finished() && !(
                    #[trigger] ms[b]).finished() ==> a == b,
            decreases n - i,
        {
            let mut j: usize = 0;
            while j < n
                invariant
                    0 <= j <= n,
                    i < n,
                    n == ms.len(),
                    ms == rows@.map_values(|x: Row| x@),
                    forall|b: int|
                        0 <= b < j && i as int != b ==> !key_is(
                            ms[i as int],
                            (#[trigger] ms[b]).title,
                            ms[b].start,
                        ),
                    forall|b: int|
                        0 <= b < j && !(ms[i as int]).finished() && !(
                        #[trigger] ms[b]).finished() ==> i as int == b,
                decreases n - j,
            {
                if j != i {
                    if rows[i].title == rows[j].title && rows[i].start == rows[j].start {
                        proof {
                            assert(key_is(ms[i as int], (ms[j as int]).title, ms[j as int].start));
                            assert(!rows_wf(ms));
                        }
                        return Err(
                            Error::ImpossibleState("duplicate (title, start) in store".to_owned()),
                        );
                    }
                    if rows[i].end.is_none() && rows[j].end.is_none() {
                        proof {
                            assert(!(ms[i as int]).finished() && !(ms[j as int]).finished());
                            assert(!rows_wf(ms));
                        }
                        return Err(
                            Error::ImpossibleState("several unfinished rows in store".to_owned()),
                        );
                    }
                }
                j = j + 1;
            }
            i = i + 1;
        }
        proof {
            assert(rows_wf(ms));
        }
        Ok(ClockingStore { rows })
    }

    /// Starts a new entry titled `title` at the present instant, with
    /// empty notes; hands back its identity.
    pub fn start(&mut self, title: &str) -> (r: Result<EntryId, Error>)
        requires
            old(self).wf(),
        ensures
            final(self).wf(),
            r matches Ok(id) ==> id@.title == title@ && final(self)@ =~= old(self)@.push(
                RowModel {
                    title: title@,
                    start: id@.start,
                    end: None,
                    notes: Seq::<char>::empty(),
                },
            ) && !has_unfinished(old(self)@) && !has_key(old(self)@, title@, id@.start),
            r is Err ==> final(self)@ == old(self)@,
            r matches Err(e) ==> (e matches Error::InvalidInput(_) || e matches Error::DuplicateEntry
                || e matches Error::UnfinishedExists(_) || e matches Error::UnderlyingError(_)),
            (r matches Err(Error::InvalidInput(_))) ==> title@.len() == 0,
            (r matches Err(Error::DuplicateEntry)) ==> exists|t: int|
                valid_ts(t) && has_key(old(self)@, title@, t),
            (r matches Err(Error::UnfinishedExists(_))) ==> has_unfinished(old(self)@),
    {
        let now = now_utc_secs();
        if !(0 <= now && now < MAX_TS) {
            return Err(Error::UnderlyingError("clock out of supported range".to_owned()));
        }
        let empty_notes = "".to_owned();
        proof {
            reveal_strlit("");
            assert(empty_notes@ =~= Seq::<char>::empty());
        }
        let entry = UnfinishedEntry {
            id: EntryId { title: title.to_owned(), start: now },
            notes: empty_notes,
        };
        match self.start_entry(&entry) {
            Ok(()) => Ok(entry.id),
            Err(e) => Err(e),
        }
    }

    /// Finishes the entry of `id` at the present instant; `Ok(false)`
    /// where it is absent, already finished, or would not end after its
    /// start.
    pub fn try_finish_entry_now(&mut self, id: &EntryId, notes: &str) -> (r: Result<bool, Error>)
        requires
            old(self).wf(),
        ensures
            final(self).wf(),
            r matches Ok(b) ==> (b ==> exists|i: int, end: int|
                finishable_at(old(self)@, id@, end, i) && final(self)@ =~= old(self)@.update(
                    i,
                    finish_row(old(self)@[i], end, notes@),
                )),
            r matches Ok(b) ==> (!b ==> final(self)@ == old(self)@),
            r is Err ==> final(self)@ == old(self)@,
    {
        let now = now_utc_secs();
        if !(0 <= now && now < MAX_TS) {
            return Err(Error::UnderlyingError("clock out of supported range".to_owned()));
        }
        self.try_finish_entry(id, now, notes)
    }

    /// Starts a new entry: rejects an empty title, an already-present
    /// `(title, start)` key, and any start while an unfinished entry
    /// exists; otherwise appends the new row, unfinished.
    #[verifier::loop_isolation(false)]
    pub fn start_entry(&mut self, entry: &UnfinishedEntry) -> (r: Result<(), Error>)
        requires
            old(self).wf(),
            entry.id@.start >= 0,
            entry.id@.start < crate::time::MAX_TS,
        ensures
            final(self).wf(),
            entry.id@.title.len() == 0 ==> (r matches Err(Error::InvalidInput(_))) && final(self)@
                == old(self)@,
            entry.id@.title.len() > 0 && has_key(old(self)@, entry.id@.title, entry.id@.start)
                ==> r == Err::<(), Error>(Error::DuplicateEntry) && final(self)@ == old(self)@,
            entry.id@.title.len() > 0 && !has_key(old(self)@, entry.id@.title, entry.id@.start)
                && has_unfinished(old(self)@) ==> final(self)@ == old(self)@ && (r matches Err(
                Error::UnfinishedExists(t),
            ) && exists|i: int|
                0 <= i < old(self)@.len() && !(#[trigger] old(self)@[i]).finished() && t@ == old(
                    self,
                )@[i].title),
            entry.id@.title.len() > 0 && !has_key(old(self)@, entry.id@.title, entry.id@.start)
                && !has_unfinished(old(self)@) ==> r == Ok::<(), Error>(()) && final(self)@ =~= old(
                self,
            )@.push(
                RowModel {
                    title: entry.id@.title,
                    start: entry.id@.start,
                    end: None,
                    notes: entry@.notes,
                },
            ),
    {
        if entry.id.title.as_str().is_empty() {
            return Err(Error::InvalidInput("Empty title".to_owned()));
        }
        // check exists
        let n = self.rows.len();
        let mut i: usize = 0;
        while i < n
            invariant
                self == old(self),
                0 <= i <= n,
                n == self@.len(),
                forall|k: int|
                    0 <= k < i ==> !key_is(#[trigger] self@[k], entry.id@.title, entry.id@.start),
            decreases n - i,
        {
            if self.rows[i].title == entry.id.title && self.rows[i].start == entry.id.start {
                proof {
                    assert(key_is(old(self)@[i as int], entry.id@.title, entry.id@.start));
                    assert(has_key(old(self)@, entry.id@.title, entry.id@.start));
                }
                return Err(Error::DuplicateEntry);
            }
            i = i + 1;
        }
        // check unfinished
        let mut i: usize = 0;
        while i < n
            invariant
                self == old(self),
                0 <= i <= n,
                n == self@.len(),
                forall|k: int| 0 <= k < i ==> (#[trigger] self@[k]).finished(),
            decreases n - i,
        {
            if self.rows[i].end.is_none() {
                let t = self.rows[i].title.clone();
                proof {
                    assert(!(old(self)@[i as int]).finished());
                    assert(has_unfinished(old(self)@));
                    assert(t@ == old(self)@[i as int].title);
                }
                return Err(Error::UnfinishedExists(t));
            }
            i = i + 1;
        }
        // insert
        let row = Row {
            title: entry.id.title.clone(),
            start: entry.id.start,
            end: None,
            notes: entry.notes.clone(),
        };
        self.rows.push(row);
        proof {
            assert(self@ =~= old(self)@.push(
                RowModel {
                    title: entry.id@.title,
                    start: entry.id@.start,
                    end: None,
                    notes: entry@.notes,
                },
            ));
        }
        Ok(())
    }

    /// Finishes the one unfinished row with the exact key of `id`, if
    /// it exists and started strictly before `end`; appends `notes` to
    /// the row's notes. Returns `Ok(false)` -- never an error -- when
    /// the row is absent, already finished, or would not end after its
    /// start.
    #[verifier::loop_isolation(false)]
    pub fn try_finish_entry(&mut self, id: &EntryId, end: i64, notes: &str) -> (r: Result<
        bool,
        Error,
    >)
        requires
            old(self).wf(),
            0 <= end < crate::time::MAX_TS,
        ensures
            final(self).wf(),
            (exists|i: int| finishable_at(old(self)@, id@, end as int, i)) ==> exists|i: int|
                finishable_at(old(self)@, id@, end as int, i) && r == Ok::<bool, Error>(true)
                    && final(self)@ =~= old(self)@.update(
                    i,
                    finish_row(old(self)@[i], end as int, notes@),
                ),
            !(exists|i: int| finishable_at(old(self)@, id@, end as int, i)) ==> r == Ok::<
                bool,
                Error,
            >(false) && final(self)@ == old(self)@,
    {
        let n = self.rows.len();
        let mut i: usize = 0;
        while i < n
            invariant
                self == old(self),
                0 <= i <= n,
                n == self@.len(),
                forall|k: int|
                    0 <= k < i ==> !key_is(#[trigger] self@[k], id@.title, id@.start),
            decreases n - i,
        {
            if self.rows[i].title == id.title && self.rows[i].start == id.start {
                if self.rows[i].end.is_none() && self.rows[i].start < end {
                    let mut new_notes = self.rows[i].notes.clone();
                    new_notes.append(notes);
                    let row = Row {
                        title: self.rows[i].title.clone(),
                        start: self.rows[i].start,
                        end: Some(end),
                        notes: new_notes,
                    };
                    self.rows.set(i, row);
                    proof {
                        assert(finishable_at(old(self)@, id@, end as int, i as int));
                        assert(final(self)@ =~= old(self)@.update(
                            i as int,
                            finish_row(old(self)@[i as int], end as int, notes@),
                        ));
                    }
                    return Ok(true);
                } else {
                    proof {
                        assert forall|j: int| !finishable_at(
                            old(self)@,
                            id@,
                            end as int,
                            j,
                        ) by {
                            if 0 <= j < old(self)@.len() && key_is(
                                old(self)@[j],
                                id@.title,
                                id@.start,
                            ) {
                                assert(j == i as int);
                            }
                        }
                    }
                    return Ok(false);
                }
            }
            i = i + 1;
        }
        proof {
            assert forall|j: int| !finishable_at(old(self)@, id@, end as int, j) by {}
        }
        Ok(false)
    }

    /// Finishes the latest-started unfinished row of the given title,
    /// if one exists and started strictly before `end`; appends `notes`.
    /// Returns `Ok(false)` when no such row exists.
    #[verifier::loop_isolation(false)]
    pub fn try_finish_title(&mut self, title: &str, end: i64, notes: &str) -> (r: Result<
        bool,
        Error,
    >)
        requires
            old(self).wf(),
            0 <= end < crate::time::MAX_TS,
        ensures
            final(self).wf(),
            (exists|i: int| title_finishable_at(old(self)@, title@, end as int, i)) ==> exists|
                i: int,
            |
                title_finishable_at(old(self)@, title@, end as int, i) && (forall|j: int|
                    title_finishable_at(old(self)@, title@, end as int, j) ==> old(self)@[j].start
                        <= old(self)@[i].start) && r == Ok::<bool, Error>(true) && final(self)@
                    =~= old(self)@.update(i, finish_row(old(self)@[i], end as int, notes@)),
            !(exists|i: int| title_finishable_at(old(self)@, title@, end as int, i)) ==> r == Ok::<
                bool,
                Error,
            >(false) && final(self)@ == old(self)@,
    {
        let title_key: String = title.to_owned();
        let n = self.rows.len();
        let mut found: Option<usize> = None;
        let mut i: usize = 0;
        while i < n
            invariant
                self == old(self),
                0 <= i <= n,
                n == self@.len(),
                title_key@ == title@,
                match found {
                    Some(f) => title_finishable_at(self@, title@, end as int, f as int) && forall|
                        k: int,
                    |
                        0 <= k < i && title_finishable_at(self@, title@, end as int, k)
                            ==> self@[k].start <= self@[f as int].start,
                    None => forall|k: int|
                        0 <= k < i ==> !title_finishable_at(self@, title@, end as int, k),
                },
            decreases n - i,
        {
            if self.rows[i].title == title_key && self.rows[i].end.is_none()
                && self.rows[i].start < end {
                match found {
                    Some(f) => {
                        if self.rows[i].start > self.rows[f].start {
                            found = Some(i);
                        }
                    },
                    None => {
                        found = Some(i);
                    },
                }
            }
            i = i + 1;
        }
        match found {
            Some(f) => {
                let mut new_notes = self.rows[f].notes.clone();
                new_notes.append(notes);
                let row = Row {
                    title: self.rows[f].title.clone(),
                    start: self.rows[f].start,
                    end: Some(end),
                    notes: new_notes,
                };
                self.rows.set(f, row);
                proof {
                    assert(final(self)@ =~= old(self)@.update(
                        f as int,
                        finish_row(old(self)@[f as int], end as int, notes@),
                    ));
                }
                Ok(true)
            },
            None => Ok(false),
        }
    }

    /// Finishes the latest-added unfinished row, whatever its title, if
    /// one exists and started strictly before `end`; appends `notes`.
    /// Returns the finished row's title, or `Ok(None)` when no row can
    /// be finished.
    #[verifier::loop_isolation(false)]
    pub fn try_finish_any(&mut self, end: i64, notes: &str) -> (r: Result<Option<String>, Error>)
        requires
            old(self).wf(),
            0 <= end < crate::time::MAX_TS,
        ensures
            final(self).wf(),
            (exists|i: int| any_finishable_at(old(self)@, end as int, i)) ==> exists|i: int|
                any_finishable_at(old(self)@, end as int, i) && (r matches Ok(Some(t)) && t@ == old(
                    self,
                )@[i].title) && final(self)@ =~= old(self)@.update(
                    i,
                    finish_row(old(self)@[i], end as int, notes@),
                ),
            !(exists|i: int| any_finishable_at(old(self)@, end as int, i)) ==> r == Ok::<
                Option<String>,
                Error,
            >(None) && final(self)@ == old(self)@,
    {
        let n = self.rows.len();
        let mut found: Option<usize> = None;
        let mut i: usize = 0;
        while i < n
            invariant
                self == old(self),
                0 <= i <= n,
                n == self@.len(),
                match found {
                    Some(f) => any_finishable_at(self@, end as int, f as int),
                    None => forall|k: int|
                        0 <= k < i ==> !any_finishable_at(self@, end as int, k),
                },
            decreases n - i,
        {
            if self.rows[i].end.is_none() && self.rows[i].start < end {
                found = Some(i);
            }
            i = i + 1;
        }
        match found {
            Some(f) => {
                let title = self.rows[f].title.clone();
                let mut new_notes = self.rows[f].notes.clone();
                new_notes.append(notes);
                let row = Row {
                    title: self.rows[f].title.clone(),
                    start: self.rows[f].start,
                    end: Some(end),
                    notes: new_notes,
                };
                self.rows.set(f, row);
                proof {
                    assert(final(self)@ =~= old(self)@.update(
                        f as int,
                        finish_row(old(self)@[f as int], end as int, notes@),
                    ));
                }
                Ok(Some(title))
            },
            None => Ok(None),
        }
    }

    /// The finished entries whose start is at or after `query_start`
    /// and whose end is at or before `query_end` (defaulting to now),
    /// ordered by ascending start.
    #[verifier::loop_isolation(false)]
    pub fn finished(&self, query_start: i64, query_end: Option<i64>) -> (r: Result<
        Vec<FinishedEntry>,
        Error,
    >)
        requires
            self.wf(),
        ensures
            r matches Ok(v) && {
                let out = v@.map_values(|e: FinishedEntry| e@);
                &&& (query_end matches Some(qe) ==> out == finished_between(
                    self@,
                    query_start as int,
                    qe as int,
                ))
                &&& (query_end is None ==> exists|qe: int|
                    out == finished_between(self@, query_start as int, qe))
                &&& sorted_by_start(out)
                &&& forall|k: int|
                    0 <= k < out.len() ==> from_finished_row(
                        self@,
                        #[trigger] out[k],
                        query_start as int,
                    )
            },
    {
        let qe: i64 = match query_end {
            Some(e) => e,
            None => crate::time::now_utc_secs(),
        };
        let ghost pred = |r: RowModel| row_in_range(r, query_start as int, qe as int);
        let n = self.rows.len();
        let mut picked: Vec<FinishedEntry> = Vec::new();
        let mut i: usize = 0;
        while i < n
            invariant
                0 <= i <= n,
                n == self@.len(),
                picked@.map_values(|e: FinishedEntry| e@) =~= self@.take(i as int).filter(
                    pred,
                ).map_values(|r: RowModel| r.to_finished()),
            decreases n - i,
        {
            broadcast use Seq::lemma_filter_push;

            proof {
                assert(self@.take(i as int + 1) =~= self@.take(i as int).push(self@[i as int]));
            }
            let row = &self.rows[i];
            match row.end {
                Some(e) => {
                    if row.start >= query_start && e <= qe {
                        let entry = FinishedEntry {
                            id: EntryId { title: row.title.clone(), start: row.start },
                            end: e,
                            notes: row.notes.clone(),
                        };
                        proof {
                            assert(entry@ == self@[i as int].to_finished());
                        }
                        picked.push(entry);
                    }
                },
                None => {},
            }
            proof {
                let a = self@.take(i as int).filter(pred);
                assert(self@.take(i as int + 1).filter(pred) == if pred(self@[i as int]) {
                    a.push(self@[i as int])
                } else {
                    a
                });
                if pred(self@[i as int]) {
                    assert(a.push(self@[i as int]).map_values(|r: RowModel| r.to_finished()) =~= a.map_values(
                        |r: RowModel| r.to_finished(),
                    ).push(self@[i as int].to_finished()));
                }
                assert(picked@.map_values(|e: FinishedEntry| e@) =~= self@.take(i as int + 1).filter(
                    pred,
                ).map_values(|r: RowModel| r.to_finished()));
            }
            i = i + 1;
        }
        proof {
            assert(self@.take(n as int) =~= self@);
        }
        let ghost gpicked = picked@.map_values(|e: FinishedEntry| e@);
        let sorted = sort_finished(picked);
        proof {
            broadcast use vstd::seq_lib::group_to_multiset_ensures;

            let base = self@.filter(pred).map_values(|r: RowModel| r.to_finished());
            let out = sorted@.map_values(|e: FinishedEntry| e@);
            assert(gpicked == base);
            assert(out == sort_by_start(base));
            assert(out == finished_between(self@, query_start as int, qe as int));
            lemma_sort_by_start_props(base);
            self@.filter_lemma(pred);
            assert forall|k: int| 0 <= k < out.len() implies from_finished_row(
                self@,
                out[k],
                query_start as int,
            ) by {
                assert(out.to_multiset().contains(out[k]));
                assert(base.contains(out[k]));
                let m = choose|m: int| 0 <= m < base.len() && #[trigger] base[m] == out[k];
                let fr = self@.filter(pred)[m];
                assert(base[m] == fr.to_finished());
                lemma_filter_membership(self@, pred, m);
                let i = choose|i: int| 0 <= i < self@.len() && #[trigger] self@[i] == fr;
                assert(pred(fr));
                assert((self@[i]).to_finished() == out[k] && self@[i].finished() && self@[i].start
                    >= query_start);
            }
        }
        Ok(sorted)
    }

    /// At most `limit` unfinished entries, latest-started first. By
    /// the store's invariant there is at most one.
    #[verifier::loop_isolation(false)]
    pub fn unfinished(&self, limit: usize) -> (r: Result<Vec<UnfinishedEntry>, Error>)
        requires
            self.wf(),
        ensures
            r matches Ok(v) && {
                &&& (limit > 0 && has_unfinished(self@) ==> v@.len() == 1 && exists|i: int|
                    0 <= i < self@.len() && !(#[trigger] self@[i]).finished() && v@[0]@
                        == UnfinishedModel {
                        id: EntryIdModel { title: self@[i].title, start: self@[i].start },
                        notes: self@[i].notes,
                    })
                &&& (limit == 0 || !has_unfinished(self@) ==> v@.len() == 0)
            },
    {
        let mut v: Vec<UnfinishedEntry> = Vec::new();
        if limit == 0 {
            return Ok(v);
        }
        let n = self.rows.len();
        let mut i: usize = 0;
        while i < n
            invariant
                0 <= i <= n,
                n == self@.len(),
                v@.len() == 0,
                forall|k: int| 0 <= k < i ==> (#[trigger] self@[k]).finished(),
            decreases n - i,
        {
            if self.rows[i].end.is_none() {
                let entry = UnfinishedEntry {
                    id: EntryId { title: self.rows[i].title.clone(), start: self.rows[i].start },
                    notes: self.rows[i].notes.clone(),
                };
                proof {
                    assert(!(self@[i as int]).finished());
                    assert(has_unfinished(self@));
                    assert(entry@ == UnfinishedModel {
                        id: EntryIdModel {
                            title: self@[i as int].title,
                            start: self@[i as int].start,
                        },
                        notes: self@[i as int].notes,
                    });
                }
                v.push(entry);
                proof {
                    assert(v@.len() == 1);
                    assert(v@[0] == entry);
                }
                return Ok(v);
            }
            i = i + 1;
        }
        Ok(v)
    }

    /// The latest-started finished entry of the given title, or `None`
    /// where no finished entry has it.
    #[verifier::loop_isolation(false)]
    pub fn latest_finished(&self, title: &str) -> (r: Result<Option<FinishedEntry>, Error>)
        requires
            self.wf(),
        ensures
            r matches Ok(o) && {
                &&& ((exists|i: int| finished_title_at(self@, title@, i)) ==> (o matches Some(e)
                    && exists|i: int|
                    finished_title_at(self@, title@, i) && e@ == (#[trigger] self@[i]).to_finished()
                        && forall|j: int|
                        finished_title_at(self@, title@, j) ==> self@[j].start <= self@[i].start))
                &&& (!(exists|i: int| finished_title_at(self@, title@, i)) ==> o is None)
            },
    {
        let title_key: String = title.to_owned();
        let n = self.rows.len();
        let mut found: Option<usize> = None;
        let mut i: usize = 0;
        while i < n
            invariant
                0 <= i <= n,
                n == self@.len(),
                title_key@ == title@,
                match found {
                    Some(f) => finished_title_at(self@, title@, f as int) && forall|k: int|
                        0 <= k < i && finished_title_at(self@, title@, k) ==> self@[k].start
                            <= self@[f as int].start,
                    None => forall|k: int| 0 <= k < i ==> !finished_title_at(self@, title@, k),
                },
            decreases n - i,
        {
            if self.rows[i].title == title_key && self.rows[i].end.is_some() {
                match found {
                    Some(f) => {
                        if self.rows[i].start > self.rows[f].start {
                            found = Some(i);
                        }
                    },
                    None => {
                        found = Some(i);
                    },
                }
            }
            i = i + 1;
        }
        match found {
            Some(f) => {
                let row = &self.rows[f];
                let e = match row.end {
                    Some(e) => e,
                    None => 0,
                };
                let entry = FinishedEntry {
                    id: EntryId { title: row.title.clone(), start: row.start },
                    end: e,
                    notes: row.notes.clone(),
                };
                proof {
                    assert(entry@ == (self@[f as int]).to_finished());
                }
                Ok(Some(entry))
            },
            None => Ok(None),
        }
    }

    /// At most `limit` distinct titles of finished entries, ordered by
    /// their most recent start, latest first.
    #[verifier::loop_isolation(false)]
    pub fn recent_titles(&self, limit: usize) -> (r: Result<Vec<String>, Error>)
        requires
            self.wf(),
        ensures
            r matches Ok(v) && v@.map_values(|t: String| t@) == recent_titles_spec(
                self@,
                limit as int,
            ),
    {
        let n = self.rows.len();
        let mut pairs: Vec<TitleStart> = Vec::new();
        let mut i: usize = 0;
        while i < n
            invariant
                0 <= i <= n,
                n == self@.len(),
                pairs@.map_values(|t: TitleStart| t@) =~= finished_titles(self@.take(i as int)),
            decreases n - i,
        {
            proof {
                assert(self@.take(i as int + 1).drop_last() =~= self@.take(i as int));
                assert(self@.take(i as int + 1).last() == self@[i as int]);
            }
            let row = &self.rows[i];
            if row.end.is_some() {
                let ghost acc = pairs@.map_values(|t: TitleStart| t@);
                let ghost gseq = pairs@;
                let m = pairs.len();
                let mut f: usize = 0;
                let mut matched = false;
                while f < m && !matched
                    invariant
                        0 <= f <= m,
                        m == pairs@.len(),
                        matched ==> f < m && pairs@[f as int]@.0 == row.title@,
                        forall|k: int| 0 <= k < f ==> (#[trigger] pairs@[k])@.0 != row.title@,
                        gseq == pairs@,
                    decreases m - f + (if matched { 0int } else { 1int }),
                {
                    if pairs[f].title == row.title {
                        matched = true;
                    } else {
                        f = f + 1;
                    }
                }
                if matched {
                    proof {
                        assert forall|k: int| 0 <= k < f implies acc[k].0 != row.title@ by {
                            assert(acc[k] == gseq[k]@);
                        }
                        assert(acc[f as int].0 == row.title@);
                        lemma_upsert_max_found(acc, row.title@, row.start as int, f as int);
                    }
                    let mut p = pairs.remove(f);
                    if row.start > p.start {
                        p.start = row.start;
                    }
                    pairs.insert(f, p);
                    proof {
                        assert(pairs@ =~= gseq.update(f as int, p));
                        assert(pairs@.map_values(|t: TitleStart| t@) =~= upsert_max(
                            acc,
                            row.title@,
                            row.start as int,
                        ));
                    }
                } else {
                    proof {
                        assert forall|k: int| 0 <= k < acc.len() implies acc[k].0
                            != row.title@ by {
                            assert(acc[k] == gseq[k]@);
                        }
                        lemma_upsert_max_new(acc, row.title@, row.start as int);
                    }
                    pairs.push(TitleStart { title: row.title.clone(), start: row.start });
                    proof {
                        assert(pairs@.map_values(|t: TitleStart| t@) =~= upsert_max(
                            acc,
                            row.title@,
                            row.start as int,
                        ));
                    }
                }
            }
            i = i + 1;
        }
        proof {
            assert(self@.take(n as int) =~= self@);
        }
        // sort by latest start, descending
        let ghost collected = pairs@.map_values(|t: TitleStart| t@);
        let mut rest = pairs;
        let mut sorted: Vec<TitleStart> = Vec::new();
        let ghost mut done: int = 0;
        while rest.len() > 0
            invariant
                0 <= done <= collected.len(),
                rest@.map_values(|t: TitleStart| t@) =~= collected.skip(done),
                sorted@.map_values(|t: TitleStart| t@) =~= sort_desc(collected.take(done)),
            decreases rest@.len(),
        {
            proof {
                assert(rest@.len() > 0);
            }
            let ghost prev = rest@;
            let e = rest.remove(0);
            proof {
                assert(e == prev[0]);
                assert(prev.map_values(|x: TitleStart| x@)[0] == prev[0]@);
                assert(e@ == collected.skip(done)[0]);
                assert(e@ == collected[done]);
                assert forall|k: int| 0 <= k < rest@.len() implies rest@.map_values(
                    |x: TitleStart| x@,
                )[k] == #[trigger] collected.skip(done + 1)[k] by {
                    assert(rest@[k] == prev[k + 1]);
                    assert(prev.map_values(|x: TitleStart| x@)[k + 1] == prev[k + 1]@);
                    assert(collected.skip(done)[k + 1] == collected[done + 1 + k]);
                }
                assert(rest@.map_values(|x: TitleStart| x@) =~= collected.skip(done + 1));
            }
            let mut j: usize = sorted.len();
            while j > 0 && sorted[j - 1].start < e.start
                invariant
                    0 <= j <= sorted@.len(),
                    forall|k: int| j <= k < sorted@.len() ==> (#[trigger] sorted@[k])@.1 < e@.1,
                decreases j,
            {
                j = j - 1;
            }
            proof {
                let so = sorted@.map_values(|x: TitleStart| x@);
                lemma_insert_desc_at(e@, so, j as int);
                assert(collected.take(done + 1).drop_last() =~= collected.take(done));
                assert(collected.take(done + 1).last() == collected[done]);
            }
            sorted.insert(j, e);
            proof {
                assert(sorted@.map_values(|x: TitleStart| x@) =~= sort_desc(
                    collected.take(done + 1),
                ));
                done = done + 1;
            }
        }
        proof {
            assert(collected.take(done) =~= collected);
        }
        // cut to the limit and keep the titles
        let mut out: Vec<String> = Vec::new();
        let count = if limit < sorted.len() {
            limit
        } else {
            sorted.len()
        };
        let ghost sv = sorted@.map_values(|x: TitleStart| x@);
        let mut k: usize = 0;
        while k < count
            invariant
                0 <= k <= count,
                count == (if (limit as int) < sv.len() {
                    limit as int
                } else {
                    sv.len() as int
                }),
                sv == sorted@.map_values(|x: TitleStart| x@),
                sv =~= sort_desc(collected),
                out@.map_values(|t: String| t@) =~= sv.take(k as int).map_values(
                    |p: (Seq<char>, int)| p.0,
                ),
            decreases count - k,
        {
            proof {
                assert(sv.take(k as int + 1).drop_last() =~= sv.take(k as int));
                assert(sv.take(k as int + 1).last() == sv[k as int]);
                assert(sv[k as int] == sorted@[k as int]@);
            }
            let t = sorted[k].title.clone();
            let ghost pre_out = out@;
            out.push(t);
            proof {
                assert(out@.map_values(|t: String| t@) =~= pre_out.map_values(
                    |t: String| t@,
                ).push(sv[k as int].0));
                assert(sv.take(k as int + 1).map_values(|p: (Seq<char>, int)| p.0) =~= sv.take(
                    k as int,
                ).map_values(|p: (Seq<char>, int)| p.0).push(sv[k as int].0));
            }
            k = k + 1;
        }
        proof {
            assert(out@.map_values(|t: String| t@) =~= recent_titles_spec(self@, limit as int));
        }
        Ok(out)
    }

}



/// Decodes one persisted finished row from its stored column values:
/// the timestamps from their RFC 3339 text, the notes from a nullable
/// column. Any value that a correct store cannot hold is reported as
/// `ImpossibleState`.
///
/// Relies on `parse_rfc3339_utc` for the timestamp text.
pub fn row_to_finished_entry(title: String, start: &str, end: &str, notes: Option<String>) -> (r:
    Result<FinishedEntry, Error>)
    ensures
        rfc3339_ts(start@) is None ==> (r matches Err(Error::ImpossibleState(_))),
        rfc3339_ts(start@) matches Some(s) ==> (rfc3339_ts(end@) is None ==> (r matches Err(
            Error::ImpossibleState(_),
        ))),
        rfc3339_ts(start@) matches Some(s) ==> (rfc3339_ts(end@) matches Some(e) ==> {
            if valid_ts(s as int) && valid_ts(e as int) && s < e {
                r matches Ok(entry) && entry@ == FinishedModel {
                    id: EntryIdModel { title: title@, start: s as int },
                    end: e as int,
                    notes: match notes {
                        Some(n) => n@,
                        None => Seq::<char>::empty(),
                    },
                } && entry.wf()
            } else {
                r matches Err(Error::ImpossibleState(_))
            }
        }),
{
    let s = match parse_rfc3339_utc(start) {
        Some(s) => s,
        None => {
            return Err(Error::ImpossibleState("stored start is not a timestamp".to_owned()));
        },
    };
    let e = match parse_rfc3339_utc(end) {
        Some(e) => e,
        None => {
            return Err(Error::ImpossibleState("stored end is not a timestamp".to_owned()));
        },
    };
    if !(0 <= s && s < crate::time::MAX_TS && 0 <= e && e < crate::time::MAX_TS && s < e) {
        return Err(Error::ImpossibleState("stored span is out of order".to_owned()));
    }
    let notes_str = match notes {
        Some(n) => n,
        None => {
            let empty = "".to_owned();
            proof {
                reveal_strlit("");
                assert(empty@ =~= Seq::<char>::empty());
            }
            empty
        },
    };
    Ok(FinishedEntry { id: EntryId { title, start: s }, end: e, notes: notes_str })
}

/// Decodes one persisted unfinished row from its stored column values.
///
/// Relies on `parse_rfc3339_utc` for the timestamp text.
pub fn row_to_unfinished_entry(title: String, start: &str, notes: Option<String>) -> (r: Result<
    UnfinishedEntry,
    Error,
>)
    ensures
        rfc3339_ts(start@) is None ==> (r matches Err(Error::ImpossibleState(_))),
        rfc3339_ts(start@) matches Some(s) ==> {
            if valid_ts(s as int) {
                r matches Ok(entry) && entry@ == UnfinishedModel {
                    id: EntryIdModel { title: title@, start: s as int },
                    notes: match notes {
                        Some(n) => n@,
                        None => Seq::<char>::empty(),
                    },
                }
            } else {
                r matches Err(Error::ImpossibleState(_))
            }
        },
{
    let s = match parse_rfc3339_utc(start) {
        Some(s) => s,
        None => {
            return Err(Error::ImpossibleState("stored start is not a timestamp".to_owned()));
        },
    };
    if !(0 <= s && s < crate::time::MAX_TS) {
        return Err(Error::ImpossibleState("stored start is out of range".to_owned()));
    }
    let notes_str = match notes {
        Some(n) => n,
        None => {
            let empty = "".to_owned();
            proof {
                reveal_strlit("");
                assert(empty@ =~= Seq::<char>::empty());
            }
            empty
        },
    };
    Ok(UnfinishedEntry { id: EntryId { title, start: s }, notes: notes_str })
}

/// Law: a successful `start_entry` puts the new entry's key into the
/// store and leaves it unfinished. By `start_entry`'s contract, a
/// second start with the identical `(title, start)` is then refused
/// with `DuplicateEntry`, and any start at all is refused with
/// `UnfinishedExists` until the entry is finished.
pub proof fn lemma_start_blocks_restart(pre: Seq<RowModel>, row: RowModel)
    requires
        row.end is None,
    ensures
        has_key(pre.push(row), row.title, row.start),
        has_unfinished(pre.push(row)),
{
    let post = pre.push(row);
    assert(post[pre.len() as int] == row);
    assert(key_is(post[pre.len() as int], row.title, row.start));
    assert(!(post[pre.len() as int]).finished());
}

/// Law: finishing the one unfinished row leaves the store without any
/// unfinished row, so by `start_entry`'s contract a start succeeds
/// again (unless its key is already present).
pub proof fn lemma_finish_unblocks_start(pre: Seq<RowModel>, i: int, end: int, notes: Seq<char>)
    requires
        rows_wf(pre),
        0 <= i < pre.len(),
        !pre[i].finished(),
    ensures
        !has_unfinished(pre.update(i, finish_row(pre[i], end, notes))),
{
    let post = pre.update(i, finish_row(pre[i], end, notes));
    assert forall|j: int| 0 <= j < post.len() implies (#[trigger] post[j]).finished() by {
        if j != i {
            assert(post[j] == pre[j]);
            if !pre[j].finished() {
                assert(!pre[i].finished());
                assert(false);
            }
        }
    }
}

/// Law: after `try_finish_entry` finishes the row of `id`, no row of
/// `id` can be finished again, whatever end instant is tried; by
/// `try_finish_entry`'s contract every further call for `id` returns
/// `Ok(false)` and changes nothing. Together with the same contract's
/// clause for an absent key, finishing is idempotent-safe: a
/// double-finish or a finish of a nonexistent id is a reported no-op,
/// never an error.
pub proof fn lemma_finish_exact_idempotent(
    pre: Seq<RowModel>,
    id: EntryIdModel,
    i: int,
    end: int,
    notes: Seq<char>,
)
    requires
        rows_wf(pre),
        finishable_at(pre, id, end, i),
    ensures
        forall|j: int, end2: int|
            !finishable_at(pre.update(i, finish_row(pre[i], end, notes)), id, end2, j),
{
    let post = pre.update(i, finish_row(pre[i], end, notes));
    assert forall|j: int, end2: int| !finishable_at(post, id, end2, j) by {
        if 0 <= j < post.len() && key_is(post[j], id.title, id.start) {
            if j == i {
                assert(post[j].finished());
            } else {
                assert(post[j] == pre[j]);
                assert(key_is(pre[j], pre[i].title, pre[i].start));
                assert(false);
            }
        }
    }
}

/// Law: a finished row read back through a range query covering its
/// span comes back as exactly the entry that was written: the query's
/// result contains its `(title, start, end, notes)` unchanged.
pub proof fn lemma_finished_round_trip(rows: Seq<RowModel>, i: int, qs: int, qe: int)
    requires
        0 <= i < rows.len(),
        rows[i].finished(),
        qs <= rows[i].start,
        rows[i].end->Some_0 <= qe,
    ensures
        finished_between(rows, qs, qe).contains(rows[i].to_finished()),
{
    broadcast use vstd::seq_lib::group_to_multiset_ensures;

    let pred = |r: RowModel| row_in_range(r, qs, qe);
    let filtered = rows.filter(pred);
    let mapped = filtered.map_values(|r: RowModel| r.to_finished());
    rows.filter_lemma(pred);
    assert(pred(rows[i]));
    assert(filtered.contains(rows[i]));
    let m = choose|m: int| 0 <= m < filtered.len() && #[trigger] filtered[m] == rows[i];
    assert(mapped[m] == rows[i].to_finished());
    assert(mapped.contains(mapped[m]));
    lemma_sort_by_start_props(mapped);
    assert(sort_by_start(mapped).to_multiset().contains(mapped[m]));
    assert(finished_between(rows, qs, qe).contains(rows[i].to_finished()));
}

} // verus!
