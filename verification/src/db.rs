//! The journal's table of notes and the ways of reading it.
//!
//! A [`DB`] holds the rows in the order in which they were written. Nothing
//! is ever changed or taken out: a row is added at the end, and the readers
//! select.

use vstd::prelude::*;
use vstd::string::*;
use crate::calendar::{CalendarDate, Timestamp};
use crate::clock::local_now;
use crate::error::Error;
use crate::note::{views, Note, NoteView};
use crate::range::{lemma_day_range, lemma_invalid_date_exactly, DateFilter, DateRange};
use crate::text::{trim_text, trimmed};

verus! {

/// The words as plain text, in the same order.
pub open spec fn word_views(words: Seq<String>) -> Seq<Seq<char>> {
    Seq::new(words.len(), |i: int| words[i]@)
}

/// The words with one space between each two.
pub open spec fn joined(words: Seq<Seq<char>>) -> Seq<char>
    decreases words.len(),
{
    if words.len() == 0 {
        Seq::empty()
    } else if words.len() == 1 {
        words[0]
    } else {
        joined(words.drop_last()) + seq![' '] + words.last()
    }
}

/// Joins the words with one space between each two.
pub fn join_words(words: &Vec<String>) -> (text: String)
    ensures
        text@ == joined(word_views(words@)),
{
    let mut text = String::new();
    let mut i: usize = 0;
    while i < words.len()
        invariant
            i <= words.len(),
            text@ == joined(word_views(words@).take(i as int)),
        decreases words.len() - i,
    {
        let ghost before = word_views(words@).take(i as int);
        let ghost after = word_views(words@).take(i + 1);
        proof {
            reveal_strlit(" ");
            assert(after.drop_last() =~= before);
            assert(after.last() == words@[i as int]@);
        }
        if i > 0 {
            text.append(" ");
        }
        text.append(words[i].as_str());
        assert(text@ =~= joined(after));
        i = i + 1;
    }
    assert(word_views(words@).take(i as int) =~= word_views(words@));
    text
}

/// The text of a note made of `words`: the words joined by single spaces,
/// without the white space at the start and at the end.
pub open spec fn note_text(words: Seq<Seq<char>>) -> Seq<char> {
    trimmed(joined(words))
}

/// Makes the text of a note of the words: joins them by single spaces and
/// trims the white space off both ends.
pub fn compose_text(words: &Vec<String>) -> (text: String)
    ensures
        text@ == note_text(word_views(words@)),
{
    let whole = join_words(words);
    trim_text(whole.as_str())
}

/// The notes written on the day `day`, in the order of `notes`.
pub open spec fn on_day(notes: Seq<NoteView>, day: CalendarDate) -> Seq<NoteView> {
    notes.filter(|n: NoteView| n.date.date == day)
}

/// The notes that fall in `window`, in the order of `notes`; all of them
/// where there is no window.
pub open spec fn within(notes: Seq<NoteView>, window: Option<DateRange>) -> Seq<NoteView> {
    match window {
        Some(range) => notes.filter(|n: NoteView| range.holds(n.date)),
        None => notes,
    }
}

/// Whether the note at `i` is newer than the note at `j`: written at a later
/// moment, or at the same moment and further down the table.
pub open spec fn newer(notes: Seq<NoteView>, i: int, j: int) -> bool {
    notes[i].date.instant() > notes[j].date.instant() || (notes[i].date.instant()
        == notes[j].date.instant() && i > j)
}

/// `picks` names the `count` newest rows of `notes`, or all where there are
/// fewer: each pick is a row, each is newer than the picks behind it, and a
/// row that is left out is older than every pick.
pub open spec fn picks_latest(notes: Seq<NoteView>, count: nat, picks: Seq<int>) -> bool {
    &&& picks.len() == if count <= notes.len() { count } else { notes.len() }
    &&& forall|k: int| 0 <= k < picks.len() ==> 0 <= #[trigger] picks[k] < notes.len()
    &&& forall|k: int, l: int| 0 <= k < l < picks.len() ==> newer(notes, picks[k], picks[l])
    &&& forall|k: int, j: int|
        0 <= k < picks.len() && 0 <= j < notes.len() ==> picks.contains(j) || #[trigger] newer(
            notes,
            picks[k],
            j,
        )
}

/// The rows that `picks` names, in that order.
pub open spec fn picked(notes: Seq<NoteView>, picks: Seq<int>) -> Seq<NoteView> {
    Seq::new(picks.len(), |k: int| notes[picks[k]])
}

/// The places of the `count` newest rows of `notes`, the newest first.
pub open spec fn latest_picks(notes: Seq<NoteView>, count: nat) -> Seq<int> {
    choose|picks: Seq<int>| picks_latest(notes, count, picks)
}

/// The `count` newest notes, the newest first.
pub open spec fn latest(notes: Seq<NoteView>, count: nat) -> Seq<NoteView> {
    picked(notes, latest_picks(notes, count))
}

/// Only one sequence names the `count` newest rows.
pub proof fn lemma_picks_unique(notes: Seq<NoteView>, count: nat, p: Seq<int>, q: Seq<int>)
    requires
        picks_latest(notes, count, p),
        picks_latest(notes, count, q),
    ensures
        p == q,
{
    assert forall|k: int| 0 <= k < p.len() implies p[k] == q[k] by {
        lemma_picks_agree(notes, count, p, q, k);
    }
    assert(p =~= q);
}

proof fn lemma_picks_agree(notes: Seq<NoteView>, count: nat, p: Seq<int>, q: Seq<int>, k: int)
    requires
        picks_latest(notes, count, p),
        picks_latest(notes, count, q),
        0 <= k < p.len(),
    ensures
        p[k] == q[k],
    decreases k,
{
    assert forall|l: int| 0 <= l < k implies p[l] == q[l] by {
        lemma_picks_agree(notes, count, p, q, l);
    }
    if p[k] != q[k] {
        lemma_pick_precedes(notes, count, p, q, k);
        lemma_pick_precedes(notes, count, q, p, k);
    }
}

/// Where two pickings agree before `k` and differ at `k`, the pick of the
/// first is newer than the pick of the second.
proof fn lemma_pick_precedes(notes: Seq<NoteView>, count: nat, p: Seq<int>, q: Seq<int>, k: int)
    requires
        picks_latest(notes, count, p),
        picks_latest(notes, count, q),
        0 <= k < p.len(),
        forall|l: int| 0 <= l < k ==> p[l] == q[l],
        p[k] != q[k],
    ensures
        newer(notes, p[k], q[k]),
{
    let j = q[k];
    assert(0 <= j < notes.len());
    if p.contains(j) {
        let l = choose|l: int| 0 <= l < p.len() && p[l] == j;
        if l < k {
            assert(q[l] == j);
            assert(newer(notes, q[l], q[k]));
        } else {
            assert(newer(notes, p[k], p[l]));
        }
    } else {
        assert(p.contains(j) || newer(notes, p[k], j));
    }
}

/// The first place in `r`, from `k` on, whose row is not newer than row `i`.
spec fn ahead(notes: Seq<NoteView>, r: Seq<int>, i: int, k: int) -> int
    decreases r.len() - k,
{
    if 0 <= k < r.len() && newer(notes, r[k], i) {
        ahead(notes, r, i, k + 1)
    } else {
        k
    }
}

proof fn lemma_ahead(notes: Seq<NoteView>, r: Seq<int>, i: int, k: int)
    requires
        0 <= k <= r.len(),
    ensures
        k <= ahead(notes, r, i, k) <= r.len(),
        forall|l: int| k <= l < ahead(notes, r, i, k) ==> newer(notes, #[trigger] r[l], i),
        ahead(notes, r, i, k) < r.len() ==> !newer(notes, r[ahead(notes, r, i, k)], i),
    decreases r.len() - k,
{
    if k < r.len() && newer(notes, r[k], i) {
        lemma_ahead(notes, r, i, k + 1);
    }
}

/// The places of all rows of `notes`, the newest first.
spec fn ranking(notes: Seq<NoteView>) -> Seq<int>
    decreases notes.len(),
{
    if notes.len() == 0 {
        Seq::empty()
    } else {
        let r = ranking(notes.drop_last());
        r.insert(ahead(notes, r, notes.len() - 1, 0), notes.len() - 1)
    }
}

/// `r` names every row of `notes` once, the newest first.
spec fn is_ranking(notes: Seq<NoteView>, r: Seq<int>) -> bool {
    &&& r.len() == notes.len()
    &&& forall|k: int| 0 <= k < r.len() ==> 0 <= #[trigger] r[k] < notes.len()
    &&& forall|k: int, l: int| 0 <= k < l < r.len() ==> newer(notes, r[k], r[l])
    &&& forall|j: int| 0 <= j < notes.len() ==> #[trigger] r.contains(j)
}

proof fn lemma_ranking(notes: Seq<NoteView>)
    ensures
        is_ranking(notes, ranking(notes)),
    decreases notes.len(),
{
    if notes.len() > 0 {
        let rest = notes.drop_last();
        let before = ranking(rest);
        let i = notes.len() - 1;
        let p = ahead(notes, before, i, 0);
        let after = ranking(notes);
        lemma_ranking(rest);
        lemma_ahead(notes, before, i, 0);
        assert(after == before.insert(p, i));
        assert(after[p] == i);
        assert forall|k: int| 0 <= k < after.len() implies 0 <= #[trigger] after[k]
            < notes.len() by {
            if k < p {
                assert(after[k] == before[k]);
            } else if k > p {
                assert(after[k] == before[k - 1]);
            }
        }
        assert forall|k: int, l: int| 0 <= k < l < after.len() implies newer(
            notes,
            after[k],
            after[l],
        ) by {
            let bk = if k < p { k } else { k - 1 };
            let bl = if l < p { l } else { l - 1 };
            if k != p && l != p {
                assert(newer(rest, before[bk], before[bl]));
                assert(rest[before[bk]] == notes[before[bk]]);
                assert(rest[before[bl]] == notes[before[bl]]);
            } else if k == p {
                assert(0 <= before[bl] < i);
                assert(0 <= before[p] < i);
                assert(!newer(notes, before[p], i));
                if p < bl {
                    assert(newer(rest, before[p], before[bl]));
                    assert(rest[before[p]] == notes[before[p]]);
                    assert(rest[before[bl]] == notes[before[bl]]);
                }
            } else {
                assert(newer(notes, before[k], i));
            }
        }
        assert forall|j: int| 0 <= j < notes.len() implies #[trigger] after.contains(j) by {
            if j < i {
                assert(before.contains(j));
                let k = choose|k: int| 0 <= k < before.len() && before[k] == j;
                if k < p {
                    assert(after[k] == j);
                } else {
                    assert(after[k + 1] == j);
                }
            }
        }
    }
}

/// Every table has its newest rows: the picks of `latest_picks` name the
/// `count` newest rows of `notes`.
pub proof fn lemma_latest_picks(notes: Seq<NoteView>, count: nat)
    ensures
        picks_latest(notes, count, latest_picks(notes, count)),
{
    let r = ranking(notes);
    lemma_ranking(notes);
    let total = if count <= notes.len() {
        count as int
    } else {
        notes.len() as int
    };
    let picks = r.take(total);
    assert forall|k: int, j: int|
        0 <= k < picks.len() && 0 <= j < notes.len() implies picks.contains(j) || #[trigger] newer(
        notes,
        picks[k],
        j,
    ) by {
        assert(r.contains(j));
        let at = choose|at: int| 0 <= at < r.len() && r[at] == j;
        if at < total {
            assert(picks[at] == j);
        } else {
            assert(newer(notes, r[k], r[at]));
        }
    }
    assert(picks_latest(notes, count, picks));
}

/// Reading the newest notes never gives more than were asked for: `latest`
/// holds `count` notes, or all where the table has fewer, and none for a
/// count of zero.
pub proof fn lemma_latest_is_bounded(notes: Seq<NoteView>, count: nat)
    ensures
        latest(notes, count).len() <= count,
        latest(notes, count).len() <= notes.len(),
        latest(notes, count).len() == count || latest(notes, count).len() == notes.len(),
        count == 0 ==> latest(notes, count) == Seq::<NoteView>::empty(),
{
    lemma_latest_picks(notes, count);
    if count == 0 {
        assert(latest(notes, count) =~= Seq::<NoteView>::empty());
    }
}

/// `order` names every row of `notes` once, the newest first.
pub open spec fn ranks_all(notes: Seq<NoteView>, order: Seq<usize>) -> bool {
    &&& order.len() == notes.len()
    &&& forall|k: int| 0 <= k < order.len() ==> #[trigger] order[k] < notes.len()
    &&& forall|k: int, l: int|
        0 <= k < l < order.len() ==> newer(notes, order[k] as int, order[l] as int)
    &&& forall|j: usize| j < notes.len() ==> order.contains(j)
}

/// What reading by a filter returns on the day `today`: the notes in the
/// filter's range, or the error that the range could not be made for.
pub open spec fn selects(
    notes: Seq<NoteView>,
    filter: DateFilter,
    today: CalendarDate,
    found: Result<Vec<Note>, Error>,
) -> bool {
    match filter.range_spec(today) {
        Ok(window) => found matches Ok(rows) && views(rows@) == within(notes, window),
        Err(e) => found matches Err(x) && x == e,
    }
}

/// What reading by a filter returns where the clock reads `now`: what the
/// filter selects on that day, and an error exactly where a part of the
/// filter is given and its first day does not exist.
pub open spec fn selects_by_the_clock(
    notes: Seq<NoteView>,
    filter: DateFilter,
    now: Timestamp,
    found: Result<Vec<Note>, Error>,
) -> bool {
    &&& now.is_clock_reading()
    &&& selects(notes, filter, now.date, found)
    &&& found is Err <==> filter.span().is_some() && !filter.start(now.date).is_valid()
    &&& found matches Err(e) ==> e == Error::InvalidDate
}

/// The table of notes, in the order in which they were written.
pub struct DB {
    rows: Vec<Note>,
}

impl View for DB {
    type V = Seq<NoteView>;

    closed spec fn view(&self) -> Seq<NoteView> {
        views(self.rows@)
    }
}

impl DB {
    /// A table that holds `rows`: what was written down before.
    pub fn init(rows: Vec<Note>) -> (db: DB)
        ensures
            db@ == views(rows@),
    {
        DB { rows }
    }

    /// The rows of the table, the oldest entry first.
    pub fn rows(&self) -> (rows: &Vec<Note>)
        ensures
            views(rows@) == self@,
    {
        &self.rows
    }

    /// Adds a note at the end of the table: the words joined by spaces and
    /// trimmed, written at `now`.
    pub fn create_note_at(&mut self, input: &Vec<String>, now: Timestamp)
        ensures
            final(self)@ == old(self)@.push(
                NoteView { text: note_text(word_views(input@)), date: now },
            ),
    {
        let note = Note::at(compose_text(input), now);
        self.rows.push(note);
        assert(views(self.rows@) =~= views(old(self).rows@).push(note@));
    }

    /// Adds a note at the end of the table: the words joined by spaces and
    /// trimmed, written now by the local clock.
    pub fn create_note(&mut self, input: &Vec<String>)
        ensures
            final(self)@.len() == old(self)@.len() + 1,
            final(self)@.drop_last() == old(self)@,
            final(self)@.last().text == note_text(word_views(input@)),
            final(self)@.last().date.is_clock_reading(),
    {
        let now = local_now();
        self.create_note_at(input, now);
        assert(self@.drop_last() =~= old(self)@);
    }

    /// The notes written on the day `day`, in the order of the table.
    pub fn notes_on(&self, day: &CalendarDate) -> (found: Vec<Note>)
        ensures
            views(found@) == on_day(self@, *day),
    {
        let ghost keep = |n: NoteView| n.date.date == *day;
        let mut found: Vec<Note> = Vec::new();
        let mut i: usize = 0;
        proof {
            reveal(Seq::filter);
            assert(views(found@) =~= self@.take(0).filter(keep));
        }
        while i < self.rows.len()
            invariant
                i <= self.rows.len(),
                self@ == views(self.rows@),
                keep == |n: NoteView| n.date.date == *day,
                views(found@) == self@.take(i as int).filter(keep),
            decreases self.rows.len() - i,
        {
            let ghost so_far = self@.take(i as int);
            let ghost more = self@.take(i + 1);
            let ghost kept = views(found@);
            proof {
                reveal(Seq::filter);
                assert(more.drop_last() =~= so_far);
                assert(more.last() == self.rows@[i as int]@);
            }
            if self.rows[i].date.date == *day {
                found.push(self.rows[i].duplicate());
                assert(views(found@) =~= kept.push(more.last()));
            }
            i = i + 1;
        }
        assert(self@.take(i as int) =~= self@);
        found
    }

    /// The notes of today by the local clock, in the order of the table.
    pub fn get_todays_notes(&self) -> (found: Vec<Note>)
        ensures
            exists|now: Timestamp|
                now.is_clock_reading() && views(found@) == #[trigger] on_day(self@, now.date),
    {
        let now = local_now();
        self.notes_on(&now.date)
    }

    /// The notes that fall in `window`, in the order of the table; all of
    /// them where there is no window.
    pub fn notes_within(&self, window: &Option<DateRange>) -> (found: Vec<Note>)
        ensures
            views(found@) == within(self@, *window),
    {
        let ghost keep = |n: NoteView|
            match *window {
                Some(range) => range.holds(n.date),
                None => true,
            };
        let mut found: Vec<Note> = Vec::new();
        let mut i: usize = 0;
        proof {
            reveal(Seq::filter);
            assert(views(found@) =~= self@.take(0).filter(keep));
        }
        while i < self.rows.len()
            invariant
                i <= self.rows.len(),
                self@ == views(self.rows@),
                keep == |n: NoteView|
                    match *window {
                        Some(range) => range.holds(n.date),
                        None => true,
                    },
                views(found@) == self@.take(i as int).filter(keep),
            decreases self.rows.len() - i,
        {
            let ghost so_far = self@.take(i as int);
            let ghost more = self@.take(i + 1);
            let ghost kept = views(found@);
            proof {
                reveal(Seq::filter);
                assert(more.drop_last() =~= so_far);
                assert(more.last() == self.rows@[i as int]@);
            }
            let inside = match window {
                Some(range) => range.contains(&self.rows[i].date),
                None => true,
            };
            if inside {
                found.push(self.rows[i].duplicate());
                assert(views(found@) =~= kept.push(more.last()));
            }
            i = i + 1;
        }
        proof {
            assert(self@.take(i as int) =~= self@);
            lemma_window_filter(self@, *window);
        }
        found
    }

    /// The notes that the filter of `year`, `month` and `day` selects on the
    /// day `today`, in the order of the table.
    pub fn get_notes_from_at(
        &self,
        year: &Option<u16>,
        month: &Option<u8>,
        day: &Option<u8>,
        today: &CalendarDate,
    ) -> (found: Result<Vec<Note>, Error>)
        ensures
            selects(self@, DateFilter { year: *year, month: *month, day: *day }, *today, found),
    {
        let filter = DateFilter { year: *year, month: *month, day: *day };
        match filter.range(today) {
            Ok(window) => Ok(self.notes_within(&window)),
            Err(e) => Err(e),
        }
    }

    /// The notes that the filter of `year`, `month` and `day` selects today
    /// by the local clock, in the order of the table.
    pub fn get_notes_from(&self, year: &Option<u16>, month: &Option<u8>, day: &Option<u8>) -> (found:
        Result<Vec<Note>, Error>)
        ensures
            exists|now: Timestamp| #[trigger]
                selects_by_the_clock(
                    self@,
                    DateFilter { year: *year, month: *month, day: *day },
                    now,
                    found,
                ),
    {
        let now = local_now();
        let found = self.get_notes_from_at(year, month, day, &now.date);
        proof {
            let filter = DateFilter { year: *year, month: *month, day: *day };
            assert(filter.start(now.date).year < i32::MAX);
            lemma_invalid_date_exactly(filter, now.date);
            assert(selects_by_the_clock(self@, filter, now, found));
        }
        found
    }

    /// The places of all rows, the newest first.
    fn newest_first(&self) -> (order: Vec<usize>)
        ensures
            ranks_all(self@, order@),
    {
        let mut order: Vec<usize> = Vec::new();
        let mut i: usize = 0;
        while i < self.rows.len()
            invariant
                i <= self.rows.len(),
                self@ == views(self.rows@),
                order@.len() == i,
                forall|k: int| 0 <= k < order@.len() ==> #[trigger] order@[k] < i,
                forall|k: int, l: int|
                    0 <= k < l < order@.len() ==> newer(self@, order@[k] as int, order@[l] as int),
                forall|j: usize| j < i ==> order@.contains(j),
            decreases self.rows.len() - i,
        {
            let mut p: usize = 0;
            while p < order.len() && self.rows[order[p]].date.is_after(&self.rows[i].date)
                invariant
                    i < self.rows.len(),
                    self@ == views(self.rows@),
                    p <= order@.len(),
                    forall|k: int| 0 <= k < order@.len() ==> #[trigger] order@[k] < i,
                    forall|k: int| 0 <= k < p ==> newer(self@, order@[k] as int, i as int),
                decreases order@.len() - p,
            {
                p = p + 1;
            }
            let ghost before = order@;
            order.insert(p, i);
            let ghost after = order@;
            proof {
                assert(after[p as int] == i);
                assert forall|k: int, l: int| 0 <= k < l < after.len() implies newer(
                    self@,
                    after[k] as int,
                    after[l] as int,
                ) by {
                    let bk = if k < p { k } else { k - 1 };
                    let bl = if l < p { l } else { l - 1 };
                    if k != p && l != p {
                        assert(newer(self@, before[bk] as int, before[bl] as int));
                    } else if k == p {
                        assert(before[bl] < i);
                        if p < bl {
                            assert(newer(self@, before[p as int] as int, before[bl] as int));
                        }
                    }
                }
                assert forall|j: usize| j < i + 1 implies after.contains(j) by {
                    if j < i {
                        assert(before.contains(j));
                        let k = choose|k: int| 0 <= k < before.len() && before[k] == j;
                        if k < p {
                            assert(after[k] == j);
                        } else {
                            assert(after[k + 1] == j);
                        }
                    }
                }
                assert forall|k: int| 0 <= k < after.len() implies #[trigger] after[k] < i + 1 by {
                    if k < p {
                        assert(after[k] == before[k]);
                    } else if k > p {
                        assert(after[k] == before[k - 1]);
                    }
                }
            }
            i = i + 1;
        }
        order
    }

    /// The `count` newest notes, the newest first; all notes where there are
    /// fewer.
    pub fn get_last_notes(&self, count: &u8) -> (found: Vec<Note>)
        ensures
            views(found@) == latest(self@, *count as nat),
            found@.len() == if *count <= self@.len() {
                *count as nat
            } else {
                self@.len()
            },
    {
        let order = self.newest_first();
        let wanted: usize = *count as usize;
        let total: usize = if wanted <= self.rows.len() {
            wanted
        } else {
            self.rows.len()
        };
        let ghost picks = Seq::new(total as nat, |k: int| order@[k] as int);
        let mut found: Vec<Note> = Vec::new();
        let mut k: usize = 0;
        while k < total
            invariant
                k <= total,
                total <= order@.len(),
                order@.len() == self.rows@.len(),
                self@ == views(self.rows@),
                forall|l: int| 0 <= l < order@.len() ==> #[trigger] order@[l] < self.rows@.len(),
                picks == Seq::new(total as nat, |k: int| order@[k] as int),
                views(found@) == picked(self@, picks.take(k as int)),
            decreases total - k,
        {
            let ghost shown = views(found@);
            found.push(self.rows[order[k]].duplicate());
            assert(views(found@) =~= shown.push(self@[order@[k as int] as int]));
            assert(views(found@) =~= picked(self@, picks.take(k + 1)));
            k = k + 1;
        }
        proof {
            assert(picks.take(k as int) =~= picks);
            assert forall|l: int, j: int|
                0 <= l < picks.len() && 0 <= j < self@.len() implies picks.contains(j)
                || #[trigger] newer(self@, picks[l], j) by {
                assert(order@.contains(j as usize));
                let at = choose|at: int| 0 <= at < order@.len() && order@[at] == j as usize;
                if at < total {
                    assert(picks[at] == j);
                } else {
                    assert(newer(self@, order@[l] as int, order@[at] as int));
                }
            }
            assert(picks_latest(self@, *count as nat, picks));
            lemma_picks_unique(self@, *count as nat, latest_picks(self@, *count as nat), picks);
        }
        found
    }
}

/// A note that has just been written is the last of the notes of its day.
pub proof fn lemma_created_note_is_listed(
    before: Seq<NoteView>,
    words: Seq<Seq<char>>,
    now: Timestamp,
)
    ensures
        ({
            let note = NoteView { text: note_text(words), date: now };
            let listed = on_day(before.push(note), now.date);
            listed.len() > 0 && listed.last() == note
        }),
{
    reveal(Seq::filter);
    let note = NoteView { text: note_text(words), date: now };
    let after = before.push(note);
    assert(after.drop_last() =~= before);
    assert(after.last() == note);
}

/// The notes of a day are the notes in the range from that day to the next.
pub proof fn lemma_day_is_a_range(notes: Seq<NoteView>, day: CalendarDate)
    requires
        day.is_valid(),
        !day.ends_the_calendar(),
        forall|i: int| 0 <= i < notes.len() ==> (#[trigger] notes[i]).date.is_valid(),
    ensures
        on_day(notes, day) == within(
            notes,
            Some(DateRange { start: day, end: day.following_day() }),
        ),
    decreases notes.len(),
{
    reveal(Seq::filter);
    if notes.len() > 0 {
        let rest = notes.drop_last();
        assert forall|i: int| 0 <= i < rest.len() implies (#[trigger] rest[i]).date.is_valid() by {
            assert(notes[i].date.is_valid());
        }
        lemma_day_is_a_range(rest, day);
        assert(notes[notes.len() - 1].date.is_valid());
        lemma_day_range(day, notes.last().date);
    }
}

/// Selecting by a window is keeping the notes that it holds, and keeping all
/// where there is none.
proof fn lemma_window_filter(notes: Seq<NoteView>, window: Option<DateRange>)
    ensures
        within(notes, window) == notes.filter(
            |n: NoteView|
                match window {
                    Some(range) => range.holds(n.date),
                    None => true,
                },
        ),
    decreases notes.len(),
{
    reveal(Seq::filter);
    let keep = |n: NoteView|
        match window {
            Some(range) => range.holds(n.date),
            None => true,
        };
    if notes.len() > 0 {
        lemma_window_filter(notes.drop_last(), window);
        match window {
            Some(range) => {
                let inside = |n: NoteView| range.holds(n.date);
                assert(notes.filter(inside) =~= notes.filter(keep));
            },
            None => {
                assert(notes.drop_last().push(notes.last()) =~= notes);
            },
        }
    } else {
        assert(notes.filter(keep) =~= notes);
    }
}

} // verus!
