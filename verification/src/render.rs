//! The report: notes grouped by day and by minute, in chronological order.

use vstd::prelude::*;
use vstd::string::*;
use crate::calendar::{lemma_slot_ordinal_injective, Slot};
use crate::note::{views, Note, NoteView};
use crate::text::{date_text, minute_text, push_date, push_minute};

verus! {

/// The slots that at least one of `notes` falls in.
pub open spec fn slots_of(notes: Seq<NoteView>) -> Set<Slot> {
    Set::new(|s: Slot| exists|i: int| 0 <= i < notes.len() && (#[trigger] notes[i]).date.slot() == s)
}

/// Each slot comes before the slots behind it.
pub open spec fn strictly_ascending(q: Seq<Slot>) -> bool {
    forall|i: int, j: int| 0 <= i < j < q.len() ==> q[i].ordinal() < q[j].ordinal()
}

/// `q` names every slot of `s` once, the earliest first, and no other.
pub open spec fn lists_in_order(q: Seq<Slot>, s: Set<Slot>) -> bool {
    &&& strictly_ascending(q)
    &&& forall|x: Slot| q.contains(x) <==> s.contains(x)
}

/// The slots that `notes` fall in, each once, the earliest first.
pub open spec fn slot_order(notes: Seq<NoteView>) -> Seq<Slot> {
    choose|q: Seq<Slot>| lists_in_order(q, slots_of(notes))
}

/// The texts of the notes that fall in `slot`, in the order of `notes`.
pub open spec fn slot_texts(notes: Seq<NoteView>, slot: Slot) -> Seq<Seq<char>>
    decreases notes.len(),
{
    if notes.len() == 0 {
        Seq::empty()
    } else if notes.last().date.slot() == slot {
        slot_texts(notes.drop_last(), slot).push(notes.last().text)
    } else {
        slot_texts(notes.drop_last(), slot)
    }
}

/// One line `> text` for each text.
pub open spec fn quoted_lines(texts: Seq<Seq<char>>) -> Seq<char>
    decreases texts.len(),
{
    if texts.len() == 0 {
        Seq::empty()
    } else {
        quoted_lines(texts.drop_last()) + seq!['>', ' '] + texts.last() + seq!['\n']
    }
}

/// The heading of a day: `# YYYY-MM-DD` and an empty line.
pub open spec fn day_heading(s: Slot) -> Seq<char> {
    seq!['#', ' '] + date_text(s.day) + seq!['\n', '\n']
}

/// The heading of a minute: `## HH:MM` and an empty line.
pub open spec fn minute_heading(s: Slot) -> Seq<char> {
    seq!['#', '#', ' '] + minute_text(s) + seq!['\n', '\n']
}

/// Whether the slot at `i` is the first of its day in `q`.
pub open spec fn opens_day(q: Seq<Slot>, i: int) -> bool {
    i == 0 || q[i - 1].day != q[i].day
}

/// What the report holds for the slot at `i`: the day's heading where the
/// slot opens a day, the minute's heading, the notes of that minute and an
/// empty line.
pub open spec fn section_text(notes: Seq<NoteView>, q: Seq<Slot>, i: int) -> Seq<char> {
    (if opens_day(q, i) {
        day_heading(q[i])
    } else {
        Seq::empty()
    }) + minute_heading(q[i]) + quoted_lines(slot_texts(notes, q[i])) + seq!['\n']
}

/// The sections of the first `n` slots of `q`, one after the other.
pub open spec fn sections_text(notes: Seq<NoteView>, q: Seq<Slot>, n: nat) -> Seq<char>
    decreases n,
{
    if n == 0 {
        Seq::empty()
    } else {
        sections_text(notes, q, (n - 1) as nat) + section_text(notes, q, n - 1)
    }
}

/// The report on `notes`: a section for each slot that a note falls in, the
/// earliest first.
pub open spec fn report_text(notes: Seq<NoteView>) -> Seq<char> {
    sections_text(notes, slot_order(notes), slot_order(notes).len())
}

/// Only one sequence lists a set of slots in order.
pub proof fn lemma_listing_unique(a: Seq<Slot>, b: Seq<Slot>, s: Set<Slot>)
    requires
        lists_in_order(a, s),
        lists_in_order(b, s),
    ensures
        a == b,
    decreases a.len(),
{
    if a.len() == 0 {
        if b.len() > 0 {
            assert(b.contains(b[0]));
            assert(a.contains(b[0]));
        }
        assert(a =~= b);
    } else {
        let x = a.last();
        assert(a.contains(x));
        assert(b.contains(x));
        let k = choose|k: int| 0 <= k < b.len() && b[k] == x;
        let y = b.last();
        assert(b.contains(y));
        assert(a.contains(y));
        let i = choose|i: int| 0 <= i < a.len() && a[i] == y;
        assert(k == b.len() - 1);
        let a2 = a.drop_last();
        let b2 = b.drop_last();
        let s2 = s.remove(x);
        assert forall|z: Slot| a2.contains(z) <==> s2.contains(z) by {
            if a2.contains(z) {
                let j = choose|j: int| 0 <= j < a2.len() && a2[j] == z;
                assert(a[j] == z);
                assert(a.contains(z));
            }
            if s2.contains(z) {
                assert(a.contains(z));
                let j = choose|j: int| 0 <= j < a.len() && a[j] == z;
                assert(a2[j] == z);
            }
        }
        assert forall|z: Slot| b2.contains(z) <==> s2.contains(z) by {
            if b2.contains(z) {
                let j = choose|j: int| 0 <= j < b2.len() && b2[j] == z;
                assert(b[j] == z);
                assert(b.contains(z));
            }
            if s2.contains(z) {
                assert(b.contains(z));
                let j = choose|j: int| 0 <= j < b.len() && b[j] == z;
                assert(b2[j] == z);
            }
        }
        lemma_listing_unique(a2, b2, s2);
        assert(a =~= a2.push(x));
        assert(b =~= b2.push(x));
    }
}

/// A sequence that lists the slots of `notes` in order is their slot order.
pub proof fn lemma_slot_order(notes: Seq<NoteView>, q: Seq<Slot>)
    requires
        lists_in_order(q, slots_of(notes)),
    ensures
        slot_order(notes) == q,
{
    lemma_listing_unique(slot_order(notes), q, slots_of(notes));
}

/// A slot is one of the slots of `notes` exactly where a note has a line in
/// it.
pub proof fn lemma_slot_occupied(notes: Seq<NoteView>, slot: Slot)
    ensures
        slots_of(notes).contains(slot) <==> slot_texts(notes, slot).len() > 0,
    decreases notes.len(),
{
    if notes.len() > 0 {
        let rest = notes.drop_last();
        lemma_slot_occupied(rest, slot);
        if slots_of(notes).contains(slot) {
            let i = choose|i: int| 0 <= i < notes.len() && (#[trigger] notes[i]).date.slot() == slot;
            if i < rest.len() {
                assert(rest[i].date.slot() == slot);
            }
        }
        if slots_of(rest).contains(slot) {
            let i = choose|i: int| 0 <= i < rest.len() && (#[trigger] rest[i]).date.slot() == slot;
            assert(notes[i].date.slot() == slot);
        }
        if notes.last().date.slot() == slot {
            assert(notes[notes.len() - 1].date.slot() == slot);
        }
    }
}

/// `q` with `s` filed at its place, where `q` is in order.
spec fn filed(q: Seq<Slot>, s: Slot) -> Seq<Slot>
    decreases q.len(),
{
    if q.len() == 0 {
        seq![s]
    } else if q.last().ordinal() < s.ordinal() {
        q.push(s)
    } else if q.last().ordinal() == s.ordinal() {
        q
    } else {
        filed(q.drop_last(), s).push(q.last())
    }
}

proof fn lemma_filed(q: Seq<Slot>, s: Slot)
    requires
        strictly_ascending(q),
    ensures
        strictly_ascending(filed(q, s)),
        filed(q, s).contains(s),
        forall|x: Slot| #[trigger] q.contains(x) ==> filed(q, s).contains(x),
        forall|x: Slot| #[trigger] filed(q, s).contains(x) ==> q.contains(x) || x == s,
    decreases q.len(),
{
    let f = filed(q, s);
    if q.len() == 0 {
        assert(f[0] == s);
    } else if q.last().ordinal() < s.ordinal() {
        assert(f[q.len() as int] == s);
        assert forall|x: Slot| #[trigger] q.contains(x) implies f.contains(x) by {
            let i = choose|i: int| 0 <= i < q.len() && q[i] == x;
            assert(f[i] == x);
        }
        assert forall|x: Slot| #[trigger] f.contains(x) implies q.contains(x) || x == s by {
            let i = choose|i: int| 0 <= i < f.len() && f[i] == x;
            if i < q.len() {
                assert(q[i] == x);
            }
        }
        assert forall|i: int, j: int| 0 <= i < j < f.len() implies f[i].ordinal()
            < f[j].ordinal() by {
            if j == q.len() {
                assert(q[i].ordinal() <= q[q.len() - 1].ordinal());
            } else {
                assert(q[i].ordinal() < q[j].ordinal());
            }
        }
    } else if q.last().ordinal() == s.ordinal() {
        lemma_slot_ordinal_injective(q.last(), s);
        assert(q[q.len() - 1] == s);
    } else {
        let rest = q.drop_last();
        let last = q.last();
        let g = filed(rest, s);
        assert forall|i: int, j: int| 0 <= i < j < rest.len() implies rest[i].ordinal()
            < rest[j].ordinal() by {
            assert(q[i].ordinal() < q[j].ordinal());
        }
        lemma_filed(rest, s);
        assert(f =~= g.push(last));
        assert(f[g.len() as int] == last);
        assert(f.contains(s)) by {
            let i = choose|i: int| 0 <= i < g.len() && g[i] == s;
            assert(f[i] == s);
        }
        assert forall|x: Slot| #[trigger] q.contains(x) implies f.contains(x) by {
            let k = choose|k: int| 0 <= k < q.len() && q[k] == x;
            if k < rest.len() {
                assert(rest[k] == x);
                assert(rest.contains(x));
                assert(g.contains(x));
                let i = choose|i: int| 0 <= i < g.len() && g[i] == x;
                assert(f[i] == x);
            }
        }
        assert forall|x: Slot| #[trigger] f.contains(x) implies q.contains(x) || x == s by {
            let i = choose|i: int| 0 <= i < f.len() && f[i] == x;
            if i < g.len() {
                assert(g[i] == x);
                assert(g.contains(x));
                if rest.contains(x) {
                    let k = choose|k: int| 0 <= k < rest.len() && rest[k] == x;
                    assert(q[k] == x);
                }
            } else {
                assert(q[q.len() - 1] == x);
            }
        }
        assert forall|i: int, j: int| 0 <= i < j < f.len() implies f[i].ordinal()
            < f[j].ordinal() by {
            if j == g.len() {
                assert(g[i] == f[i]);
                assert(g.contains(g[i]));
                if rest.contains(g[i]) {
                    let k = choose|k: int| 0 <= k < rest.len() && rest[k] == g[i];
                    assert(q[k].ordinal() < q[q.len() - 1].ordinal());
                }
            } else {
                assert(g[i].ordinal() < g[j].ordinal());
            }
        }
    }
}

/// The slot order of `notes` names every slot that a note falls in once, the
/// earliest first, and no other.
pub proof fn lemma_slot_order_lists(notes: Seq<NoteView>)
    ensures
        lists_in_order(slot_order(notes), slots_of(notes)),
    decreases notes.len(),
{
    if notes.len() == 0 {
        let q = Seq::<Slot>::empty();
        assert(lists_in_order(q, slots_of(notes)));
    } else {
        let rest = notes.drop_last();
        lemma_slot_order_lists(rest);
        let s = notes.last().date.slot();
        let q = filed(slot_order(rest), s);
        lemma_filed(slot_order(rest), s);
        assert(rest =~= notes.take(notes.len() - 1));
        assert(notes =~= notes.take(notes.len() as int));
        lemma_slots_step(notes, notes.len() - 1);
        assert forall|x: Slot| q.contains(x) <==> slots_of(notes).contains(x) by {
            let r = slot_order(rest);
            assert(r.contains(x) <==> slots_of(rest).contains(x));
            assert(r.contains(x) ==> q.contains(x));
            assert(q.contains(x) ==> r.contains(x) || x == s);
            assert(q.contains(s));
            assert(slots_of(notes.take(notes.len() - 1 + 1)).contains(x) <==> (slots_of(
                notes.take(notes.len() - 1),
            ).contains(x) || x == s));
        }
        assert(lists_in_order(q, slots_of(notes)));
    }
}

/// Rendering does not look at the order of the notes beyond the order of
/// those that share a minute: two lists of notes that hold the same texts, in
/// the same order, in every slot have the same report.
pub proof fn lemma_report_is_order_stable(a: Seq<NoteView>, b: Seq<NoteView>)
    requires
        forall|slot: Slot| slot_texts(a, slot) == slot_texts(b, slot),
    ensures
        report_text(a) == report_text(b),
{
    assert forall|slot: Slot| slots_of(a).contains(slot) <==> slots_of(b).contains(slot) by {
        lemma_slot_occupied(a, slot);
        lemma_slot_occupied(b, slot);
    }
    assert(slots_of(a) =~= slots_of(b));
    let q = slot_order(a);
    assert(slot_order(b) == q);
    lemma_sections_agree(a, b, q, q.len());
}

/// `notes` with the notes at `i` and `i + 1` in each other's place.
pub open spec fn exchanged(notes: Seq<NoteView>, i: int) -> Seq<NoteView> {
    notes.update(i, notes[i + 1]).update(i + 1, notes[i])
}

/// Two neighbours that fall in different slots can change places, and the
/// report stays the same.
pub proof fn lemma_exchange_keeps_report(notes: Seq<NoteView>, i: int)
    requires
        0 <= i,
        i + 1 < notes.len(),
        notes[i].date.slot() != notes[i + 1].date.slot(),
    ensures
        report_text(exchanged(notes, i)) == report_text(notes),
{
    assert forall|slot: Slot| slot_texts(exchanged(notes, i), slot) == slot_texts(notes, slot) by {
        lemma_exchange_keeps_slots(notes, i, slot);
    }
    lemma_report_is_order_stable(exchanged(notes, i), notes);
}

proof fn lemma_exchange_keeps_slots(notes: Seq<NoteView>, i: int, slot: Slot)
    requires
        0 <= i,
        i + 1 < notes.len(),
        notes[i].date.slot() != notes[i + 1].date.slot(),
    ensures
        slot_texts(exchanged(notes, i), slot) == slot_texts(notes, slot),
    decreases notes.len(),
{
    let turned = exchanged(notes, i);
    if notes.len() == i + 2 {
        let head = notes.drop_last().drop_last();
        assert(turned.drop_last().drop_last() =~= head);
        assert(turned.last() == notes[i]);
        assert(turned.drop_last().last() == notes[i + 1]);
        assert(notes.drop_last().last() == notes[i]);
        assert(notes.last() == notes[i + 1]);
        let first = notes[i].date.slot() == slot;
        let second = notes[i + 1].date.slot() == slot;
        let base = slot_texts(head, slot);
        assert(slot_texts(notes.drop_last(), slot) == if first {
            base.push(notes[i].text)
        } else {
            base
        });
        assert(slot_texts(turned.drop_last(), slot) == if second {
            base.push(notes[i + 1].text)
        } else {
            base
        });
    } else {
        assert(turned.drop_last() =~= exchanged(notes.drop_last(), i));
        assert(turned.last() == notes.last());
        lemma_exchange_keeps_slots(notes.drop_last(), i, slot);
    }
}

proof fn lemma_sections_agree(a: Seq<NoteView>, b: Seq<NoteView>, q: Seq<Slot>, n: nat)
    requires
        forall|slot: Slot| slot_texts(a, slot) == slot_texts(b, slot),
    ensures
        sections_text(a, q, n) == sections_text(b, q, n),
    decreases n,
{
    if n > 0 {
        lemma_sections_agree(a, b, q, (n - 1) as nat);
        assert(slot_texts(a, q[n - 1]) == slot_texts(b, q[n - 1]));
    }
}

/// The texts of a slot among the first `m` notes open the texts of that slot
/// among all of them.
pub proof fn lemma_slot_texts_grow(notes: Seq<NoteView>, slot: Slot, m: int)
    requires
        0 <= m <= notes.len(),
    ensures
        slot_texts(notes.take(m), slot).is_prefix_of(slot_texts(notes, slot)),
    decreases notes.len() - m,
{
    if m == notes.len() {
        assert(notes.take(m) =~= notes);
    } else {
        let rest = notes.drop_last();
        assert(rest.take(m) =~= notes.take(m));
        lemma_slot_texts_grow(rest, slot, m);
    }
}

/// How many notes before the one at `i` fall in `slot`.
pub open spec fn place(notes: Seq<NoteView>, slot: Slot, i: int) -> int {
    slot_texts(notes.take(i), slot).len() as int
}

/// Notes of one minute share one heading and keep their order: where the
/// notes at `i` and, behind it, at `j` fall in the same slot, the report has
/// exactly one section for that slot, and in it the text of the first stands
/// before the text of the second.
pub proof fn lemma_same_minute_one_heading(notes: Seq<NoteView>, i: int, j: int)
    requires
        0 <= i < j < notes.len(),
        notes[i].date.slot() == notes[j].date.slot(),
    ensures
        ({
            let slot = notes[i].date.slot();
            let q = slot_order(notes);
            let texts = slot_texts(notes, slot);
            &&& exists|k: int| 0 <= k < q.len() && q[k] == slot
            &&& forall|k: int, l: int|
                0 <= k < q.len() && 0 <= l < q.len() && q[k] == slot && q[l] == slot ==> k == l
            &&& 0 <= place(notes, slot, i) < place(notes, slot, j) < texts.len()
            &&& texts[place(notes, slot, i)] == notes[i].text
            &&& texts[place(notes, slot, j)] == notes[j].text
        }),
{
    let slot = notes[i].date.slot();
    let q = slot_order(notes);
    lemma_slot_order_lists(notes);
    assert(slots_of(notes).contains(slot));
    assert(q.contains(slot));
    lemma_note_place(notes, slot, i);
    lemma_note_place(notes, slot, j);
    lemma_slot_texts_grow(notes.take(j), slot, i + 1);
    assert(notes.take(j).take(i + 1) =~= notes.take(i + 1));
}

/// A note's line stands where as many lines come before it as notes of its
/// slot come before the note.
proof fn lemma_note_place(notes: Seq<NoteView>, slot: Slot, i: int)
    requires
        0 <= i < notes.len(),
        notes[i].date.slot() == slot,
    ensures
        slot_texts(notes.take(i + 1), slot) == slot_texts(notes.take(i), slot).push(notes[i].text),
        place(notes, slot, i) < slot_texts(notes, slot).len(),
        slot_texts(notes, slot)[place(notes, slot, i)] == notes[i].text,
{
    let upto = notes.take(i + 1);
    assert(upto.drop_last() =~= notes.take(i));
    assert(upto.last() == notes[i]);
    lemma_slot_texts_grow(notes, slot, i + 1);
    let opening = slot_texts(upto, slot);
    let all = slot_texts(notes, slot);
    let at = place(notes, slot, i);
    assert(opening[at] == notes[i].text);
    assert(opening == all.subrange(0, opening.len() as int));
    assert(all.subrange(0, opening.len() as int)[at] == all[at]);
}

/// Files `slot` in an ordered list of slots, unless it is there.
fn file_slot(slots: &mut Vec<Slot>, slot: Slot)
    requires
        strictly_ascending(old(slots)@),
    ensures
        strictly_ascending(final(slots)@),
        forall|x: Slot| final(slots)@.contains(x) <==> (old(slots)@.contains(x) || x == slot),
{
    let mut p: usize = 0;
    while p < slots.len() && slots[p].is_before(&slot)
        invariant
            p <= slots.len(),
            slots@ == old(slots)@,
            forall|i: int| 0 <= i < p ==> slots@[i].ordinal() < slot.ordinal(),
        decreases slots.len() - p,
    {
        p = p + 1;
    }
    if p < slots.len() && slots[p] == slot {
        assert(slots@.contains(slot));
    } else {
        let ghost before = slots@;
        proof {
            if p < before.len() && before[p as int].ordinal() == slot.ordinal() {
                lemma_slot_ordinal_injective(before[p as int], slot);
            }
        }
        slots.insert(p, slot);
        let ghost after = slots@;
        assert(after[p as int] == slot);
        assert forall|x: Slot| after.contains(x) <==> (before.contains(x) || x == slot) by {
            if after.contains(x) {
                let i = choose|i: int| 0 <= i < after.len() && after[i] == x;
                if i < p {
                    assert(before[i] == x);
                } else if i > p {
                    assert(before[i - 1] == x);
                }
            }
            if before.contains(x) {
                let i = choose|i: int| 0 <= i < before.len() && before[i] == x;
                if i < p {
                    assert(after[i] == x);
                } else {
                    assert(after[i + 1] == x);
                }
            }
        }
        assert forall|i: int, j: int| 0 <= i < j < after.len() implies after[i].ordinal()
            < after[j].ordinal() by {
            let bi = if i < p { i } else { i - 1 };
            let bj = if j < p { j } else { j - 1 };
            if i != p && j != p {
                assert(before[bi].ordinal() < before[bj].ordinal());
            } else if i == p {
                assert(before[p as int].ordinal() <= before[bj].ordinal());
            }
        }
    }
}

/// The slots of one note more are the slots so far and that note's slot.
proof fn lemma_slots_step(notes: Seq<NoteView>, i: int)
    requires
        0 <= i < notes.len(),
    ensures
        forall|x: Slot|
            slots_of(notes.take(i + 1)).contains(x) <==> (slots_of(notes.take(i)).contains(x) || x
                == notes[i].date.slot()),
{
    let small = notes.take(i);
    let big = notes.take(i + 1);
    assert forall|x: Slot| slots_of(big).contains(x) <==> (slots_of(small).contains(x) || x
        == notes[i].date.slot()) by {
        if slots_of(big).contains(x) {
            let j = choose|j: int| 0 <= j < big.len() && (#[trigger] big[j]).date.slot() == x;
            if j < i {
                assert(small[j].date.slot() == x);
            }
        }
        if slots_of(small).contains(x) {
            let j = choose|j: int| 0 <= j < small.len() && (#[trigger] small[j]).date.slot() == x;
            assert(big[j].date.slot() == x);
        }
        if x == notes[i].date.slot() {
            assert(big[i].date.slot() == x);
        }
    }
}

/// The slots that the notes fall in, each once, the earliest first.
pub fn occupied_slots(notes: &Vec<Note>) -> (slots: Vec<Slot>)
    ensures
        slots@ == slot_order(views(notes@)),
        lists_in_order(slots@, slots_of(views(notes@))),
{
    let mut slots: Vec<Slot> = Vec::new();
    let mut i: usize = 0;
    assert(lists_in_order(slots@, slots_of(views(notes@).take(0))));
    while i < notes.len()
        invariant
            i <= notes.len(),
            lists_in_order(slots@, slots_of(views(notes@).take(i as int))),
        decreases notes.len() - i,
    {
        let ghost listed = slots@;
        let slot = notes[i].date.to_slot();
        file_slot(&mut slots, slot);
        proof {
            let all = views(notes@);
            lemma_slots_step(all, i as int);
            assert(slot == all[i as int].date.slot());
            assert forall|x: Slot| slots@.contains(x) <==> slots_of(all.take(i + 1)).contains(
                x,
            ) by {
                assert(listed.contains(x) <==> slots_of(all.take(i as int)).contains(x));
            }
        }
        i = i + 1;
    }
    proof {
        assert(views(notes@).take(i as int) =~= views(notes@));
        lemma_slot_order(views(notes@), slots@);
    }
    slots
}

/// Appends a line `> text` for each note that falls in `slot`.
fn push_quotes(out: &mut String, notes: &Vec<Note>, slot: &Slot)
    ensures
        final(out)@ == old(out)@ + quoted_lines(slot_texts(views(notes@), *slot)),
{
    let mut j: usize = 0;
    assert(out@ =~= old(out)@ + quoted_lines(slot_texts(views(notes@).take(0), *slot)));
    while j < notes.len()
        invariant
            j <= notes.len(),
            out@ == old(out)@ + quoted_lines(slot_texts(views(notes@).take(j as int), *slot)),
        decreases notes.len() - j,
    {
        let ghost so_far = views(notes@).take(j as int);
        let ghost more = views(notes@).take(j + 1);
        proof {
            assert(more.drop_last() =~= so_far);
            assert(more.last() == notes@[j as int]@);
        }
        if notes[j].date.to_slot() == *slot {
            proof {
                reveal_strlit("> ");
                reveal_strlit("\n");
                let texts = slot_texts(more, *slot);
                assert(texts.drop_last() =~= slot_texts(so_far, *slot));
            }
            out.append("> ");
            out.append(notes[j].text.as_str());
            out.append("\n");
            assert(out@ =~= old(out)@ + quoted_lines(slot_texts(more, *slot)));
        }
        j = j + 1;
    }
    assert(views(notes@).take(j as int) =~= views(notes@));
}

/// Appends the heading of the day of `slot`.
fn push_day_heading(out: &mut String, slot: &Slot)
    ensures
        final(out)@ == old(out)@ + day_heading(*slot),
{
    proof {
        reveal_strlit("# ");
        reveal_strlit("\n\n");
    }
    out.append("# ");
    push_date(out, &slot.day);
    out.append("\n\n");
    assert(out@ =~= old(out)@ + day_heading(*slot));
}

/// Appends the heading of the minute of `slot`.
fn push_minute_heading(out: &mut String, slot: &Slot)
    ensures
        final(out)@ == old(out)@ + minute_heading(*slot),
{
    proof {
        reveal_strlit("## ");
        reveal_strlit("\n\n");
    }
    out.append("## ");
    push_minute(out, slot);
    out.append("\n\n");
    assert(out@ =~= old(out)@ + minute_heading(*slot));
}

/// Appends the section of the slot at `k`.
fn push_section(out: &mut String, notes: &Vec<Note>, slots: &Vec<Slot>, k: usize)
    requires
        k < slots.len(),
    ensures
        final(out)@ == old(out)@ + section_text(views(notes@), slots@, k as int),
{
    let ghost heading = if opens_day(slots@, k as int) {
        day_heading(slots@[k as int])
    } else {
        Seq::empty()
    };
    if k == 0 || slots[k - 1].day != slots[k].day {
        push_day_heading(out, &slots[k]);
    }
    assert(out@ =~= old(out)@ + heading);
    push_minute_heading(out, &slots[k]);
    push_quotes(out, notes, &slots[k]);
    proof {
        reveal_strlit("\n");
    }
    out.append("\n");
    assert(out@ =~= old(out)@ + (heading + minute_heading(slots@[k as int]) + quoted_lines(
        slot_texts(views(notes@), slots@[k as int]),
    ) + seq!['\n']));
}

/// Writes the report on `notes`.
pub fn render(notes: &Vec<Note>) -> (out: String)
    ensures
        out@ == report_text(views(notes@)),
{
    let slots = occupied_slots(notes);
    let mut out = String::new();
    let mut k: usize = 0;
    while k < slots.len()
        invariant
            k <= slots.len(),
            out@ == sections_text(views(notes@), slots@, k as nat),
        decreases slots.len() - k,
    {
        push_section(&mut out, notes, &slots, k);
        k = k + 1;
    }
    out
}

} // verus!
